//! Round-trip laws of the parser and renderer.
//!
//! The central results: an annotated string assembled from marker-free
//! content and a sorted list of marker insertions scans back to exactly those
//! markers (`lemma_scan_assemble`); rendering a well-formed state whose
//! content holds no marker text and whose regions are ordered and disjoint
//! produces a string that parses back to the same state
//! (`lemma_parse_render_round_trip`); and a single caret marker round-trips
//! exactly (`lemma_single_caret_round_trip`).

use crate::digits::canon_digits;
use crate::digits::digits_of;
use crate::digits::is_digit;
use crate::digits::lemma_canon_digits_of;
use crate::digits::lemma_digits_of_injective;
use crate::digits::lemma_digits_of_shape;
use crate::region::RegionView;
use crate::scan::Marker;
use crate::scan::digit_run_end;
use crate::scan::end_at;
use crate::scan::end_tok_end;
use crate::scan::marks;
use crate::scan::marks_from;
use crate::scan::start_at;
use crate::scan::start_tok_end;
use crate::scan::stripped;
use crate::scan::stripped_from;
use crate::state::dup_at;
use crate::state::find_end;
use crate::state::find_end_from;
use crate::state::has_dup;
use crate::state::marker_text;
use crate::state::region_for;
use crate::state::regions_of;
use crate::state::regions_upto;
use crate::state::render_from;
use crate::state::render_spec;
use crate::state::splice;
use vstd::prelude::*;

verus! {

/// Content with no marker occurrence anywhere.
pub open spec fn marker_free(c: Seq<char>) -> bool {
    &&& forall|i: int| !(#[trigger] start_at(c, i))
    &&& forall|i: int| !(#[trigger] end_at(c, i))
}

/// A digit run reaches its end: digits up to it, a non-digit (or the text's
/// end) at it.
proof fn lemma_run_props(s: Seq<char>, i: int)
    requires
        0 <= i <= s.len(),
    ensures
        i <= digit_run_end(s, i) <= s.len(),
        forall|k: int| i <= k < digit_run_end(s, i) ==> is_digit(#[trigger] s[k]),
        digit_run_end(s, i) < s.len() ==> !is_digit(s[digit_run_end(s, i)]),
    decreases s.len() - i,
{
    if i < s.len() && is_digit(s[i]) {
        lemma_run_props(s, i + 1);
    }
}

/// A stretch of digits followed by a non-digit (or the text's end) is the
/// digit run.
proof fn lemma_run_exact(s: Seq<char>, i: int, e: int)
    requires
        0 <= i <= e <= s.len(),
        forall|k: int| i <= k < e ==> is_digit(#[trigger] s[k]),
        e < s.len() ==> !is_digit(s[e]),
    ensures
        digit_run_end(s, i) == e,
    decreases e - i,
{
    if i < e {
        lemma_run_exact(s, i + 1, e);
    }
}

/// Start markers look the same from a suffix of the text.
proof fn lemma_start_shift(s: Seq<char>, i: int, d: int)
    requires
        0 <= i,
        0 <= d,
        i + d <= s.len(),
    ensures
        start_at(s, i + d) == start_at(s.skip(i), d),
        start_at(s.skip(i), d) ==> start_tok_end(s, i + d) == i + start_tok_end(s.skip(i), d),
        start_at(s.skip(i), d) ==> s.subrange(i + d + 2, digit_run_end(s, i + d + 2)) == s.skip(
            i,
        ).subrange(d + 2, digit_run_end(s.skip(i), d + 2)),
{
    let z = s.skip(i);
    assert(z.len() == s.len() - i);
    if i + d + 2 <= s.len() {
        lemma_run_props(z, d + 2);
        let e2 = digit_run_end(z, d + 2);
        assert forall|k: int| i + d + 2 <= k < i + e2 implies is_digit(#[trigger] s[k]) by {
            assert(s[k] == z[k - i]);
        }
        if e2 < z.len() {
            assert(s[i + e2] == z[e2]);
        }
        lemma_run_exact(s, i + d + 2, i + e2);
        if start_at(z, d) {
            assert(s[i + d] == z[d] && s[i + d + 1] == z[d + 1] && s[i + e2] == z[e2]);
            assert(s.subrange(i + d + 2, i + e2) =~= z.subrange(d + 2, e2));
        }
        if start_at(s, i + d) {
            assert(z[d] == s[i + d] && z[d + 1] == s[i + d + 1] && z[e2] == s[i + e2]);
        }
    }
}

/// End markers look the same from a suffix of the text.
proof fn lemma_end_shift(s: Seq<char>, i: int, d: int)
    requires
        0 <= i,
        0 <= d,
        i + d <= s.len(),
    ensures
        end_at(s, i + d) == end_at(s.skip(i), d),
        end_at(s.skip(i), d) ==> end_tok_end(s, i + d) == i + end_tok_end(s.skip(i), d),
        end_at(s.skip(i), d) ==> s.subrange(i + d + 3, digit_run_end(s, i + d + 3)) == s.skip(
            i,
        ).subrange(d + 3, digit_run_end(s.skip(i), d + 3)),
{
    let z = s.skip(i);
    assert(z.len() == s.len() - i);
    if i + d + 3 <= s.len() {
        lemma_run_props(z, d + 3);
        let e2 = digit_run_end(z, d + 3);
        assert forall|k: int| i + d + 3 <= k < i + e2 implies is_digit(#[trigger] s[k]) by {
            assert(s[k] == z[k - i]);
        }
        if e2 < z.len() {
            assert(s[i + e2] == z[e2]);
        }
        lemma_run_exact(s, i + d + 3, i + e2);
        if end_at(z, d) {
            assert(s[i + d] == z[d] && s[i + d + 1] == z[d + 1] && s[i + d + 2] == z[d + 2]
                && s[i + e2] == z[e2]);
            assert(s.subrange(i + d + 3, i + e2) =~= z.subrange(d + 3, e2));
        }
        if end_at(s, i + d) {
            assert(z[d] == s[i + d] && z[d + 1] == s[i + d + 1] && z[d + 2] == s[i + d + 2] && z[e2]
                == s[i + e2]);
        }
    }
}

/// Scanning a suffix of the text is scanning the text from that position.
proof fn lemma_scan_shift(s: Seq<char>, i: int, d: int, out: int)
    requires
        0 <= i,
        0 <= d,
        i + d <= s.len(),
    ensures
        marks_from(s, i + d, out) == marks_from(s.skip(i), d, out),
        stripped_from(s, i + d) == stripped_from(s.skip(i), d),
    decreases s.len() - i - d,
{
    let z = s.skip(i);
    lemma_start_shift(s, i, d);
    lemma_end_shift(s, i, d);
    if i + d >= s.len() {
    } else if start_at(s, i + d) {
        lemma_scan_shift(s, i, start_tok_end(z, d), out);
    } else if end_at(s, i + d) {
        lemma_scan_shift(s, i, end_tok_end(z, d), out);
    } else {
        assert(s[i + d] == z[d]);
        lemma_scan_shift(s, i, d + 1, out + 1);
    }
}

/// No marker of a marker-free text survives inside a part of it.
proof fn lemma_marker_free_within(c: Seq<char>, a: int, b: int)
    requires
        marker_free(c),
        0 <= a <= b <= c.len(),
    ensures
        marker_free(c.subrange(a, b)),
{
    let z = c.subrange(a, b);
    assert forall|i: int| !(#[trigger] start_at(z, i)) by {
        if start_at(z, i) {
            lemma_run_props(z, i + 2);
            let e = digit_run_end(z, i + 2);
            assert forall|k: int| a + i + 2 <= k < a + e implies is_digit(#[trigger] c[k]) by {
                assert(c[k] == z[k - a]);
            }
            assert(c[a + e] == z[e]);
            lemma_run_exact(c, a + i + 2, a + e);
            assert(c[a + i] == z[i] && c[a + i + 1] == z[i + 1]);
            assert(start_at(c, a + i));
        }
    }
    assert forall|i: int| !(#[trigger] end_at(z, i)) by {
        if end_at(z, i) {
            lemma_run_props(z, i + 3);
            let e = digit_run_end(z, i + 3);
            assert forall|k: int| a + i + 3 <= k < a + e implies is_digit(#[trigger] c[k]) by {
                assert(c[k] == z[k - a]);
            }
            assert(c[a + e] == z[e]);
            lemma_run_exact(c, a + i + 3, a + e);
            assert(c[a + i] == z[i] && c[a + i + 1] == z[i + 1] && c[a + i + 2] == z[i + 2]);
            assert(end_at(c, a + i));
        }
    }
}

/// A marker-free text scans to no markers and strips to itself.
proof fn lemma_scan_marker_free(z: Seq<char>, out: int)
    requires
        marker_free(z),
    ensures
        marks_from(z, 0, out) == Seq::<Marker>::empty(),
        stripped_from(z, 0) == z,
    decreases z.len(),
{
    if z.len() == 0 {
        assert(stripped_from(z, 0) =~= z);
    } else {
        assert(!start_at(z, 0) && !end_at(z, 0));
        lemma_scan_shift(z, 1, 0, out + 1);
        assert(z.skip(1) =~= z.subrange(1, z.len() as int));
        lemma_marker_free_within(z, 1, z.len() as int);
        lemma_scan_marker_free(z.skip(1), out + 1);
        assert(stripped_from(z, 0) =~= seq![z[0]] + z.skip(1));
        assert(seq![z[0]] + z.skip(1) =~= z);
    }
}

/// At the head of marker-free text followed by `<` (or nothing), no marker
/// begins.
proof fn lemma_head_no_marker(x: Seq<char>, y: Seq<char>)
    requires
        x.len() > 0,
        marker_free(x),
        y.len() == 0 || y[0] == '<',
    ensures
        !start_at(x + y, 0),
        !end_at(x + y, 0),
{
    let s = x + y;
    assert(forall|k: int| 0 <= k < x.len() ==> #[trigger] s[k] == x[k]);
    if start_at(s, 0) {
        lemma_run_props(s, 2);
        let e = digit_run_end(s, 2);
        assert(x.len() >= 2) by {
            if x.len() == 1 {
                assert(s[1] == y[0]);
            }
        }
        assert(e <= x.len()) by {
            if e > x.len() {
                assert(is_digit(s[x.len() as int]));
                assert(s[x.len() as int] == y[0]);
            }
        }
        assert(e < x.len()) by {
            if e == x.len() {
                assert(e < s.len());
                assert(s[e] == y[0]);
            }
        }
        assert forall|k: int| 2 <= k < e implies is_digit(#[trigger] x[k]) by {
            assert(x[k] == s[k]);
        }
        lemma_run_exact(x, 2, e);
        assert(start_at(x, 0));
    }
    if end_at(s, 0) {
        lemma_run_props(s, 3);
        let e = digit_run_end(s, 3);
        assert(x.len() >= 3) by {
            if x.len() == 1 {
                assert(s[1] == y[0]);
            }
            if x.len() == 2 {
                assert(s[2] == y[0]);
            }
        }
        assert(e <= x.len()) by {
            if e > x.len() {
                assert(is_digit(s[x.len() as int]));
                assert(s[x.len() as int] == y[0]);
            }
        }
        assert(e < x.len()) by {
            if e == x.len() {
                assert(e < s.len());
                assert(s[e] == y[0]);
            }
        }
        assert forall|k: int| 3 <= k < e implies is_digit(#[trigger] x[k]) by {
            assert(x[k] == s[k]);
        }
        lemma_run_exact(x, 3, e);
        assert(end_at(x, 0));
    }
}

/// Scanning marker-free text followed by markers passes over the text: the
/// markers keep their identities and the text becomes content.
proof fn lemma_scan_literal_prefix(x: Seq<char>, y: Seq<char>, out: int)
    requires
        marker_free(x),
        y.len() == 0 || y[0] == '<',
    ensures
        marks_from(x + y, 0, out) == marks_from(y, 0, out + x.len()),
        stripped_from(x + y, 0) == x + stripped_from(y, 0),
    decreases x.len(),
{
    let s = x + y;
    if x.len() == 0 {
        assert(s =~= y);
        assert(x + stripped_from(y, 0) =~= stripped_from(y, 0));
    } else {
        lemma_head_no_marker(x, y);
        assert(s.len() > 0);
        lemma_scan_shift(s, 1, 0, out + 1);
        let x1 = x.subrange(1, x.len() as int);
        assert(s.skip(1) =~= x1 + y);
        lemma_marker_free_within(x, 1, x.len() as int);
        lemma_scan_literal_prefix(x1, y, out + 1);
        assert(marks_from(s, 0, out) == marks_from(s, 1, out + 1));
        assert(stripped_from(s, 0) == seq![s[0]] + stripped_from(s, 1));
        assert(seq![s[0]] + (x1 + stripped_from(y, 0)) =~= x + stripped_from(y, 0));
    }
}

/// Scanning a marker followed by more text yields that marker, then the rest.
proof fn lemma_scan_marker_head(d: Seq<char>, is_start: bool, y: Seq<char>, out: int)
    requires
        d.len() > 0,
        forall|k: int| 0 <= k < d.len() ==> is_digit(#[trigger] d[k]),
    ensures
        ({
            let m = if is_start {
                seq!['<', '$'] + d + seq!['>']
            } else {
                seq!['<', '/', '$'] + d + seq!['>']
            };
            marks_from(m + y, 0, out) == seq![
                Marker { is_start, pos: out, id: canon_digits(d) },
            ] + marks_from(y, 0, out) && stripped_from(m + y, 0) == stripped_from(y, 0)
        }),
{
    let m = if is_start {
        seq!['<', '$'] + d + seq!['>']
    } else {
        seq!['<', '/', '$'] + d + seq!['>']
    };
    let s = m + y;
    let h: int = if is_start { 2 } else { 3 };
    assert(m.len() == h + d.len() + 1);
    assert(forall|k: int| 0 <= k < m.len() ==> #[trigger] s[k] == m[k]);
    assert forall|k: int| h <= k < h + d.len() implies is_digit(#[trigger] s[k]) by {
        assert(m[k] == d[k - h]);
    }
    let e = h + d.len();
    assert(m[e] == '>');
    assert(!is_digit('>'));
    lemma_run_exact(s, h, e);
    if is_start {
        assert(s[0] == '<' && s[1] == '$');
        assert(start_at(s, 0));
        assert(s.subrange(2, e) =~= d);
        assert(start_tok_end(s, 0) == m.len());
    } else {
        assert(s[0] == '<' && s[1] == '/' && s[2] == '$');
        assert(!start_at(s, 0)) by {
            if start_at(s, 0) {
                assert(s[1] == '$');
            }
        }
        assert(end_at(s, 0));
        assert(s.subrange(3, e) =~= d);
        assert(end_tok_end(s, 0) == m.len());
    }
    lemma_scan_shift(s, m.len() as int, 0, out);
    assert(s.skip(m.len() as int) =~= y);
}

/// One marker insertion: position in the content, kind, region number.
pub ghost struct Ins {
    pub at: int,
    pub is_start: bool,
    pub id: nat,
}

/// The text of one insertion.
pub open spec fn ins_text(x: Ins) -> Seq<char> {
    marker_text(x.is_start, x.id)
}

/// Content `c` from `from` on, with the markers of `l` inserted at their
/// positions (`l` sorted by position, all within `from..=c.len()`).
pub open spec fn assemble(c: Seq<char>, l: Seq<Ins>, from: int) -> Seq<char>
    decreases l.len(),
{
    if l.len() == 0 {
        c.skip(from)
    } else {
        c.subrange(from, l[0].at) + ins_text(l[0]) + assemble(c, l.drop_first(), l[0].at)
    }
}

/// Insertion positions sorted and within `from..=upto`.
pub open spec fn ins_ok(l: Seq<Ins>, from: int, upto: int) -> bool {
    &&& forall|i: int| 0 <= i < l.len() ==> from <= (#[trigger] l[i]).at <= upto
    &&& forall|i: int, j: int| 0 <= i <= j < l.len() ==> (#[trigger] l[i]).at <= (#[trigger] l[j]).at
}

/// The markers that scanning an assembled text reports: one per insertion,
/// at its content position.
pub open spec fn ins_marks(l: Seq<Ins>, from: int, out: int) -> Seq<Marker>
    decreases l.len(),
{
    if l.len() == 0 {
        Seq::empty()
    } else {
        seq![
            Marker { is_start: l[0].is_start, pos: out + l[0].at - from, id: digits_of(l[0].id) },
        ] + ins_marks(l.drop_first(), l[0].at, out + l[0].at - from)
    }
}

/// Total length of the insertion texts.
pub open spec fn texts_len(l: Seq<Ins>) -> int
    decreases l.len(),
{
    if l.len() == 0 {
        0
    } else {
        ins_text(l[0]).len() + texts_len(l.drop_first())
    }
}

proof fn lemma_marker_text_shape(is_start: bool, id: nat)
    ensures
        ins_text(Ins { at: 0, is_start, id }).len() >= 4,
        marker_text(is_start, id).len() >= 4,
        marker_text(is_start, id)[0] == '<',
{
    lemma_digits_of_shape(id);
}

proof fn lemma_texts_len_nonneg(l: Seq<Ins>)
    ensures
        texts_len(l) >= 0,
    decreases l.len(),
{
    if l.len() > 0 {
        lemma_marker_text_shape(l[0].is_start, l[0].id);
        lemma_texts_len_nonneg(l.drop_first());
    }
}

/// An assembled text is as long as the remaining content plus the inserted
/// markers.
proof fn lemma_assemble_len(c: Seq<char>, l: Seq<Ins>, from: int)
    requires
        0 <= from <= c.len(),
        ins_ok(l, from, c.len() as int),
    ensures
        assemble(c, l, from).len() == (c.len() - from) + texts_len(l),
    decreases l.len(),
{
    if l.len() > 0 {
        assert(forall|i: int|
            0 <= i < l.drop_first().len() ==> #[trigger] l.drop_first()[i] == l[i + 1]);
        lemma_assemble_len(c, l.drop_first(), l[0].at);
    }
}

/// Scanning an assembled text finds exactly the inserted markers and strips
/// back to the content.
pub proof fn lemma_scan_assemble(c: Seq<char>, l: Seq<Ins>, from: int, out: int)
    requires
        marker_free(c),
        0 <= from <= c.len(),
        ins_ok(l, from, c.len() as int),
    ensures
        marks_from(assemble(c, l, from), 0, out) == ins_marks(l, from, out),
        stripped_from(assemble(c, l, from), 0) == c.skip(from),
    decreases l.len(),
{
    if l.len() == 0 {
        assert(c.skip(from) =~= c.subrange(from, c.len() as int));
        lemma_marker_free_within(c, from, c.len() as int);
        lemma_scan_marker_free(c.skip(from), out);
    } else {
        let p0 = l[0].at;
        let seg = c.subrange(from, p0);
        let m = ins_text(l[0]);
        let rest = assemble(c, l.drop_first(), p0);
        assert(forall|i: int|
            0 <= i < l.drop_first().len() ==> #[trigger] l.drop_first()[i] == l[i + 1]);
        lemma_marker_free_within(c, from, p0);
        lemma_digits_of_shape(l[0].id);
        lemma_marker_text_shape(l[0].is_start, l[0].id);
        let y = m + rest;
        assert(y[0] == m[0]);
        assert(assemble(c, l, from) =~= seg + y);
        lemma_scan_literal_prefix(seg, y, out);
        let out1 = out + (p0 - from);
        lemma_scan_marker_head(digits_of(l[0].id), l[0].is_start, rest, out1);
        lemma_canon_digits_of(l[0].id);
        lemma_scan_assemble(c, l.drop_first(), p0, out1);
        assert(marks_from(assemble(c, l, from), 0, out) =~= ins_marks(l, from, out));
        assert(stripped_from(assemble(c, l, from), 0) =~= seg + c.skip(p0));
        assert(seg + c.skip(p0) =~= c.skip(from));
    }
}

/// Splicing past a prefix is splicing into the suffix.
proof fn lemma_splice_concat(a: Seq<char>, b: Seq<char>, n: int, m: Seq<char>)
    requires
        a.len() <= n <= a.len() + b.len(),
    ensures
        splice(a + b, n, m) == a + splice(b, n - a.len(), m),
{
    assert((a + b).take(n) =~= a + b.take(n - a.len()));
    assert((a + b).skip(n) =~= b.skip(n - a.len()));
    assert((a + b.take(n - a.len())) + m + b.skip(n - a.len()) =~= a + (b.take(n - a.len()) + m
        + b.skip(n - a.len())));
}

/// Splicing one more marker after all inserted ones extends the assembly.
proof fn lemma_assemble_snoc(c: Seq<char>, l: Seq<Ins>, from: int, x: Ins)
    requires
        0 <= from <= c.len(),
        ins_ok(l, from, c.len() as int),
        from <= x.at <= c.len(),
        forall|i: int| 0 <= i < l.len() ==> (#[trigger] l[i]).at <= x.at,
    ensures
        splice(assemble(c, l, from), (x.at - from) + texts_len(l), ins_text(x)) == assemble(
            c,
            l.push(x),
            from,
        ),
    decreases l.len(),
{
    lemma_texts_len_nonneg(l);
    if l.len() == 0 {
        assert(l.push(x)[0] == x);
        assert(l.push(x).drop_first() =~= Seq::<Ins>::empty());
        assert(assemble(c, l.push(x).drop_first(), x.at) == c.skip(x.at));
        assert(c.skip(from).take(x.at - from) =~= c.subrange(from, x.at));
        assert(c.skip(from).skip(x.at - from) =~= c.skip(x.at));
        assert(splice(c.skip(from), x.at - from, ins_text(x)) =~= c.subrange(from, x.at)
            + ins_text(x) + c.skip(x.at));
        assert(assemble(c, l.push(x), from) =~= c.subrange(from, x.at) + ins_text(x) + c.skip(
            x.at,
        ));
    } else {
        let p0 = l[0].at;
        let seg = c.subrange(from, p0);
        let m0 = ins_text(l[0]);
        let tail = l.drop_first();
        assert(forall|i: int| 0 <= i < tail.len() ==> #[trigger] tail[i] == l[i + 1]);
        let rest = assemble(c, tail, p0);
        lemma_texts_len_nonneg(tail);
        lemma_assemble_len(c, tail, p0);
        let d = (x.at - from) + texts_len(l);
        let a = seg + m0;
        assert(assemble(c, l, from) =~= a + rest);
        assert(a.len() == (p0 - from) + m0.len());
        assert(texts_len(l) == m0.len() + texts_len(tail));
        assert(d - a.len() == (x.at - p0) + texts_len(tail));
        lemma_splice_concat(a, rest, d, ins_text(x));
        lemma_assemble_snoc(c, tail, p0, x);
        assert(l.push(x)[0] == l[0]);
        assert(l.push(x).drop_first() =~= tail.push(x));
        assert(assemble(c, l.push(x), from) =~= seg + m0 + assemble(c, tail.push(x), p0));
        assert(a + assemble(c, tail.push(x), p0) =~= seg + m0 + assemble(c, tail.push(x), p0));
        assert(splice(assemble(c, l, from), d, ins_text(x)) == a + splice(
            rest,
            d - a.len(),
            ins_text(x),
        ));
    }
}

/// Regions ordered by position, pairwise disjoint, each within content of
/// length `n` and with start not after end.
pub open spec fn canonical_regions(rs: Seq<RegionView>, n: int) -> bool {
    &&& forall|k: int| 0 <= k < rs.len() ==> 0 <= (#[trigger] rs[k]).start <= rs[k].end <= n
    &&& forall|k1: int, k2: int|
        0 <= k1 < k2 < rs.len() ==> (#[trigger] rs[k1]).end <= (#[trigger] rs[k2]).start
}

/// The marker insertions of regions `k` and following: a start marker per
/// region at its start, an end marker at its end for non-carets.
pub open spec fn reg_ins(rs: Seq<RegionView>, k: int) -> Seq<Ins>
    decreases rs.len() - k when k <= rs.len()
{
    if k < 0 || k >= rs.len() {
        Seq::empty()
    } else {
        (if rs[k].is_caret() {
            seq![Ins { at: rs[k].start, is_start: true, id: k as nat }]
        } else {
            seq![
                Ins { at: rs[k].start, is_start: true, id: k as nat },
                Ins { at: rs[k].end, is_start: false, id: k as nat },
            ]
        }) + reg_ins(rs, k + 1)
    }
}

/// The insertions of regions `k` on are sorted, lie between region `k`'s
/// start and the content's end, and carry region numbers at least `k`.
proof fn lemma_reg_ins_props(rs: Seq<RegionView>, n: int, k: int)
    requires
        canonical_regions(rs, n),
        0 <= k <= rs.len(),
    ensures
        ins_ok(reg_ins(rs, k), if k < rs.len() { rs[k].start } else { n }, n),
        forall|i: int| 0 <= i < reg_ins(rs, k).len() ==> (#[trigger] reg_ins(rs, k)[i]).id >= k,
        forall|i1: int, i2: int|
            0 <= i1 < i2 < reg_ins(rs, k).len() && reg_ins(rs, k)[i1].id == reg_ins(rs, k)[i2].id
                ==> (#[trigger] reg_ins(rs, k)[i1]).is_start && !(#[trigger] reg_ins(
                rs,
                k,
            )[i2]).is_start,
    decreases rs.len() - k,
{
    if k < rs.len() {
        lemma_reg_ins_props(rs, n, k + 1);
        let chunk = if rs[k].is_caret() {
            seq![Ins { at: rs[k].start, is_start: true, id: k as nat }]
        } else {
            seq![
                Ins { at: rs[k].start, is_start: true, id: k as nat },
                Ins { at: rs[k].end, is_start: false, id: k as nat },
            ]
        };
        let tail = reg_ins(rs, k + 1);
        let l = reg_ins(rs, k);
        assert(l == chunk + tail);
        assert(forall|i: int| 0 <= i < chunk.len() ==> #[trigger] l[i] == chunk[i]);
        assert(forall|i: int|
            chunk.len() <= i < l.len() ==> #[trigger] l[i] == tail[i - chunk.len()]);
        if k + 1 < rs.len() {
            assert(rs[k].end <= rs[k + 1].start);
        }
    }
}

/// Rendering regions `k` on over an assembly of earlier insertions extends
/// the assembly by those regions' insertions.
proof fn lemma_render_from_assemble(c: Seq<char>, rs: Seq<RegionView>, k: int, pre: Seq<Ins>)
    requires
        canonical_regions(rs, c.len() as int),
        0 <= k <= rs.len(),
        ins_ok(pre, 0, c.len() as int),
        forall|i: int|
            0 <= i < pre.len() ==> (#[trigger] pre[i]).at <= (if k < rs.len() {
                rs[k].start
            } else {
                c.len() as int
            }),
    ensures
        render_from(c, rs, k, assemble(c, pre, 0)) == assemble(c, pre + reg_ins(rs, k), 0),
    decreases rs.len() - k,
{
    if k >= rs.len() {
        assert(pre + reg_ins(rs, k) =~= pre);
    } else {
        let acc = assemble(c, pre, 0);
        lemma_assemble_len(c, pre, 0);
        let sx = Ins { at: rs[k].start, is_start: true, id: k as nat };
        lemma_assemble_snoc(c, pre, 0, sx);
        let pre1 = pre.push(sx);
        assert(forall|i: int| 0 <= i < pre.len() ==> #[trigger] pre1[i] == pre[i]);
        assert(pre1[pre.len() as int] == sx);
        assert(ins_ok(pre1, 0, c.len() as int));
        let acc1 = splice(acc, rs[k].start + acc.len() - c.len(), marker_text(true, k as nat));
        assert(acc1 == assemble(c, pre1, 0));
        let pre2 = if rs[k].is_caret() {
            pre1
        } else {
            pre1.push(Ins { at: rs[k].end, is_start: false, id: k as nat })
        };
        let acc2 = if rs[k].is_caret() {
            acc1
        } else {
            splice(acc1, rs[k].end + acc1.len() - c.len(), marker_text(false, k as nat))
        };
        if !rs[k].is_caret() {
            lemma_assemble_len(c, pre1, 0);
            let ex = Ins { at: rs[k].end, is_start: false, id: k as nat };
            lemma_assemble_snoc(c, pre1, 0, ex);
            assert(forall|i: int| 0 <= i < pre1.len() ==> #[trigger] pre2[i] == pre1[i]);
            assert(pre2[pre1.len() as int] == ex);
            assert(ins_ok(pre2, 0, c.len() as int));
            assert(acc2 == assemble(c, pre2, 0));
        }
        assert forall|i: int|
            0 <= i < pre2.len() implies (#[trigger] pre2[i]).at <= (if k + 1 < rs.len() {
            rs[k + 1].start
        } else {
            c.len() as int
        }) by {
            if k + 1 < rs.len() {
                assert(rs[k].end <= rs[k + 1].start);
            }
        }
        lemma_render_from_assemble(c, rs, k + 1, pre2);
        assert(render_from(c, rs, k, acc) == render_from(c, rs, k + 1, acc2));
        assert(pre + reg_ins(rs, k) =~= pre2 + reg_ins(rs, k + 1));
    }
}

/// No end marker with the given identifier from `j` on means no match.
proof fn lemma_find_end_none(all: Seq<Marker>, id: Seq<char>, j: int)
    requires
        0 <= j <= all.len(),
        forall|i: int|
            j <= i < all.len() ==> ((#[trigger] all[i]).is_start || all[i].id != id),
    ensures
        find_end_from(all, id, j) is None,
    decreases all.len() - j,
{
    if j < all.len() {
        lemma_find_end_none(all, id, j + 1);
    }
}

/// The first end marker with the given identifier is the one found.
proof fn lemma_find_end_first(all: Seq<Marker>, id: Seq<char>, j: int, w: int)
    requires
        0 <= j <= w < all.len(),
        !all[w].is_start,
        all[w].id == id,
        forall|i: int| j <= i < w ==> ((#[trigger] all[i]).is_start || all[i].id != id),
    ensures
        find_end_from(all, id, j) == Some(all[w].pos),
    decreases w - j,
{
    if j < w {
        lemma_find_end_first(all, id, j + 1, w);
    }
}

/// The scan of an assembly, marker by marker.
proof fn lemma_ins_marks_index(l: Seq<Ins>, from: int, out: int)
    ensures
        ins_marks(l, from, out).len() == l.len(),
        forall|i: int|
            0 <= i < l.len() ==> ins_marks(l, from, out)[i] == (Marker {
                is_start: (#[trigger] l[i]).is_start,
                pos: out + l[i].at - from,
                id: digits_of(l[i].id),
            }),
    decreases l.len(),
{
    if l.len() > 0 {
        lemma_ins_marks_index(l.drop_first(), l[0].at, out + l[0].at - from);
        assert forall|i: int|
            0 <= i < l.len() implies ins_marks(l, from, out)[i] == (Marker {
                is_start: (#[trigger] l[i]).is_start,
                pos: out + l[i].at - from,
                id: digits_of(l[i].id),
            }) by {
            if i >= 1 {
                assert(l.drop_first()[i - 1] == l[i]);
                assert(ins_marks(l, from, out)[i] == ins_marks(
                    l.drop_first(),
                    l[0].at,
                    out + l[0].at - from,
                )[i - 1]);
            }
        }
    }
}

/// In text whose markers are all start markers, every region is a caret at
/// its marker's position.
proof fn lemma_regions_upto_all_starts(all: Seq<Marker>, k: int)
    requires
        0 <= k <= all.len(),
        forall|i: int| 0 <= i < all.len() ==> (#[trigger] all[i]).is_start,
    ensures
        regions_upto(all, k).len() == k,
        forall|j: int|
            0 <= j < k ==> regions_upto(all, k)[j] == (RegionView {
                start: (#[trigger] all[j]).pos,
                end: all[j].pos,
            }),
    decreases k,
{
    if k > 0 {
        lemma_regions_upto_all_starts(all, k - 1);
        lemma_find_end_none(all, all[k - 1].id, 0);
        assert(region_for(all, all[k - 1]) == (RegionView {
            start: all[k - 1].pos,
            end: all[k - 1].pos,
        }));
    }
}

/// Text whose markers are all start markers parses to one caret per marker,
/// at the marker's effective position.
pub proof fn lemma_all_starts_give_carets(s: Seq<char>)
    requires
        forall|i: int| 0 <= i < marks(s).len() ==> (#[trigger] marks(s)[i]).is_start,
    ensures
        regions_of(marks(s)).len() == marks(s).len(),
        forall|j: int|
            0 <= j < marks(s).len() ==> regions_of(marks(s))[j] == (RegionView {
                start: (#[trigger] marks(s)[j]).pos,
                end: marks(s)[j].pos,
            }),
{
    lemma_regions_upto_all_starts(marks(s), marks(s).len() as int);
}

/// Inserting a single caret marker `<$0>` into marker-free content scans to
/// exactly that caret, strips back to the content, and rendering the parsed
/// state reproduces the annotated string, character for character.
pub proof fn lemma_single_caret_round_trip(c: Seq<char>, p: int)
    requires
        marker_free(c),
        0 <= p <= c.len(),
    ensures
        ({
            let a = splice(c, p, marker_text(true, 0));
            &&& marks(a) == seq![Marker { is_start: true, pos: p, id: seq!['0'] }]
            &&& !has_dup(marks(a))
            &&& stripped(a) == c
            &&& regions_of(marks(a)) == seq![RegionView { start: p, end: p }]
            &&& render_spec(c, seq![RegionView { start: p, end: p }]) == a
        }),
{
    let x = Ins { at: p, is_start: true, id: 0 };
    let l = seq![x];
    let a = splice(c, p, marker_text(true, 0));
    assert(ins_ok(l, 0, c.len() as int));
    lemma_scan_assemble(c, l, 0, 0);
    assert(l.drop_first() =~= Seq::<Ins>::empty());
    assert(assemble(c, l.drop_first(), p) == c.skip(p));
    assert(c.subrange(0, p) =~= c.take(p));
    assert(assemble(c, l, 0) =~= a);
    assert(ins_marks(l.drop_first(), p, p) == Seq::<Marker>::empty());
    assert(digits_of(0) =~= seq!['0']);
    let t = Marker { is_start: true, pos: p, id: seq!['0'] };
    assert(ins_marks(l, 0, 0) =~= seq![t]);
    assert(marks(a) == seq![t]);
    assert(stripped(a) =~= c);
    assert(!has_dup(marks(a))) by {
        if has_dup(marks(a)) {
            let j = choose|j: int| 0 <= j < marks(a).len() && #[trigger] dup_at(marks(a), j);
            assert(!dup_at(marks(a), 0));
        }
    }
    let rs = seq![RegionView { start: p, end: p }];
    assert(marks(a)[0] == t);
    assert(find_end_from(marks(a), t.id, 1) is None);
    assert(find_end(marks(a), t.id) is None);
    assert(region_for(marks(a), t) == rs[0]);
    assert(regions_upto(marks(a), 0) == Seq::<RegionView>::empty());
    assert(regions_of(marks(a)) =~= rs);
    assert(render_spec(c, rs) == a) by {
        assert(rs[0].is_caret());
        let acc1 = splice(c, rs[0].start + c.len() - c.len(), marker_text(true, 0));
        assert(acc1 == a);
        assert(render_from(c, rs, 1, acc1) == acc1);
        assert(render_from(c, rs, 0, c) == acc1);
    }
}

/// Number of marker tokens of the first `k` regions: one per caret, two per
/// range.
pub open spec fn reg_toklen(rs: Seq<RegionView>, k: int) -> int
    decreases k,
{
    if k <= 0 {
        0
    } else if rs[k - 1].is_caret() {
        reg_toklen(rs, k - 1) + 1
    } else {
        reg_toklen(rs, k - 1) + 2
    }
}

/// The insertions of the first `k` regions are a prefix of all insertions.
proof fn lemma_reg_ins_prefix(rs: Seq<RegionView>, k: int)
    requires
        0 <= k <= rs.len(),
    ensures
        0 <= reg_toklen(rs, k),
        reg_toklen(rs, k) + reg_ins(rs, k).len() == reg_ins(rs, 0).len(),
        forall|i: int|
            0 <= i < reg_ins(rs, k).len() ==> reg_ins(rs, 0)[reg_toklen(rs, k) + i] == #[trigger] reg_ins(
                rs,
                k,
            )[i],
    decreases k,
{
    if k > 0 {
        lemma_reg_ins_prefix(rs, k - 1);
        let ck: int = if rs[k - 1].is_caret() {
            1
        } else {
            2
        };
        assert(reg_ins(rs, k - 1).len() == ck + reg_ins(rs, k).len());
        assert forall|i: int|
            0 <= i < reg_ins(rs, k).len() implies reg_ins(rs, 0)[reg_toklen(rs, k) + i]
            == #[trigger] reg_ins(rs, k)[i] by {
            assert(reg_ins(rs, k - 1)[ck + i] == reg_ins(rs, k)[i]);
            assert(reg_ins(rs, 0)[reg_toklen(rs, k - 1) + (ck + i)] == reg_ins(rs, k - 1)[ck + i]);
        }
    }
}

/// Insertions before the first `k` regions' boundary carry region numbers
/// below `k`.
proof fn lemma_reg_ins_prefix_ids(rs: Seq<RegionView>, k: int)
    requires
        0 <= k <= rs.len(),
    ensures
        forall|i: int|
            0 <= i < reg_toklen(rs, k) ==> (#[trigger] reg_ins(rs, 0)[i]).id < k,
    decreases k,
{
    if k > 0 {
        lemma_reg_ins_prefix_ids(rs, k - 1);
        lemma_reg_ins_prefix(rs, k - 1);
        let t0 = reg_toklen(rs, k - 1);
        let ck: int = if rs[k - 1].is_caret() {
            1
        } else {
            2
        };
        assert(reg_ins(rs, k - 1).len() == ck + reg_ins(rs, k).len()) by {
            lemma_reg_ins_prefix(rs, k);
            lemma_reg_ins_prefix(rs, k - 1);
            assert(reg_toklen(rs, k) == t0 + ck);
        }
        assert forall|i: int|
            0 <= i < reg_toklen(rs, k) implies (#[trigger] reg_ins(rs, 0)[i]).id < k by {
            if i < t0 {
            } else {
                assert(reg_ins(rs, 0)[t0 + (i - t0)] == reg_ins(rs, k - 1)[i - t0]);
                assert(reg_ins(rs, k - 1)[i - t0].id == (k - 1) as nat);
            }
        }
    }
}

/// No marker repeats an identifier on its side in a rendered token list.
proof fn lemma_round_trip_no_dup(rs: Seq<RegionView>, n: int)
    requires
        canonical_regions(rs, n),
    ensures
        forall|j: int|
            0 <= j < ins_marks(reg_ins(rs, 0), 0, 0).len() ==> !(#[trigger] dup_at(
                ins_marks(reg_ins(rs, 0), 0, 0),
                j,
            )),
{
    let l = reg_ins(rs, 0);
    let tt = ins_marks(l, 0, 0);
    lemma_ins_marks_index(l, 0, 0);
    lemma_reg_ins_props(rs, n, 0);
    assert forall|j: int| 0 <= j < tt.len() implies !(#[trigger] dup_at(tt, j)) by {
        if dup_at(tt, j) {
            let i = choose|i: int|
                0 <= i < j && (#[trigger] tt[i]).is_start == tt[j].is_start && tt[i].id
                    == tt[j].id;
            assert(digits_of(l[i].id) == digits_of(l[j].id));
            lemma_digits_of_injective(l[i].id, l[j].id);
            assert(l[i].is_start && !l[j].is_start);
        }
    }
}

/// Parsing back the first `k` regions' tokens rebuilds those regions.
proof fn lemma_round_trip_regions(rs: Seq<RegionView>, n: int, k: int)
    requires
        canonical_regions(rs, n),
        0 <= k <= rs.len(),
    ensures
        regions_upto(ins_marks(reg_ins(rs, 0), 0, 0), reg_toklen(rs, k)) == rs.take(k),
    decreases k,
{
    let l = reg_ins(rs, 0);
    let tt = ins_marks(l, 0, 0);
    lemma_ins_marks_index(l, 0, 0);
    lemma_reg_ins_props(rs, n, 0);
    if k == 0 {
        assert(regions_upto(tt, 0) =~= rs.take(0));
    } else {
        lemma_round_trip_regions(rs, n, k - 1);
        lemma_reg_ins_prefix(rs, k - 1);
        lemma_reg_ins_prefix(rs, k);
        lemma_reg_ins_prefix_ids(rs, k - 1);
        let t0 = reg_toklen(rs, k - 1);
        let ck: int = if rs[k - 1].is_caret() {
            1
        } else {
            2
        };
        assert(reg_toklen(rs, k) == t0 + ck);
        let sx = Ins { at: rs[k - 1].start, is_start: true, id: (k - 1) as nat };
        assert(reg_ins(rs, k - 1)[0] == sx);
        assert(l[t0 + 0] == reg_ins(rs, k - 1)[0]);
        assert(tt[t0] == (Marker {
            is_start: true,
            pos: rs[k - 1].start,
            id: digits_of((k - 1) as nat),
        }));
        let idd = digits_of((k - 1) as nat);
        assert forall|i: int| 0 <= i < t0 implies ((#[trigger] tt[i]).is_start || tt[i].id != idd)
            by {
            assert(tt[i].id == digits_of(l[i].id));
            assert(l[i].id < (k - 1) as nat + 1);
            if tt[i].id == idd {
                lemma_digits_of_injective(l[i].id, (k - 1) as nat);
            }
        }
        if rs[k - 1].is_caret() {
            assert forall|i: int|
                0 <= i < tt.len() implies ((#[trigger] tt[i]).is_start || tt[i].id != idd) by {
                if i == t0 {
                } else if i > t0 {
                    assert(l[t0 + 1 + (i - t0 - 1)] == reg_ins(rs, k)[i - t0 - 1]);
                    lemma_reg_ins_props(rs, n, k);
                    assert(l[i].id >= k);
                    assert(tt[i].id == digits_of(l[i].id));
                    if tt[i].id == idd {
                        lemma_digits_of_injective(l[i].id, (k - 1) as nat);
                    }
                }
            }
            lemma_find_end_none(tt, idd, 0);
            assert(region_for(tt, tt[t0]) == rs[k - 1]);
            assert(regions_upto(tt, t0 + 1) == regions_upto(tt, t0).push(
                region_for(tt, tt[t0]),
            ));
            assert(rs.take(k - 1).push(rs[k - 1]) =~= rs.take(k));
        } else {
            let ex = Ins { at: rs[k - 1].end, is_start: false, id: (k - 1) as nat };
            assert(reg_ins(rs, k - 1)[1] == ex);
            assert(l[t0 + 1] == reg_ins(rs, k - 1)[1]);
            assert(tt[t0 + 1] == (Marker { is_start: false, pos: rs[k - 1].end, id: idd }));
            lemma_find_end_first(tt, idd, 0, t0 + 1);
            assert(region_for(tt, tt[t0]) == rs[k - 1]);
            assert(regions_upto(tt, t0 + 2) == regions_upto(tt, t0 + 1));
            assert(regions_upto(tt, t0 + 1) == regions_upto(tt, t0).push(
                region_for(tt, tt[t0]),
            ));
            assert(rs.take(k - 1).push(rs[k - 1]) =~= rs.take(k));
        }
    }
}

/// Parse inverts render: rendering ordered, disjoint, in-bounds regions over
/// marker-free content gives an annotated string whose scan has no repeated
/// identifier, whose content is the content rendered over, and whose regions are
/// exactly the rendered ones — the renderer's positional numbering
/// notwithstanding.
pub proof fn lemma_parse_render_round_trip(c: Seq<char>, rs: Seq<RegionView>)
    requires
        marker_free(c),
        canonical_regions(rs, c.len() as int),
    ensures
        !has_dup(marks(render_spec(c, rs))),
        stripped(render_spec(c, rs)) == c,
        regions_of(marks(render_spec(c, rs))) == rs,
{
    let l = reg_ins(rs, 0);
    let pre: Seq<Ins> = Seq::empty();
    lemma_reg_ins_props(rs, c.len() as int, 0);
    assert(ins_ok(l, 0, c.len() as int)) by {
        if rs.len() > 0 {
            assert(rs[0].start >= 0);
        }
    }
    lemma_render_from_assemble(c, rs, 0, pre);
    assert(assemble(c, pre, 0) == c.skip(0));
    assert(c.skip(0) =~= c);
    assert(pre + l =~= l);
    assert(render_spec(c, rs) == assemble(c, l, 0));
    lemma_scan_assemble(c, l, 0, 0);
    let tt = ins_marks(l, 0, 0);
    assert(marks(render_spec(c, rs)) == tt);
    assert(stripped(render_spec(c, rs)) == c);
    lemma_round_trip_no_dup(rs, c.len() as int);
    assert(!has_dup(tt)) by {
        if has_dup(tt) {
            let j = choose|j: int| 0 <= j < tt.len() && #[trigger] dup_at(tt, j);
            assert(!dup_at(tt, j));
        }
    }
    lemma_round_trip_regions(rs, c.len() as int, rs.len() as int);
    lemma_reg_ins_prefix(rs, rs.len() as int);
    lemma_ins_marks_index(l, 0, 0);
    assert(reg_ins(rs, rs.len() as int).len() == 0);
    assert(reg_toklen(rs, rs.len() as int) == tt.len());
    assert(regions_of(tt) == regions_upto(tt, tt.len() as int));
    assert(rs.take(rs.len() as int) =~= rs);
}

} // verus!
