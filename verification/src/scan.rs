//! The marker token grammar and the scanner.
//!
//! A start marker is the literal `<$`, one or more ASCII digits and `>`; an
//! end marker is `</$`, one or more digits and `>`.  Everything else is
//! literal content.  The scanner walks the annotated text once, left to
//! right; at each marker it records the marker's kind, its identifier and its
//! effective position — the number of content characters before it, which is
//! the marker's offset in the text with all markers removed — and drops the
//! marker's characters from the content.

use crate::digits::canon_digits;
use crate::digits::is_digit;
use vstd::prelude::*;

verus! {

/// One marker occurrence: kind, effective position in the stripped content,
/// identifier in canonical digit form.
pub ghost struct Marker {
    pub is_start: bool,
    pub pos: int,
    pub id: Seq<char>,
}

/// One past the maximal run of digit characters starting at `i`.
pub open spec fn digit_run_end(s: Seq<char>, i: int) -> int
    decreases s.len() - i when i <= s.len()
{
    if i < 0 || i >= s.len() || !is_digit(s[i]) {
        i
    } else {
        digit_run_end(s, i + 1)
    }
}

/// A start marker `<$`digits`>` begins at `i`.
pub open spec fn start_at(s: Seq<char>, i: int) -> bool {
    let e = digit_run_end(s, i + 2);
    &&& 0 <= i
    &&& i + 1 < s.len()
    &&& s[i] == '<'
    &&& s[i + 1] == '$'
    &&& e > i + 2
    &&& e < s.len()
    &&& s[e] == '>'
}

/// One past the start marker that begins at `i`.
pub open spec fn start_tok_end(s: Seq<char>, i: int) -> int {
    digit_run_end(s, i + 2) + 1
}

/// An end marker `</$`digits`>` begins at `i`.
pub open spec fn end_at(s: Seq<char>, i: int) -> bool {
    let e = digit_run_end(s, i + 3);
    &&& 0 <= i
    &&& i + 2 < s.len()
    &&& s[i] == '<'
    &&& s[i + 1] == '/'
    &&& s[i + 2] == '$'
    &&& e > i + 3
    &&& e < s.len()
    &&& s[e] == '>'
}

/// One past the end marker that begins at `i`.
pub open spec fn end_tok_end(s: Seq<char>, i: int) -> int {
    digit_run_end(s, i + 3) + 1
}

/// The markers of `s` from position `i` on, where `out` content characters
/// lie before `i`.  Effective positions are `out` plus the content characters
/// passed on the way.
pub open spec fn marks_from(s: Seq<char>, i: int, out: int) -> Seq<Marker>
    decreases s.len() - i when i <= s.len()
{
    if i < 0 || i >= s.len() {
        Seq::empty()
    } else if start_at(s, i) {
        seq![
            Marker {
                is_start: true,
                pos: out,
                id: canon_digits(s.subrange(i + 2, digit_run_end(s, i + 2))),
            },
        ] + marks_from(s, start_tok_end(s, i), out)
    } else if end_at(s, i) {
        seq![
            Marker {
                is_start: false,
                pos: out,
                id: canon_digits(s.subrange(i + 3, digit_run_end(s, i + 3))),
            },
        ] + marks_from(s, end_tok_end(s, i), out)
    } else {
        marks_from(s, i + 1, out + 1)
    }
}

/// All markers of the annotated text `s`, in order of appearance.
pub open spec fn marks(s: Seq<char>) -> Seq<Marker> {
    marks_from(s, 0, 0)
}

/// The content of `s` from position `i` on: the characters outside markers.
pub open spec fn stripped_from(s: Seq<char>, i: int) -> Seq<char>
    decreases s.len() - i when i <= s.len()
{
    if i < 0 || i >= s.len() {
        Seq::empty()
    } else if start_at(s, i) {
        stripped_from(s, start_tok_end(s, i))
    } else if end_at(s, i) {
        stripped_from(s, end_tok_end(s, i))
    } else {
        seq![s[i]] + stripped_from(s, i + 1)
    }
}

/// The content of the annotated text `s`: `s` with all markers removed.
pub open spec fn stripped(s: Seq<char>) -> Seq<char> {
    stripped_from(s, 0)
}

/// Every marker's effective position lies between `out` and `out` plus the
/// remaining content length.
pub proof fn lemma_marks_bounds(s: Seq<char>, i: int, out: int)
    requires
        0 <= i <= s.len(),
    ensures
        forall|k: int|
            0 <= k < marks_from(s, i, out).len() ==> out <= (#[trigger] marks_from(s, i, out)[k]).pos
                <= out + stripped_from(s, i).len(),
    decreases s.len() - i,
{
    if i >= s.len() {
    } else if start_at(s, i) {
        lemma_marks_bounds(s, start_tok_end(s, i), out);
        assert(forall|k: int|
            1 <= k < marks_from(s, i, out).len() ==> #[trigger] marks_from(s, i, out)[k]
                == marks_from(s, start_tok_end(s, i), out)[k - 1]);
    } else if end_at(s, i) {
        lemma_marks_bounds(s, end_tok_end(s, i), out);
        assert(forall|k: int|
            1 <= k < marks_from(s, i, out).len() ==> #[trigger] marks_from(s, i, out)[k]
                == marks_from(s, end_tok_end(s, i), out)[k - 1]);
    } else {
        lemma_marks_bounds(s, i + 1, out + 1);
        assert(forall|k: int|
            0 <= k < marks_from(s, i, out).len() ==> marks_from(s, i, out)[k] == marks_from(
                s,
                i + 1,
                out + 1,
            )[k]);
    }
}

/// Markers appear with non-decreasing effective positions.
pub proof fn lemma_marks_sorted(s: Seq<char>, i: int, out: int)
    requires
        0 <= i <= s.len(),
    ensures
        forall|k1: int, k2: int|
            0 <= k1 <= k2 < marks_from(s, i, out).len() ==> (#[trigger] marks_from(s, i, out)[k1]).pos
                <= (#[trigger] marks_from(s, i, out)[k2]).pos,
    decreases s.len() - i,
{
    if i >= s.len() {
    } else if start_at(s, i) {
        lemma_marks_sorted(s, start_tok_end(s, i), out);
        lemma_marks_bounds(s, start_tok_end(s, i), out);
        assert(forall|k: int|
            1 <= k < marks_from(s, i, out).len() ==> #[trigger] marks_from(s, i, out)[k]
                == marks_from(s, start_tok_end(s, i), out)[k - 1]);
    } else if end_at(s, i) {
        lemma_marks_sorted(s, end_tok_end(s, i), out);
        lemma_marks_bounds(s, end_tok_end(s, i), out);
        assert(forall|k: int|
            1 <= k < marks_from(s, i, out).len() ==> #[trigger] marks_from(s, i, out)[k]
                == marks_from(s, end_tok_end(s, i), out)[k - 1]);
    } else {
        lemma_marks_sorted(s, i + 1, out + 1);
        assert(forall|k: int|
            0 <= k < marks_from(s, i, out).len() ==> marks_from(s, i, out)[k] == marks_from(
                s,
                i + 1,
                out + 1,
            )[k]);
    }
}

/// One marker occurrence as the scanner reports it.
pub struct Mark {
    pub is_start: bool,
    pub pos: usize,
    pub id: Vec<char>,
}

impl View for Mark {
    type V = Marker;

    open spec fn view(&self) -> Marker {
        Marker { is_start: self.is_start, pos: self.pos as int, id: self.id@ }
    }
}

/// Exec mirror of `is_digit`.
pub fn is_digit_exec(c: char) -> (r: bool)
    ensures
        r == is_digit(c),
{
    c == '0' || c == '1' || c == '2' || c == '3' || c == '4' || c == '5' || c == '6' || c == '7'
        || c == '8' || c == '9'
}

/// Exec mirror of `digit_run_end`.
fn digit_run(s: &Vec<char>, i: usize) -> (e: usize)
    requires
        i <= s.len(),
    ensures
        e as int == digit_run_end(s@, i as int),
        i <= e <= s.len(),
    decreases s.len() - i,
{
    if i < s.len() && is_digit_exec(s[i]) {
        digit_run(s, i + 1)
    } else {
        i
    }
}

/// If a start marker begins at `i`, one past its end; `None` otherwise.
fn check_start(s: &Vec<char>, i: usize) -> (r: Option<usize>)
    requires
        i <= s.len(),
    ensures
        r is Some <==> start_at(s@, i as int),
        r matches Some(e) ==> {
            &&& e as int == start_tok_end(s@, i as int)
            &&& i + 4 <= e <= s.len()
        },
{
    if s.len() >= 2 && i < s.len() - 1 && s[i] == '<' && s[i + 1] == '$' {
        let e = digit_run(s, i + 2);
        if e > i + 2 && e < s.len() && s[e] == '>' {
            Some(e + 1)
        } else {
            None
        }
    } else {
        None
    }
}

/// If an end marker begins at `i`, one past its end; `None` otherwise.
fn check_end(s: &Vec<char>, i: usize) -> (r: Option<usize>)
    requires
        i <= s.len(),
    ensures
        r is Some <==> end_at(s@, i as int),
        r matches Some(e) ==> {
            &&& e as int == end_tok_end(s@, i as int)
            &&& i + 5 <= e <= s.len()
        },
{
    if s.len() >= 3 && i < s.len() - 2 && s[i] == '<' && s[i + 1] == '/' && s[i + 2] == '$' {
        let e = digit_run(s, i + 3);
        if e > i + 3 && e < s.len() && s[e] == '>' {
            Some(e + 1)
        } else {
            None
        }
    } else {
        None
    }
}

/// The digit substring `s[lo..hi]` in canonical form.
fn extract_id(s: &Vec<char>, lo: usize, hi: usize) -> (r: Vec<char>)
    requires
        lo < hi <= s.len(),
    ensures
        r@ == canon_digits(s@.subrange(lo as int, hi as int)),
{
    let mut j = lo;
    while j + 1 < hi && s[j] == '0'
        invariant
            lo <= j < hi <= s.len(),
            canon_digits(s@.subrange(lo as int, hi as int)) == canon_digits(
                s@.subrange(j as int, hi as int),
            ),
        decreases hi - j,
    {
        proof {
            let cur = s@.subrange(j as int, hi as int);
            assert(cur.len() > 1);
            assert(cur[0] == s@[j as int]);
            assert(cur.subrange(1, cur.len() as int) =~= s@.subrange(j as int + 1, hi as int));
        }
        j = j + 1;
    }
    let mut r: Vec<char> = Vec::new();
    let ghost fin = s@.subrange(j as int, hi as int);
    proof {
        if fin.len() > 1 {
            assert(fin[0] == s@[j as int]);
            assert(fin[0] != '0');
        }
        assert(canon_digits(fin) == fin);
    }
    let mut k = j;
    while k < hi
        invariant
            j <= k <= hi <= s.len(),
            r@ =~= s@.subrange(j as int, k as int),
        decreases hi - k,
    {
        r.push(s[k]);
        proof {
            assert(r@ =~= s@.subrange(j as int, k as int + 1));
        }
        k = k + 1;
    }
    proof {
        assert(r@ =~= fin);
    }
    r
}

/// Scan the annotated text: all markers, with effective positions and
/// canonical identifiers, and the stripped content.
pub fn scan_text(s: &Vec<char>) -> (r: (Vec<Mark>, Vec<char>))
    ensures
        r.0@.map_values(|m: Mark| m@) == marks(s@),
        r.1@ == stripped(s@),
{
    let mut toks: Vec<Mark> = Vec::new();
    let mut content: Vec<char> = Vec::new();
    let mut i: usize = 0;
    proof {
        assert(toks@.map_values(|m: Mark| m@) =~= Seq::<Marker>::empty());
    }
    while i < s.len()
        invariant
            i <= s.len(),
            marks(s@) == toks@.map_values(|m: Mark| m@) + marks_from(
                s@,
                i as int,
                content@.len() as int,
            ),
            stripped(s@) == content@ + stripped_from(s@, i as int),
        decreases s.len() - i,
    {
        let ghost prev_toks = toks@.map_values(|m: Mark| m@);
        let ghost out = content@.len() as int;
        if let Some(e) = check_start(s, i) {
            let id = extract_id(s, i + 2, e - 1);
            let m = Mark { is_start: true, pos: content.len(), id };
            proof {
                assert(e as int - 1 == digit_run_end(s@, i as int + 2));
                assert(m@ == marks_from(s@, i as int, out)[0]);
            }
            toks.push(m);
            proof {
                assert(toks@.map_values(|m: Mark| m@) =~= prev_toks.push(m@));
                assert(prev_toks + marks_from(s@, i as int, out) =~= prev_toks.push(m@)
                    + marks_from(s@, e as int, out));
            }
            i = e;
        } else if let Some(e) = check_end(s, i) {
            let id = extract_id(s, i + 3, e - 1);
            let m = Mark { is_start: false, pos: content.len(), id };
            proof {
                assert(e as int - 1 == digit_run_end(s@, i as int + 3));
                assert(m@ == marks_from(s@, i as int, out)[0]);
            }
            toks.push(m);
            proof {
                assert(toks@.map_values(|m: Mark| m@) =~= prev_toks.push(m@));
                assert(prev_toks + marks_from(s@, i as int, out) =~= prev_toks.push(m@)
                    + marks_from(s@, e as int, out));
            }
            i = e;
        } else {
            content.push(s[i]);
            proof {
                assert(content@ + stripped_from(s@, i as int + 1) =~= content@.subrange(
                    0,
                    out,
                ) + stripped_from(s@, i as int));
                assert(content@.subrange(0, out) + stripped_from(s@, i as int) =~= content@
                    .subrange(0, out) + (seq![s@[i as int]] + stripped_from(s@, i as int + 1)));
            }
            i = i + 1;
        }
    }
    proof {
        assert(marks_from(s@, i as int, content@.len() as int) =~= Seq::<Marker>::empty());
        assert(stripped_from(s@, i as int) =~= Seq::<char>::empty());
        assert(toks@.map_values(|m: Mark| m@) + Seq::<Marker>::empty() =~= toks@.map_values(
            |m: Mark| m@,
        ));
        assert(content@ + Seq::<char>::empty() =~= content@);
    }
    (toks, content)
}

} // verus!
