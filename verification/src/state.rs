//! The parsed editor state and its conversions.
//!
//! `TestState::parse` turns an annotated string into plain content plus a
//! selection: one region per start-marker identifier, a range when a matching
//! end marker exists, a caret otherwise; end markers without a matching start
//! are ignored, and a duplicated identifier on either side is a fatal input
//! error.  `render` is the inverse direction: it re-inserts markers into the
//! content, numbering regions 0, 1, 2, … by their rank in the selection.

use crate::digits::digits_of;
use crate::digits::push_digits;
use crate::region::RegionView;
use crate::region::SelRegion;
use crate::region::Selection;
use crate::region::lemma_insert_pos_append;
use crate::region::regions_sorted;
use crate::scan::Mark;
use crate::scan::Marker;
use crate::scan::lemma_marks_bounds;
use crate::scan::lemma_marks_sorted;
use crate::scan::marks;
use crate::scan::scan_text;
use crate::scan::stripped;
use vstd::prelude::*;
use vstd::string::StrSliceExecFns;

verus! {

/// The marker at index `j` repeats the identifier of an earlier marker of
/// the same kind.
pub open spec fn dup_at(ms: Seq<Marker>, j: int) -> bool {
    exists|i: int|
        0 <= i < j && (#[trigger] ms[i]).is_start == ms[j].is_start && ms[i].id == ms[j].id
}

/// Some marker repeats the identifier of an earlier marker of its kind.
pub open spec fn has_dup(ms: Seq<Marker>) -> bool {
    exists|j: int| 0 <= j < ms.len() && #[trigger] dup_at(ms, j)
}

/// The first repeated marker is a start marker.
pub open spec fn first_dup_is_start(ms: Seq<Marker>) -> bool {
    exists|j: int|
        {
            &&& 0 <= j < ms.len()
            &&& #[trigger] dup_at(ms, j)
            &&& ms[j].is_start
            &&& forall|i: int| 0 <= i < j ==> !dup_at(ms, i)
        }
}

/// Effective position of the first end marker with identifier `id` at or
/// after index `j`, if any.
pub open spec fn find_end_from(ms: Seq<Marker>, id: Seq<char>, j: int) -> Option<int>
    decreases ms.len() - j when j <= ms.len()
{
    if j < 0 || j >= ms.len() {
        None
    } else if !ms[j].is_start && ms[j].id == id {
        Some(ms[j].pos)
    } else {
        find_end_from(ms, id, j + 1)
    }
}

/// Effective position of the first end marker with identifier `id`.
pub open spec fn find_end(ms: Seq<Marker>, id: Seq<char>) -> Option<int> {
    find_end_from(ms, id, 0)
}

/// The region contributed by the start marker `m`: a range to the matching
/// end marker's position, or a caret at `m`'s own position.
pub open spec fn region_for(all: Seq<Marker>, m: Marker) -> RegionView {
    match find_end(all, m.id) {
        Some(e) => RegionView { start: m.pos, end: e },
        None => RegionView { start: m.pos, end: m.pos },
    }
}

/// Regions contributed by the first `k` markers, in order of appearance of
/// their start markers.
pub open spec fn regions_upto(all: Seq<Marker>, k: int) -> Seq<RegionView>
    decreases k,
{
    if k <= 0 {
        Seq::empty()
    } else if all[k - 1].is_start {
        regions_upto(all, k - 1).push(region_for(all, all[k - 1]))
    } else {
        regions_upto(all, k - 1)
    }
}

/// The regions of a marker list: one per start marker.
pub open spec fn regions_of(all: Seq<Marker>) -> Seq<RegionView> {
    regions_upto(all, all.len() as int)
}

/// The annotated text for one region numbered `id`: `<$id>`, or `</$id>` for
/// the end side.
pub open spec fn marker_text(is_start: bool, id: nat) -> Seq<char> {
    if is_start {
        seq!['<', '$'] + digits_of(id) + seq!['>']
    } else {
        seq!['<', '/', '$'] + digits_of(id) + seq!['>']
    }
}

/// `s` with `m` inserted at position `p`.
pub open spec fn splice(s: Seq<char>, p: int, m: Seq<char>) -> Seq<char> {
    s.take(p) + m + s.skip(p)
}

/// Rendering of regions `k` and following onto `acc`, where `acc` is the
/// content with the markers of the first `k` regions already inserted.  Each
/// marker goes at its region offset plus the number of characters inserted so
/// far; the start marker of a region is inserted before its end marker, and
/// carets get no end marker.
pub open spec fn render_from(c: Seq<char>, rs: Seq<RegionView>, k: int, acc: Seq<char>) -> Seq<char>
    decreases rs.len() - k when k <= rs.len()
{
    if k < 0 || k >= rs.len() {
        acc
    } else {
        let acc1 = splice(acc, rs[k].start + acc.len() - c.len(), marker_text(true, k as nat));
        let acc2 = if rs[k].is_caret() {
            acc1
        } else {
            splice(acc1, rs[k].end + acc1.len() - c.len(), marker_text(false, k as nat))
        };
        render_from(c, rs, k + 1, acc2)
    }
}

/// The annotated string for content `c` and regions `rs`.
pub open spec fn render_spec(c: Seq<char>, rs: Seq<RegionView>) -> Seq<char> {
    render_from(c, rs, 0, c)
}

/// The fatal parse error: a marker identifier used twice on one side.
#[derive(Clone, Copy, Debug, PartialEq, Eq, Structural)]
pub enum ParseError {
    /// Two start markers share an identifier.
    DuplicateStart,
    /// Two end markers share an identifier.
    DuplicateEnd,
}

/// A parsed editor state: plain content and the selection described by the
/// markers.
#[derive(Debug, PartialEq)]
pub struct TestState {
    pub contents: String,
    pub selection: Selection,
}

impl TestState {
    /// Well-formed states: regions sorted by start and offsets within the
    /// content.
    pub open spec fn wf(&self) -> bool {
        &&& regions_sorted(self.selection@)
        &&& forall|k: int|
            0 <= k < self.selection@.len() ==> 0 <= (#[trigger] self.selection@[k]).start
                <= self.contents@.len() && 0 <= self.selection@[k].end <= self.contents@.len()
    }
}

/// The characters of a string slice.
fn str_chars(s: &str) -> (v: Vec<char>)
    ensures
        v@ == s@,
{
    let n = s.unicode_len();
    let mut v: Vec<char> = Vec::new();
    let mut i: usize = 0;
    while i < n
        invariant
            i <= n,
            n == s@.len(),
            v@ =~= s@.take(i as int),
        decreases n - i,
    {
        v.push(s.get_char(i));
        proof {
            assert(v@ =~= s@.take(i as int + 1));
        }
        i = i + 1;
    }
    proof {
        assert(s@.take(n as int) =~= s@);
    }
    v
}

/// Relies on `String::push`: appends exactly the given character.
#[verifier::external_body]
fn push_char(s: &mut String, c: char)
    ensures
        final(s)@ == old(s)@.push(c),
{
    s.push(c);
}

/// A string with exactly the given characters.
fn chars_to_string(v: &Vec<char>) -> (s: String)
    ensures
        s@ == v@,
{
    let mut s = String::new();
    let mut i: usize = 0;
    while i < v.len()
        invariant
            i <= v.len(),
            s@ =~= v@.take(i as int),
        decreases v.len() - i,
    {
        push_char(&mut s, v[i]);
        proof {
            assert(s@ =~= v@.take(i as int + 1));
        }
        i = i + 1;
    }
    proof {
        assert(v@.take(v.len() as int) =~= v@);
    }
    s
}

/// Character-wise equality of two vectors.
fn chars_eq(a: &Vec<char>, b: &Vec<char>) -> (r: bool)
    ensures
        r == (a@ == b@),
{
    if a.len() != b.len() {
        proof {
            assert(a@ != b@);
        }
        return false;
    }
    let mut i: usize = 0;
    while i < a.len()
        invariant
            i <= a.len(),
            a@.len() == b@.len(),
            forall|j: int| 0 <= j < i ==> a@[j] == b@[j],
        decreases a.len() - i,
    {
        if a[i] != b[i] {
            proof {
                assert(a@[i as int] != b@[i as int]);
            }
            return false;
        }
        i = i + 1;
    }
    proof {
        assert(a@ =~= b@);
    }
    true
}

impl TestState {
    /// Parse an annotated string: strip the markers, record one region per
    /// start-marker identifier.  Fails exactly when an identifier appears
    /// twice among the start markers or twice among the end markers, naming
    /// the side of the first repetition.
    pub fn parse(initial: &str) -> (r: Result<TestState, ParseError>)
        ensures
            (r is Err) == has_dup(marks(initial@)),
            (r == Err::<TestState, ParseError>(ParseError::DuplicateStart)) == first_dup_is_start(
                marks(initial@),
            ),
            r matches Ok(st) ==> {
                &&& st.contents@ == stripped(initial@)
                &&& st.selection@ == regions_of(marks(initial@))
                &&& st.wf()
            },
    {
        let chars = str_chars(initial);
        let (toks, content) = scan_text(&chars);
        let ghost all = marks(initial@);
        proof {
            assert(toks@.map_values(|m: Mark| m@) == all);
            assert(toks@.len() == all.len());
            assert(forall|k: int| 0 <= k < toks@.len() ==> (#[trigger] toks@[k])@ == all[k]);
            lemma_marks_bounds(initial@, 0, 0);
            lemma_marks_sorted(initial@, 0, 0);
        }
        // Reject a repeated identifier on either side.
        let mut k: usize = 0;
        while k < toks.len()
            invariant
                all == marks(initial@),
                k <= toks.len(),
                toks@.len() == all.len(),
                forall|j: int| 0 <= j < toks@.len() ==> (#[trigger] toks@[j])@ == all[j],
                forall|j: int| 0 <= j < k ==> !(#[trigger] dup_at(all, j)),
            decreases toks.len() - k,
        {
            let mut j: usize = 0;
            while j < k
                invariant
                    all == marks(initial@),
                    j <= k < toks.len(),
                    toks@.len() == all.len(),
                    forall|i: int| 0 <= i < toks@.len() ==> (#[trigger] toks@[i])@ == all[i],
                    forall|i: int| 0 <= i < k ==> !(#[trigger] dup_at(all, i)),
                    forall|i: int|
                        0 <= i < j ==> !((#[trigger] all[i]).is_start == all[k as int].is_start
                            && all[i].id == all[k as int].id),
                decreases k - j,
            {
                if toks[j].is_start == toks[k].is_start && chars_eq(&toks[j].id, &toks[k].id) {
                    proof {
                        assert(all[j as int].is_start == all[k as int].is_start && all[j as int].id
                            == all[k as int].id);
                        assert(dup_at(all, k as int));
                        assert(has_dup(all));
                    }
                    if toks[k].is_start {
                        proof {
                            assert(first_dup_is_start(all));
                        }
                        return Err(ParseError::DuplicateStart);
                    } else {
                        proof {
                            assert(!first_dup_is_start(all)) by {
                                if first_dup_is_start(all) {
                                    let w = choose|w: int|
                                        {
                                            &&& 0 <= w < all.len()
                                            &&& #[trigger] dup_at(all, w)
                                            &&& all[w].is_start
                                            &&& forall|i: int| 0 <= i < w ==> !dup_at(all, i)
                                        };
                                    if w < k as int {
                                        assert(!dup_at(all, w));
                                    } else if w > k as int {
                                        assert(!dup_at(all, k as int));
                                    }
                                }
                            }
                        }
                        return Err(ParseError::DuplicateEnd);
                    }
                }
                j = j + 1;
            }
            proof {
                assert(!dup_at(all, k as int));
            }
            k = k + 1;
        }
        proof {
            assert(!has_dup(all));
            assert(!first_dup_is_start(all)) by {
                if first_dup_is_start(all) {
                    let w = choose|w: int|
                        {
                            &&& 0 <= w < all.len()
                            &&& #[trigger] dup_at(all, w)
                            &&& all[w].is_start
                            &&& forall|i: int| 0 <= i < w ==> !dup_at(all, i)
                        };
                    assert(!dup_at(all, w));
                }
            }
        }
        // Build one region per start marker, in order of appearance.
        let mut selection = Selection::new();
        let mut k: usize = 0;
        while k < toks.len()
            invariant
                k <= toks.len(),
                toks@.len() == all.len(),
                forall|j: int| 0 <= j < toks@.len() ==> (#[trigger] toks@[j])@ == all[j],
                forall|k1: int, k2: int|
                    0 <= k1 <= k2 < all.len() ==> (#[trigger] all[k1]).pos <= (
                    #[trigger] all[k2]).pos,
                forall|j: int|
                    0 <= j < all.len() ==> 0 <= (#[trigger] all[j]).pos <= stripped(
                        initial@,
                    ).len(),
                selection@ == regions_upto(all, k as int),
                regions_sorted(selection@),
                forall|j: int|
                    0 <= j < selection@.len() ==> 0 <= (#[trigger] selection@[j]).start <= stripped(
                        initial@,
                    ).len() && 0 <= selection@[j].end <= stripped(initial@).len(),
            decreases toks.len() - k,
        {
            if toks[k].is_start {
                // Look up the first matching end marker.
                let mut e: Option<usize> = None;
                let mut j: usize = 0;
                while j < toks.len() && e.is_none()
                    invariant
                        j <= toks.len(),
                        k < toks.len(),
                        toks@.len() == all.len(),
                        forall|i: int| 0 <= i < toks@.len() ==> (#[trigger] toks@[i])@ == all[i],
                        e is None ==> find_end(all, all[k as int].id) == find_end_from(
                            all,
                            all[k as int].id,
                            j as int,
                        ),
                        e matches Some(p) ==> find_end(all, all[k as int].id) == Some(p as int),
                    decreases toks.len() - j,
                {
                    if !toks[j].is_start && chars_eq(&toks[j].id, &toks[k].id) {
                        proof {
                            assert(find_end_from(all, all[k as int].id, j as int) == Some(
                                all[j as int].pos,
                            ));
                        }
                        e = Some(toks[j].pos);
                    }
                    j = j + 1;
                }
                let start_pos = toks[k].pos;
                let region = match e {
                    Some(epos) => SelRegion::new(start_pos, epos),
                    None => SelRegion::caret(start_pos),
                };
                proof {
                    if e is None {
                        assert(find_end(all, all[k as int].id) is None);
                    }
                    assert(region@ == region_for(all, all[k as int]));
                    assert(forall|i: int|
                        0 <= i < selection@.len() ==> (#[trigger] selection@[i]).start
                            <= region@.start) by {
                        lemma_regions_upto_start_bound(all, k as int, all[k as int].pos);
                    }
                    lemma_insert_pos_append(selection@, region@);
                    if find_end(all, all[k as int].id) matches Some(p) {
                        lemma_find_end_pos(all, all[k as int].id, 0);
                    }
                }
                let ghost before = selection@;
                selection.add_region(region);
                proof {
                    assert(selection@ == before.push(region@));
                    assert(selection@ == regions_upto(all, k as int + 1));
                }
            } else {
                proof {
                    assert(regions_upto(all, k as int + 1) == regions_upto(all, k as int));
                }
            }
            k = k + 1;
        }
        let contents = chars_to_string(&content);
        let st = TestState { contents, selection };
        proof {
            assert(st.selection@ == regions_of(all));
            assert(st.wf());
        }
        Ok(st)
    }
}

/// The marker characters `<$id>` or `</$id>`.
fn marker_chars(is_start: bool, id: usize) -> (m: Vec<char>)
    ensures
        m@ == marker_text(is_start, id as nat),
{
    let mut m: Vec<char> = Vec::new();
    m.push('<');
    if !is_start {
        m.push('/');
    }
    m.push('$');
    push_digits(&mut m, id);
    m.push('>');
    proof {
        assert(m@ =~= marker_text(is_start, id as nat));
    }
    m
}

/// Insert the characters of `m` into `out` at position `p`.
fn insert_chars(out: &mut Vec<char>, p: usize, m: &Vec<char>)
    requires
        p <= old(out).len(),
    ensures
        final(out)@ == splice(old(out)@, p as int, m@),
{
    let ghost orig = out@;
    let mut j: usize = 0;
    proof {
        assert(orig.take(p as int) + m@.take(0) + orig.skip(p as int) =~= orig);
    }
    while j < m.len()
        invariant
            j <= m.len(),
            p <= orig.len(),
            out@.len() == orig.len() + j,
            p + j <= out@.len(),
            out@ == orig.take(p as int) + m@.take(j as int) + orig.skip(p as int),
        decreases m.len() - j,
    {
        let cur = out.len();
        proof {
            assert(p + j <= cur);
        }
        out.insert(p + j, m[j]);
        proof {
            assert(out@ =~= orig.take(p as int) + m@.take(j as int + 1) + orig.skip(p as int));
        }
        j = j + 1;
    }
    proof {
        assert(m@.take(m.len() as int) =~= m@);
    }
}

impl TestState {
    /// The annotated characters for this state.
    fn render_chars(&self) -> (r: Vec<char>)
        requires
            self.wf(),
        ensures
            r@ == render_spec(self.contents@, self.selection@),
    {
        let ghost c = self.contents@;
        let ghost rs = self.selection@;
        let mut out = str_chars(self.contents.as_str());
        let clen = out.len();
        let regions = self.selection.regions();
        proof {
            assert(forall|i: int|
                0 <= i < regions@.len() ==> (#[trigger] regions@[i])@ == rs[i]);
        }
        let mut k: usize = 0;
        while k < regions.len()
            invariant
                k <= regions.len(),
                regions@.len() == rs.len(),
                forall|i: int| 0 <= i < regions@.len() ==> (#[trigger] regions@[i])@ == rs[i],
                forall|i: int|
                    0 <= i < rs.len() ==> 0 <= (#[trigger] rs[i]).start <= clen && 0 <= rs[i].end
                        <= clen,
                clen == c.len(),
                out@.len() >= clen,
                render_spec(c, rs) == render_from(c, rs, k as int, out@),
            decreases regions.len() - k,
        {
            let ghost acc = out@;
            let region = regions[k];
            proof {
                assert(region@ == rs[k as int]);
            }
            let ins = out.len() - clen;
            let sm = marker_chars(true, k);
            let rstart = region.start();
            proof {
                assert(rstart as int + ins as int <= out@.len());
            }
            let p = rstart + ins;
            insert_chars(&mut out, p, &sm);
            let ghost acc1 = out@;
            if !region.is_caret() {
                let ins2 = out.len() - clen;
                let em = marker_chars(false, k);
                let rend = region.end();
                proof {
                    assert(rend as int + ins2 as int <= out@.len());
                }
                let p2 = rend + ins2;
                insert_chars(&mut out, p2, &em);
            }
            proof {
                assert(render_from(c, rs, k as int, acc) == render_from(c, rs, k as int + 1, out@));
            }
            k = k + 1;
        }
        out
    }

    /// The annotated string for this state.
    pub fn render(&self) -> (r: String)
        requires
            self.wf(),
        ensures
            r@ == render_spec(self.contents@, self.selection@),
    {
        let v = self.render_chars();
        chars_to_string(&v)
    }

    /// Whether rendering this state yields exactly the given literal: the
    /// structural-equality check used by fixture assertions.
    pub fn eq_str(&self, other: &str) -> (r: bool)
        requires
            self.wf(),
        ensures
            r == (render_spec(self.contents@, self.selection@) == other@),
    {
        let v = self.render_chars();
        let o = str_chars(other);
        chars_eq(&v, &o)
    }
}

/// A found end marker's position is some end marker's position.
proof fn lemma_find_end_pos(all: Seq<Marker>, id: Seq<char>, j: int)
    requires
        0 <= j <= all.len(),
        find_end_from(all, id, j) is Some,
    ensures
        exists|i: int|
            j <= i < all.len() && !(#[trigger] all[i]).is_start && all[i].id == id && Some(
                all[i].pos,
            ) == find_end_from(all, id, j),
    decreases all.len() - j,
{
    if j < all.len() && !(!all[j].is_start && all[j].id == id) {
        lemma_find_end_pos(all, id, j + 1);
    }
}

/// Every region contributed by the first `k` markers starts at or before
/// `p`, provided those markers all lie at or before `p`.
proof fn lemma_regions_upto_start_bound(all: Seq<Marker>, k: int, p: int)
    requires
        0 <= k <= all.len(),
        forall|i: int| 0 <= i < k ==> (#[trigger] all[i]).pos <= p,
    ensures
        forall|j: int|
            0 <= j < regions_upto(all, k).len() ==> (#[trigger] regions_upto(all, k)[j]).start
                <= p,
    decreases k,
{
    if k > 0 {
        lemma_regions_upto_start_bound(all, k - 1, p);
        if all[k - 1].is_start {
            assert(regions_upto(all, k) == regions_upto(all, k - 1).push(
                region_for(all, all[k - 1]),
            ));
            assert(region_for(all, all[k - 1]).start == all[k - 1].pos);
        }
    }
}

} // verus!
