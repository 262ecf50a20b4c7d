//! Selection regions: carets and ranges over parsed content.
//!
//! A `SelRegion` is one selection extent, a pair of code-point offsets into
//! the content; it is a caret when the two offsets coincide.  A `Selection`
//! is the ordered collection of all regions of a document snapshot; it keeps
//! its regions sorted by start offset, inserting a new region after every
//! region whose start is not greater.

use vstd::prelude::*;

verus! {

/// Mathematical model of one region: a start and an end offset.
pub ghost struct RegionView {
    pub start: int,
    pub end: int,
}

impl RegionView {
    /// A region is a caret when it spans no content.
    pub open spec fn is_caret(self) -> bool {
        self.start == self.end
    }
}

/// One selection extent: a caret (zero-width) or a range.
#[derive(Clone, Copy, Debug, PartialEq, Eq)]
pub struct SelRegion {
    start: usize,
    end: usize,
}

impl View for SelRegion {
    type V = RegionView;

    closed spec fn view(&self) -> RegionView {
        RegionView { start: self.start as int, end: self.end as int }
    }
}

impl SelRegion {
    /// A region from `start` to `end`.
    pub fn new(start: usize, end: usize) -> (r: SelRegion)
        ensures
            r@ == (RegionView { start: start as int, end: end as int }),
    {
        SelRegion { start, end }
    }

    /// A caret at `offset`.
    pub fn caret(offset: usize) -> (r: SelRegion)
        ensures
            r@ == (RegionView { start: offset as int, end: offset as int }),
    {
        SelRegion { start: offset, end: offset }
    }

    /// Start offset of the region.
    pub fn start(&self) -> (r: usize)
        ensures
            r as int == self@.start,
    {
        self.start
    }

    /// End offset of the region.
    pub fn end(&self) -> (r: usize)
        ensures
            r as int == self@.end,
    {
        self.end
    }

    /// Whether the region is a caret.
    pub fn is_caret(&self) -> (r: bool)
        ensures
            r == self@.is_caret(),
    {
        self.start == self.end
    }
}

/// Regions ordered by non-decreasing start offset.
pub open spec fn regions_sorted(s: Seq<RegionView>) -> bool {
    forall|i: int, j: int| 0 <= i <= j < s.len() ==> s[i].start <= s[j].start
}

/// Index at which a new region with start `r.start` is inserted into `s`:
/// after every region whose start is not greater.
pub open spec fn insert_pos(s: Seq<RegionView>, r: RegionView) -> int
    decreases s.len(),
{
    if s.len() == 0 {
        0
    } else if s[0].start <= r.start {
        1 + insert_pos(s.drop_first(), r)
    } else {
        0
    }
}

pub proof fn lemma_insert_pos_in_range(s: Seq<RegionView>, r: RegionView)
    ensures
        0 <= insert_pos(s, r) <= s.len(),
    decreases s.len(),
{
    if s.len() > 0 && s[0].start <= r.start {
        lemma_insert_pos_in_range(s.drop_first(), r);
    }
}

/// When every region of `s` starts no later than `r`, the insertion point is
/// the end of `s` and insertion is an append.
pub proof fn lemma_insert_pos_append(s: Seq<RegionView>, r: RegionView)
    requires
        forall|i: int| 0 <= i < s.len() ==> (#[trigger] s[i]).start <= r.start,
    ensures
        insert_pos(s, r) == s.len(),
        s.insert(s.len() as int, r) == s.push(r),
    decreases s.len(),
{
    if s.len() > 0 {
        assert(s[0].start <= r.start);
        assert(forall|i: int|
            0 <= i < s.drop_first().len() ==> (#[trigger] s.drop_first()[i]).start <= r.start)
            by {
            assert(forall|i: int|
                0 <= i < s.drop_first().len() ==> s.drop_first()[i] == s[i + 1]);
        }
        lemma_insert_pos_append(s.drop_first(), r);
    }
    assert(s.insert(s.len() as int, r) =~= s.push(r));
}

/// Sorted order is preserved by inserting at the insertion point.
pub proof fn lemma_insert_keeps_sorted(s: Seq<RegionView>, r: RegionView)
    requires
        regions_sorted(s),
    ensures
        regions_sorted(s.insert(insert_pos(s, r), r)),
    decreases s.len(),
{
    lemma_insert_pos_in_range(s, r);
    let p = insert_pos(s, r);
    let t = s.insert(p, r);
    assert forall|i: int, j: int| 0 <= i <= j < t.len() implies t[i].start <= t[j].start by {
        lemma_insert_pos_before_after(s, r);
        if i < p {
            assert(t[i] == s[i]);
        } else if i == p {
            assert(t[i] == r);
        } else {
            assert(t[i] == s[i - 1]);
        }
        if j < p {
            assert(t[j] == s[j]);
        } else if j == p {
            assert(t[j] == r);
        } else {
            assert(t[j] == s[j - 1]);
            if p < j {
                assert(s[p].start > r.start ==> r.start <= s[j - 1].start);
            }
        }
    }
}

/// Regions before the insertion point start no later than the new region;
/// the region at the insertion point, if any, starts strictly later.
pub proof fn lemma_insert_pos_before_after(s: Seq<RegionView>, r: RegionView)
    ensures
        forall|i: int| 0 <= i < insert_pos(s, r) ==> (#[trigger] s[i]).start <= r.start,
        insert_pos(s, r) < s.len() ==> s[insert_pos(s, r)].start > r.start,
    decreases s.len(),
{
    lemma_insert_pos_in_range(s, r);
    let p = insert_pos(s, r);
    if s.len() > 0 && s[0].start <= r.start {
        lemma_insert_pos_before_after(s.drop_first(), r);
        assert forall|i: int| 0 <= i < p implies (#[trigger] s[i]).start <= r.start by {
            if i > 0 {
                assert(s.drop_first()[i - 1] == s[i]);
            }
        }
        assert(p == 1 + insert_pos(s.drop_first(), r));
        lemma_insert_pos_in_range(s.drop_first(), r);
        if p < s.len() {
            assert(s.drop_first()[p - 1] == s[p]);
        }
    }
}

/// The ordered collection of selection regions.
#[derive(Debug, PartialEq, Eq)]
pub struct Selection {
    regions: Vec<SelRegion>,
}

impl View for Selection {
    type V = Seq<RegionView>;

    closed spec fn view(&self) -> Seq<RegionView> {
        self.regions@.map_values(|r: SelRegion| r@)
    }
}

impl Selection {
    /// The empty selection.
    pub fn new() -> (r: Selection)
        ensures
            r@ == Seq::<RegionView>::empty(),
            regions_sorted(r@),
    {
        let r = Selection { regions: Vec::new() };
        proof {
            assert(r@ =~= Seq::<RegionView>::empty());
        }
        r
    }

    /// Number of regions.
    pub fn len(&self) -> (r: usize)
        ensures
            r == self@.len(),
    {
        self.regions.len()
    }

    /// The regions, in collection order.
    pub fn regions(&self) -> (r: &Vec<SelRegion>)
        ensures
            r@.map_values(|x: SelRegion| x@) == self@,
            r@.len() == self@.len(),
    {
        &self.regions
    }

    /// Add a region, keeping regions sorted by start offset; among equal
    /// starts the new region comes last.
    pub fn add_region(&mut self, region: SelRegion)
        ensures
            final(self)@ == old(self)@.insert(insert_pos(old(self)@, region@), region@),
            regions_sorted(old(self)@) ==> regions_sorted(final(self)@),
    {
        proof {
            lemma_insert_pos_in_range(old(self)@, region@);
            if regions_sorted(old(self)@) {
                lemma_insert_keeps_sorted(old(self)@, region@);
            }
        }
        let ghost orig = self@;
        proof {
            assert(orig.skip(0) =~= orig);
        }
        let mut k: usize = 0;
        while k < self.regions.len() && self.regions[k].start <= region.start
            invariant
                0 <= k <= self.regions.len(),
                self@ == orig,
                self.regions@.map_values(|r: SelRegion| r@) == orig,
                insert_pos(orig, region@) == k + insert_pos(orig.skip(k as int), region@),
            decreases self.regions.len() - k,
        {
            proof {
                let tail = orig.skip(k as int);
                assert(tail[0] == orig[k as int]);
                assert(orig[k as int] == self.regions@[k as int]@);
                assert(tail[0].start <= region@.start);
                assert(tail.drop_first() =~= orig.skip(k as int + 1));
            }
            k = k + 1;
        }
        proof {
            let tail = orig.skip(k as int);
            if k < self.regions.len() {
                assert(tail[0] == self.regions@[k as int]@);
                assert(!(tail[0].start <= region@.start));
                assert(insert_pos(tail, region@) == 0);
            } else {
                assert(tail =~= Seq::<RegionView>::empty());
                assert(insert_pos(tail, region@) == 0);
            }
            assert(insert_pos(orig, region@) == k as int);
        }
        self.regions.insert(k, region);
        proof {
            assert(self@ =~= orig.insert(k as int, region@));
        }
    }
}

} // verus!
