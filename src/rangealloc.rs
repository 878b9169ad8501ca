//! A best-fit allocator of sub-ranges of one integer range, which merges
//! adjacent free ranges when they are given back.
use core::ops::Range;
use vstd::prelude::*;
use vstd::seq_lib::to_multiset_contains;

verus! {

/// An allocation failed: no free range is long enough.
#[derive(Debug, Clone, Copy, PartialEq, Eq, Structural)]
pub struct RangeAllocError;

/// Hands out sub-ranges of `full_range`.
pub struct RangeAlloc {
    full_range: Range<u32>,
    free_ranges: Vec<Range<u32>>,
}

/// The free range that an allocation of a given length would take.
#[non_exhaustive]
pub struct BestFit {
    index: usize,
    pub range: Range<u32>,
}

/// Number of values in `r`.
pub open spec fn span(r: Range<u32>) -> int {
    r.end - r.start
}

/// Whether `r` can hold `len` values.
pub open spec fn fits(r: Range<u32>, len: u32) -> bool {
    span(r) >= len
}

/// Whether `b` is the index of the free range that best fits `len`: the
/// shortest one that can hold it, the first of several such.
pub open spec fn is_best_fit(free: Seq<Range<u32>>, len: u32, b: int) -> bool {
    &&& 0 <= b < free.len()
    &&& fits(free[b], len)
    &&& forall|j: int| 0 <= j < free.len() && fits(free[j], len) ==> span(free[b]) <= span(free[j])
    &&& forall|j: int| 0 <= j < b && fits(free[j], len) ==> span(free[b]) < span(free[j])
}

/// Whether any free range can hold `len` values.
pub open spec fn any_fits(free: Seq<Range<u32>>, len: u32) -> bool {
    exists|j: int| 0 <= j < free.len() && fits(free[j], len)
}

/// Whether `x` lies in `r`.
pub open spec fn holds(r: Range<u32>, x: int) -> bool {
    r.start <= x < r.end
}

/// The values that lie in some range of `v`.
pub open spec fn units(v: Seq<Range<u32>>) -> Set<int> {
    Set::new(|x: int| exists|i: int| 0 <= i < v.len() && holds(#[trigger] v[i], x))
}

/// The values of `r`.
pub open spec fn range_units(r: Range<u32>) -> Set<int> {
    Set::new(|x: int| r.start <= x < r.end)
}

/// Each range ends strictly before the next one starts: the ranges are
/// sorted, disjoint, and no two of them touch.
pub open spec fn coalesced(v: Seq<Range<u32>>) -> bool {
    forall|i: int| 0 <= i < v.len() - 1 ==> (#[trigger] v[i]).end < v[i + 1].start
}

/// Each range ends no later than the next one starts.
pub open spec fn ordered_apart(v: Seq<Range<u32>>) -> bool {
    forall|i: int| 0 <= i < v.len() - 1 ==> (#[trigger] v[i]).end <= v[i + 1].start
}

/// `a` and `b` share no value.
pub open spec fn disjoint(a: Range<u32>, b: Range<u32>) -> bool {
    a.end <= b.start || b.end <= a.start
}

/// No two ranges of `v` share a value.
pub open spec fn pairwise_disjoint(v: Seq<Range<u32>>) -> bool {
    forall|i: int, j: int|
        0 <= i < v.len() && 0 <= j < v.len() && i != j ==> disjoint(#[trigger] v[i], #[trigger] v[j])
}

/// Every range of `v` is non-empty and lies within `full`.
pub open spec fn within(v: Seq<Range<u32>>, full: Range<u32>) -> bool {
    forall|i: int| 0 <= i < v.len() ==> full.start <= (#[trigger] v[i]).start < v[i].end <= full.end
}

/// Relies on `slice::sort_by_key`: the same ranges, ordered by their start.
#[verifier::external_body]
fn sort_by_start(v: &mut Vec<Range<u32>>)
    ensures
        final(v)@.to_multiset() == old(v)@.to_multiset(),
        forall|i: int, j: int|
            0 <= i < j < final(v)@.len() ==> (#[trigger] final(v)@[i]).start <= (
                #[trigger] final(v)@[j]).start,
{
    v.sort_by_key(|r| r.start)
}

impl BestFit {
    /// Position of the chosen range among the free ranges.
    pub closed spec fn slot(&self) -> int {
        self.index as int
    }

    /// The chosen free range.
    pub closed spec fn chosen(&self) -> Range<u32> {
        self.range
    }

    /// The chosen free range.
    pub fn range(&self) -> (r: &Range<u32>)
        ensures
            *r == self.chosen(),
    {
        &self.range
    }
}

impl RangeAlloc {
    /// The range that is handed out in pieces.
    pub closed spec fn full(&self) -> Range<u32> {
        self.full_range
    }

    /// The free ranges, in the order the allocator keeps them.
    pub closed spec fn free(&self) -> Seq<Range<u32>> {
        self.free_ranges@
    }

    /// The allocator's invariant: the free ranges lie within the full range,
    /// and are kept sorted, disjoint and merged.
    pub open spec fn wf(&self) -> bool {
        &&& self.full().start < self.full().end
        &&& within(self.free(), self.full())
        &&& coalesced(self.free())
    }

    /// An allocator with all of `full_range` free.
    pub fn new(full_range: Range<u32>) -> (r: Self)
        requires
            full_range.start < full_range.end,
        ensures
            r.wf(),
            r.full() == full_range,
            r.free() == seq![full_range],
    {
        let full = Range { start: full_range.start, end: full_range.end };
        let r = Self { full_range: full, free_ranges: vec![full_range] };
        proof {
            assert(r.free_ranges@ =~= seq![full_range]);
        }
        r
    }

    /// The free ranges.
    pub fn free_ranges(&self) -> (r: &[Range<u32>])
        ensures
            r@ == self.free(),
    {
        self.free_ranges.as_slice()
    }

    /// Finds the free range that best fits `len`, if any fits.
    pub fn find_best_fit(&self, len: u32) -> (r: Option<BestFit>)
        requires
            self.wf(),
            len > 0,
        ensures
            match r {
                Some(bf) => is_best_fit(self.free(), len, bf.slot()) && bf.chosen() == self.free()[bf.slot()],
                None => !any_fits(self.free(), len),
            },
    {
        if len > self.full_range.end {
            return None;
        }
        let mut best: Option<usize> = None;
        let mut i: usize = 0;
        while i < self.free_ranges.len()
            invariant
                self.wf(),
                len > 0,
                i <= self.free_ranges@.len(),
                forall|j: int| 0 <= j < i && fits(self.free()[j], len) ==> span(self.free()[j]) > len,
                match best {
                    Some(b) => {
                        &&& b < i
                        &&& fits(self.free()[b as int], len)
                        &&& forall|j: int| 0 <= j < i && fits(self.free()[j], len) ==> span(
                            self.free()[b as int],
                        ) <= span(self.free()[j])
                        &&& forall|j: int| 0 <= j < b && fits(self.free()[j], len) ==> span(
                            self.free()[b as int],
                        ) < span(self.free()[j])
                    },
                    None => forall|j: int| 0 <= j < i ==> !fits(self.free()[j], len),
                },
            decreases self.free_ranges@.len() - i,
        {
            let free_len = self.free_ranges[i].end - self.free_ranges[i].start;
            if free_len == len {
                let range = Range { start: self.free_ranges[i].start, end: self.free_ranges[i].end };
                return Some(BestFit { index: i, range });
            }
            if free_len > len {
                match best {
                    Some(b) => {
                        let best_len = self.free_ranges[b].end - self.free_ranges[b].start;
                        if free_len < best_len {
                            best = Some(i);
                        }
                    },
                    None => {
                        best = Some(i);
                    },
                }
            }
            i += 1;
        }
        match best {
            Some(b) => {
                let range = Range { start: self.free_ranges[b].start, end: self.free_ranges[b].end };
                Some(BestFit { index: b, range })
            },
            None => None,
        }
    }

    /// Takes `len` values from the front of the free range `best_fit` names,
    /// or all of it when it is exactly that long.
    pub fn allocate_best_fit(&mut self, len: u32, best_fit: BestFit) -> (r: Range<u32>)
        requires
            old(self).wf(),
            len > 0,
            0 <= best_fit.slot() < old(self).free().len(),
            best_fit.chosen() == old(self).free()[best_fit.slot()],
            fits(best_fit.chosen(), len),
        ensures
            final(self).wf(),
            final(self).full() == old(self).full(),
            r.start == best_fit.chosen().start,
            r.end == best_fit.chosen().start + len,
            span(best_fit.chosen()) == len ==> final(self).free() == old(self).free().remove(
                best_fit.slot(),
            ),
            span(best_fit.chosen()) > len ==> final(self).free() == old(self).free().update(
                best_fit.slot(),
                Range { start: (best_fit.chosen().start + len) as u32, end: best_fit.chosen().end },
            ),
    {
        let BestFit { index, range } = best_fit;
        let range_len = range.end - range.start;
        let ghost v = self.free_ranges@;
        if len == range_len {
            let _ = self.free_ranges.remove(index);
            proof {
                let w = self.free_ranges@;
                assert forall|k: int| 0 <= k < w.len() - 1 implies (#[trigger] w[k]).end < w[k + 1].start by {
                    if k + 1 == index {
                        assert(v[k].end < v[k + 1].start);
                        assert(v[k + 1].end < v[k + 2].start);
                    } else if k >= index {
                        assert(v[k + 1].end < v[k + 2].start);
                    } else {
                        assert(v[k].end < v[k + 1].start);
                    }
                }
            }
            return range;
        }
        let shrunk = Range { start: range.start + len, end: range.end };
        self.free_ranges.set(index, shrunk);
        proof {
            let w = self.free_ranges@;
            assert forall|k: int| 0 <= k < w.len() - 1 implies (#[trigger] w[k]).end < w[k + 1].start by {
                assert(v[k].end < v[k + 1].start);
            }
        }
        Range { start: range.start, end: range.start + len }
    }

    /// Takes `len` values from the free range that best fits them.
    pub fn allocate(&mut self, len: u32) -> (r: Result<Range<u32>, RangeAllocError>)
        requires
            old(self).wf(),
            len > 0,
        ensures
            final(self).wf(),
            final(self).full() == old(self).full(),
            r is Ok <==> any_fits(old(self).free(), len),
            r is Err ==> final(self).free() == old(self).free(),
            forall|b: int|
                is_best_fit(old(self).free(), len, b) ==> {
                    let f = old(self).free()[b];
                    &&& r == Ok::<Range<u32>, RangeAllocError>(
                        Range { start: f.start, end: (f.start + len) as u32 },
                    )
                    &&& span(f) == len ==> final(self).free() == old(self).free().remove(b)
                    &&& span(f) > len ==> final(self).free() == old(self).free().update(
                        b,
                        Range { start: (f.start + len) as u32, end: f.end },
                    )
                },
    {
        match self.find_best_fit(len) {
            Some(best_fit) => {
                proof {
                    lemma_best_fit_unique(self.free(), len, best_fit.slot());
                }
                Ok(self.allocate_best_fit(len, best_fit))
            },
            None => Err(RangeAllocError),
        }
    }

    /// Sorts the free ranges by their start and merges each one that ends
    /// where the next begins.
    fn defragment_free_ranges(&mut self)
        requires
            old(self).full().start < old(self).full().end,
            within(old(self).free(), old(self).full()),
            pairwise_disjoint(old(self).free()),
            old(self).free().len() >= 1,
        ensures
            final(self).wf(),
            final(self).full() == old(self).full(),
            units(final(self).free()) == units(old(self).free()),
    {
        let ghost before = self.free_ranges@;
        sort_by_start(&mut self.free_ranges);
        proof {
            before.to_multiset_ensures();
            self.free_ranges@.to_multiset_ensures();
            lemma_units_of_permutation(before, self.free_ranges@);
            lemma_units_of_permutation(self.free_ranges@, before);
            lemma_within_permutation(before, self.free_ranges@, self.full_range);
            lemma_disjoint_permutation(before, self.free_ranges@, self.full_range);
            lemma_sorted_disjoint_apart(self.free_ranges@, self.full_range);
        }
        let mut i: usize = 0;
        while i < self.free_ranges.len() - 1
            invariant
                self.full() == old(self).full(),
                self.full().start < self.full().end,
                within(self.free(), self.full()),
                self.free_ranges@.len() >= 1,
                i < self.free_ranges@.len(),
                units(self.free()) == units(old(self).free()),
                ordered_apart(self.free()),
                forall|j: int| 0 <= j < i ==> (#[trigger] self.free()[j]).end < self.free()[j + 1].start,
            decreases self.free_ranges@.len() - i,
        {
            if self.free_ranges[i].end == self.free_ranges[i + 1].start {
                let ghost v = self.free_ranges@;
                let next = self.free_ranges.remove(i + 1);
                let merged = Range { start: self.free_ranges[i].start, end: next.end };
                self.free_ranges.set(i, merged);
                proof {
                    lemma_units_merge(v, i as int);
                    assert(self.free_ranges@ == v.remove(i + 1).update(i as int, merged));
                    lemma_merge_order(v, i as int, self.full_range);
                }
            } else {
                proof {
                    let w = self.free_ranges@;
                    assert(w[i as int].end <= w[i + 1].start);
                }
                i += 1;
            }
        }
    }

    /// Gives `range` back: it joins the free range it touches, if one does,
    /// and the free ranges are then sorted and merged. The range must not be
    /// free already. Afterwards the free list is the one merged list that
    /// covers the old free values and `range` (see `lemma_free_list_canonical`).
    pub fn deallocate(&mut self, range: Range<u32>)
        requires
            old(self).wf(),
            range.start < range.end,
            old(self).full().start <= range.start,
            range.end <= old(self).full().end,
            forall|i: int| 0 <= i < old(self).free().len() ==> disjoint(range, #[trigger] old(self).free()[i]),
        ensures
            final(self).wf(),
            final(self).full() == old(self).full(),
            units(final(self).free()) == units(old(self).free()) + range_units(range),
    {
        proof {
            lemma_coalesced_disjoint(self.free(), self.full());
        }
        let mut did_grow_side = false;
        let n = self.free_ranges.len();
        let mut i: usize = 0;
        while i < n && !did_grow_side
            invariant
                self.full().start < self.full().end,
                within(self.free(), self.full()),
                pairwise_disjoint(self.free()),
                old(self).wf(),
                forall|k: int| 0 <= k < old(self).free().len() ==> disjoint(range, #[trigger] old(self).free()[k]),
                self.full() == old(self).full(),
                n == self.free_ranges@.len(),
                n == old(self).free().len(),
                i <= n,
                range.start < range.end,
                self.full().start <= range.start,
                range.end <= self.full().end,
                !did_grow_side ==> self.free() == old(self).free(),
                did_grow_side ==> units(self.free()) == units(old(self).free()) + range_units(range),
                did_grow_side ==> n >= 1,
            decreases n - i,
        {
            let free_start = self.free_ranges[i].start;
            let free_end = self.free_ranges[i].end;
            if free_end == range.start {
                let grown = Range { start: free_start, end: range.end };
                proof {
                    assert(range_units(grown) =~= range_units(self.free()[i as int]) + range_units(range));
                    lemma_units_update(self.free(), i as int, grown, range_units(range));
                    lemma_grow_disjoint(self.free(), i as int, grown, range);
                }
                self.free_ranges.set(i, grown);
                did_grow_side = true;
            } else if free_start == range.end {
                let grown = Range { start: range.start, end: free_end };
                proof {
                    assert(range_units(grown) =~= range_units(self.free()[i as int]) + range_units(range));
                    lemma_units_update(self.free(), i as int, grown, range_units(range));
                    lemma_grow_disjoint(self.free(), i as int, grown, range);
                }
                self.free_ranges.set(i, grown);
                did_grow_side = true;
            }
            i += 1;
        }
        if !did_grow_side {
            let ghost v = self.free_ranges@;
            let copy = Range { start: range.start, end: range.end };
            self.free_ranges.push(copy);
            proof {
                lemma_units_push(v, copy);
                let w = self.free_ranges@;
                assert forall|a: int, b: int|
                    0 <= a < w.len() && 0 <= b < w.len() && a != b implies disjoint(#[trigger] w[a], #[trigger] w[b]) by {
                    if a < v.len() && b < v.len() {
                        assert(disjoint(v[a], v[b]));
                    } else if a < v.len() {
                        assert(disjoint(range, v[a]));
                    } else {
                        assert(disjoint(range, v[b]));
                    }
                }
            }
        }
        self.defragment_free_ranges();
    }
}

/// There is one best fit.
proof fn lemma_best_fit_unique(free: Seq<Range<u32>>, len: u32, b: int)
    requires
        is_best_fit(free, len, b),
    ensures
        forall|c: int| is_best_fit(free, len, c) ==> c == b,
{
    assert forall|c: int| is_best_fit(free, len, c) implies c == b by {
        if c < b {
            assert(span(free[b]) < span(free[c]));
        } else if b < c {
            assert(span(free[c]) < span(free[b]));
        }
    }
}

/// The same ranges in another order cover the same values.
proof fn lemma_units_of_permutation(a: Seq<Range<u32>>, b: Seq<Range<u32>>)
    requires
        a.to_multiset() == b.to_multiset(),
    ensures
        units(a) <= units(b),
{
    assert forall|x: int| units(a).contains(x) implies units(b).contains(x) by {
        let i = choose|i: int| 0 <= i < a.len() && holds(#[trigger] a[i], x);
        to_multiset_contains(a, a[i]);
        to_multiset_contains(b, a[i]);
        assert(a.contains(a[i]));
        let j = choose|j: int| 0 <= j < b.len() && b[j] == a[i];
        assert(holds(b[j], x));
    }
}

/// The same ranges in another order lie within the same range.
proof fn lemma_within_permutation(a: Seq<Range<u32>>, b: Seq<Range<u32>>, full: Range<u32>)
    requires
        a.to_multiset() == b.to_multiset(),
        within(a, full),
    ensures
        within(b, full),
{
    assert forall|j: int| 0 <= j < b.len() implies full.start <= (#[trigger] b[j]).start < b[j].end
        <= full.end by {
        to_multiset_contains(a, b[j]);
        to_multiset_contains(b, b[j]);
        assert(b.contains(b[j]));
        let i = choose|i: int| 0 <= i < a.len() && a[i] == b[j];
        assert(full.start <= a[i].start < a[i].end <= full.end);
    }
}

/// Widening range `i` by `extra` widens what the ranges cover by `extra`.
proof fn lemma_units_update(v: Seq<Range<u32>>, i: int, r: Range<u32>, extra: Set<int>)
    requires
        0 <= i < v.len(),
        range_units(r) == range_units(v[i]) + extra,
    ensures
        units(v.update(i, r)) == units(v) + extra,
{
    let w = v.update(i, r);
    assert forall|x: int| units(w).contains(x) <==> (units(v) + extra).contains(x) by {
        if units(w).contains(x) {
            let k = choose|k: int| 0 <= k < w.len() && holds(#[trigger] w[k], x);
            if k == i {
                assert(range_units(r).contains(x));
                if range_units(v[i]).contains(x) {
                    assert(holds(v[i], x));
                }
            } else {
                assert(holds(v[k], x));
            }
        }
        if units(v).contains(x) {
            let k = choose|k: int| 0 <= k < v.len() && holds(#[trigger] v[k], x);
            if k == i {
                assert(range_units(v[i]).contains(x));
                assert(range_units(r).contains(x));
                assert(holds(w[i], x));
            } else {
                assert(holds(w[k], x));
            }
        }
        if extra.contains(x) {
            assert(range_units(r).contains(x));
            assert(holds(w[i], x));
        }
    }
    assert(units(w) =~= units(v) + extra);
}

/// One more range covers its values too.
proof fn lemma_units_push(v: Seq<Range<u32>>, r: Range<u32>)
    ensures
        units(v.push(r)) == units(v) + range_units(r),
{
    let w = v.push(r);
    assert forall|x: int| units(w).contains(x) <==> (units(v) + range_units(r)).contains(x) by {
        if units(w).contains(x) {
            let k = choose|k: int| 0 <= k < w.len() && holds(#[trigger] w[k], x);
            if k < v.len() {
                assert(holds(v[k], x));
            }
        }
        if units(v).contains(x) {
            let k = choose|k: int| 0 <= k < v.len() && holds(#[trigger] v[k], x);
            assert(holds(w[k], x));
        }
        if range_units(r).contains(x) {
            assert(holds(w[v.len() as int], x));
        }
    }
    assert(units(w) =~= units(v) + range_units(r));
}

/// Joining two touching neighbours keeps what the ranges cover.
proof fn lemma_units_merge(v: Seq<Range<u32>>, i: int)
    requires
        0 <= i < v.len() - 1,
        v[i].end == v[i + 1].start,
        v[i].start < v[i].end,
        v[i + 1].start < v[i + 1].end,
    ensures
        ({
            let m = Range { start: v[i].start, end: v[i + 1].end };
            units(v.remove(i + 1).update(i, m)) == units(v)
        }),
{
    let m = Range { start: v[i].start, end: v[i + 1].end };
    let w = v.remove(i + 1).update(i, m);
    assert forall|x: int| units(w).contains(x) <==> units(v).contains(x) by {
        if units(w).contains(x) {
            let k = choose|k: int| 0 <= k < w.len() && holds(#[trigger] w[k], x);
            if k < i {
                assert(holds(v[k], x));
            } else if k == i {
                if x < v[i].end {
                    assert(holds(v[i], x));
                } else {
                    assert(holds(v[i + 1], x));
                }
            } else {
                assert(holds(v[k + 1], x));
            }
        }
        if units(v).contains(x) {
            let k = choose|k: int| 0 <= k < v.len() && holds(#[trigger] v[k], x);
            if k < i {
                assert(holds(w[k], x));
            } else if k == i || k == i + 1 {
                assert(holds(w[i], x));
            } else {
                assert(holds(w[k - 1], x));
            }
        }
    }
    assert(units(w) =~= units(v));
}

/// Merged ranges are pairwise disjoint: each one ends before any later one
/// starts.
proof fn lemma_coalesced_disjoint(v: Seq<Range<u32>>, full: Range<u32>)
    requires
        within(v, full),
        coalesced(v),
    ensures
        pairwise_disjoint(v),
{
    assert forall|i: int, j: int| 0 <= i < v.len() && 0 <= j < v.len() && i != j implies disjoint(#[trigger] v[i], #[trigger] v[j]) by {
        if i < j {
            lemma_coalesced_chain(v, full, i, j);
        } else {
            lemma_coalesced_chain(v, full, j, i);
        }
    }
}

proof fn lemma_coalesced_chain(v: Seq<Range<u32>>, full: Range<u32>, i: int, j: int)
    requires
        within(v, full),
        coalesced(v),
        0 <= i < j < v.len(),
    ensures
        v[i].end < v[j].start,
    decreases j - i,
{
    if j > i + 1 {
        lemma_coalesced_chain(v, full, i, j - 1);
        assert(v[j - 1].end < v[j].start);
        assert(v[j - 1].start < v[j - 1].end);
    }
}

/// Widening range `i` by a range disjoint from all the others keeps them
/// pairwise disjoint.
proof fn lemma_grow_disjoint(v: Seq<Range<u32>>, i: int, g: Range<u32>, r: Range<u32>)
    requires
        0 <= i < v.len(),
        pairwise_disjoint(v),
        v[i].start < v[i].end,
        r.start < r.end,
        forall|k: int| 0 <= k < v.len() ==> #[trigger] v[k].start < v[k].end,
        forall|k: int| 0 <= k < v.len() && k != i ==> disjoint(r, #[trigger] v[k]),
        (g.start == v[i].start && g.end == r.end && v[i].end == r.start) || (g.start == r.start
            && g.end == v[i].end && v[i].start == r.end),
    ensures
        pairwise_disjoint(v.update(i, g)),
{
    let w = v.update(i, g);
    assert forall|a: int, b: int|
        0 <= a < w.len() && 0 <= b < w.len() && a != b implies disjoint(#[trigger] w[a], #[trigger] w[b]) by {
        if a == i {
            assert(disjoint(v[i], v[b]));
            assert(disjoint(r, v[b]));
        } else if b == i {
            assert(disjoint(v[a], v[i]));
            assert(disjoint(r, v[a]));
        } else {
            assert(disjoint(v[a], v[b]));
        }
    }
}

/// The same ranges in another order are still pairwise disjoint.
proof fn lemma_disjoint_permutation(a: Seq<Range<u32>>, b: Seq<Range<u32>>, full: Range<u32>)
    requires
        a.to_multiset() == b.to_multiset(),
        within(a, full),
        pairwise_disjoint(a),
    ensures
        pairwise_disjoint(b),
{
    assert(a.no_duplicates()) by {
        assert forall|i: int, j: int| 0 <= i < a.len() && 0 <= j < a.len() && i != j implies a[i] != a[j] by {
            assert(disjoint(a[i], a[j]));
            assert(a[i].start < a[i].end);
        }
    }
    a.lemma_multiset_has_no_duplicates();
    b.lemma_multiset_has_no_duplicates_conv();
    assert forall|i: int, j: int| 0 <= i < b.len() && 0 <= j < b.len() && i != j implies disjoint(#[trigger] b[i], #[trigger] b[j]) by {
        to_multiset_contains(a, b[i]);
        to_multiset_contains(b, b[i]);
        to_multiset_contains(a, b[j]);
        to_multiset_contains(b, b[j]);
        assert(b.contains(b[i]));
        assert(b.contains(b[j]));
        let x = choose|x: int| 0 <= x < a.len() && a[x] == b[i];
        let y = choose|y: int| 0 <= y < a.len() && a[y] == b[j];
        assert(b[i] != b[j]);
        assert(x != y);
        assert(disjoint(a[x], a[y]));
    }
}

/// Ranges sorted by start that share no value each end by the next start.
proof fn lemma_sorted_disjoint_apart(w: Seq<Range<u32>>, full: Range<u32>)
    requires
        within(w, full),
        pairwise_disjoint(w),
        forall|a: int, b: int| 0 <= a < b < w.len() ==> (#[trigger] w[a]).start <= (#[trigger] w[b]).start,
    ensures
        ordered_apart(w),
{
    assert forall|k: int| 0 <= k < w.len() - 1 implies (#[trigger] w[k]).end <= w[k + 1].start by {
        assert(disjoint(w[k], w[k + 1]));
        assert(w[k].start <= w[k + 1].start);
        assert(w[k + 1].start < w[k + 1].end);
    }
}

/// Merging the touching neighbours `i` and `i + 1` keeps the order, the
/// merged prefix, and the ranges within `full`.
proof fn lemma_merge_order(v: Seq<Range<u32>>, i: int, full: Range<u32>)
    requires
        0 <= i < v.len() - 1,
        within(v, full),
        ordered_apart(v),
        forall|j: int| 0 <= j < i ==> (#[trigger] v[j]).end < v[j + 1].start,
        v[i].end == v[i + 1].start,
    ensures
        ({
            let w = v.remove(i + 1).update(i, Range { start: v[i].start, end: v[i + 1].end });
            &&& within(w, full)
            &&& ordered_apart(w)
            &&& forall|j: int| 0 <= j < i ==> (#[trigger] w[j]).end < w[j + 1].start
        }),
{
    let m = Range { start: v[i].start, end: v[i + 1].end };
    let w = v.remove(i + 1).update(i, m);
    assert forall|k: int| 0 <= k < w.len() implies full.start <= (#[trigger] w[k]).start < w[k].end <= full.end by {
        if k < i {
            assert(w[k] == v[k]);
        } else if k > i {
            assert(w[k] == v[k + 1]);
        } else {
            assert(v[i].start < v[i].end);
            assert(v[i + 1].start < v[i + 1].end);
        }
    }
    assert forall|k: int| 0 <= k < w.len() - 1 implies (#[trigger] w[k]).end <= w[k + 1].start by {
        if k + 1 < i {
            assert(v[k].end <= v[k + 1].start);
        } else if k + 1 == i {
            assert(v[k].end <= v[k + 1].start);
        } else {
            assert(v[k + 1].end <= v[k + 2].start);
        }
    }
    assert forall|j: int| 0 <= j < i implies (#[trigger] w[j]).end < w[j + 1].start by {
        assert(v[j].end < v[j + 1].start);
    }
}

/// The first range of a merged list starts at its least value, and its end
/// is not covered.
proof fn lemma_first_range(a: Seq<Range<u32>>, full: Range<u32>)
    requires
        within(a, full),
        coalesced(a),
        a.len() > 0,
    ensures
        units(a).contains(a[0].start as int),
        forall|x: int| #[trigger] units(a).contains(x) ==> a[0].start <= x,
        !units(a).contains(a[0].end as int),
        forall|x: int| a[0].start <= x < a[0].end ==> #[trigger] units(a).contains(x),
        units(a.drop_first()) == units(a).difference(range_units(a[0])),
{
    assert(holds(a[0], a[0].start as int));
    assert forall|x: int| #[trigger] units(a).contains(x) implies a[0].start <= x by {
        let k = choose|k: int| 0 <= k < a.len() && holds(#[trigger] a[k], x);
        if k > 0 {
            lemma_coalesced_chain(a, full, 0, k);
        }
    }
    if units(a).contains(a[0].end as int) {
        let k = choose|k: int| 0 <= k < a.len() && holds(#[trigger] a[k], a[0].end as int);
        if k > 0 {
            lemma_coalesced_chain(a, full, 0, k);
        }
    }
    assert forall|x: int| a[0].start <= x < a[0].end implies #[trigger] units(a).contains(x) by {
        assert(holds(a[0], x));
    }
    let d = a.drop_first();
    assert forall|x: int| units(d).contains(x) <==> #[trigger] units(a).difference(range_units(a[0])).contains(x) by {
        if units(d).contains(x) {
            let k = choose|k: int| 0 <= k < d.len() && holds(#[trigger] d[k], x);
            assert(holds(a[k + 1], x));
            lemma_coalesced_chain(a, full, 0, k + 1);
        }
        if units(a).contains(x) && !range_units(a[0]).contains(x) {
            let k = choose|k: int| 0 <= k < a.len() && holds(#[trigger] a[k], x);
            assert(k > 0);
            assert(holds(d[k - 1], x));
        }
    }
    assert(units(d) =~= units(a).difference(range_units(a[0])));
}

/// Dropping the first range keeps a list merged and within `full`.
proof fn lemma_drop_first_merged(a: Seq<Range<u32>>, full: Range<u32>)
    requires
        within(a, full),
        coalesced(a),
        a.len() > 0,
    ensures
        within(a.drop_first(), full),
        coalesced(a.drop_first()),
{
    let d = a.drop_first();
    assert forall|i: int| 0 <= i < d.len() - 1 implies (#[trigger] d[i]).end < d[i + 1].start by {
        assert(a[i + 1].end < a[i + 2].start);
    }
    assert forall|i: int| 0 <= i < d.len() implies full.start <= (#[trigger] d[i]).start < d[i].end
        <= full.end by {
        assert(a[i + 1] == d[i]);
    }
}

/// A list covers no value only when it is empty (its ranges being non-empty).
proof fn lemma_empty_units(a: Seq<Range<u32>>)
    requires
        forall|i: int| 0 <= i < a.len() ==> (#[trigger] a[i]).start < a[i].end,
    ensures
        a.len() > 0 <==> units(a).contains(a[0].start as int) && a.len() > 0,
        a.len() == 0 ==> units(a) == Set::<int>::empty(),
        a.len() > 0 ==> units(a) != Set::<int>::empty(),
{
    if a.len() > 0 {
        assert(holds(a[0], a[0].start as int));
        assert(units(a).contains(a[0].start as int));
    } else {
        assert(units(a) =~= Set::<int>::empty());
    }
}

/// Two merged lists that cover the same values start with the same range,
/// and the rest of them cover the same values.
proof fn lemma_heads_match(a: Seq<Range<u32>>, b: Seq<Range<u32>>, full: Range<u32>)
    requires
        within(a, full),
        within(b, full),
        coalesced(a),
        coalesced(b),
        units(a) == units(b),
        a.len() > 0,
        b.len() > 0,
    ensures
        a[0] == b[0],
        units(a.drop_first()) == units(b.drop_first()),
{
    lemma_first_range(a, full);
    lemma_first_range(b, full);
    assert(a[0].start <= b[0].start);
    assert(b[0].start <= a[0].start);
    if a[0].end < b[0].end {
        assert(units(b).contains(a[0].end as int));
    }
    if b[0].end < a[0].end {
        assert(units(a).contains(b[0].end as int));
    }
}

/// A merged free list is determined by the values it covers: two merged
/// lists within the same range that cover the same values are equal.
#[verifier::rlimit(60)]
pub proof fn lemma_free_list_canonical(a: Seq<Range<u32>>, b: Seq<Range<u32>>, full: Range<u32>)
    requires
        within(a, full),
        within(b, full),
        coalesced(a),
        coalesced(b),
        units(a) == units(b),
    ensures
        a == b,
    decreases a.len(),
{
    if a.len() == 0 || b.len() == 0 {
        lemma_empty_units(a);
        lemma_empty_units(b);
        assert(a =~= b);
    } else {
        lemma_heads_match(a, b, full);
        let da = a.drop_first();
        let db = b.drop_first();
        lemma_drop_first_merged(a, full);
        lemma_drop_first_merged(b, full);
        lemma_free_list_canonical(da, db, full);
        assert forall|i: int| 0 <= i < a.len() implies a[i] == b[i] by {
            if i > 0 {
                assert(a[i] == da[i - 1]);
                assert(b[i] == db[i - 1]);
            }
        }
        assert(a =~= b);
    }
}

} // verus!
