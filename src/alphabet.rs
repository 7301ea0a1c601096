//! Segmentation of the symbol domain into disjoint, ordered intervals.
//!
//! A segmentation is kept as the ordered list of the first symbols of its intervals
//! ("divisions"). Interval `i` starts at `divisions[i]` and ends right before
//! `divisions[i + 1]`, the last one at the largest symbol.

use vstd::prelude::*;

verus! {

/// The largest symbol. Input that has run out reads as this symbol.
pub const EOF: u32 = 0xffff_ffff;

/// The divisions are strictly increasing and the first one is the smallest symbol.
pub open spec fn divisions_wf(d: Seq<u32>) -> bool {
    &&& d.len() >= 1
    &&& d[0] == 0
    &&& forall|i: int, j: int| 0 <= i < j < d.len() ==> d[i] < d[j]
}

/// The column of `sym`: the last division that is not above it.
pub open spec fn column_of(d: Seq<u32>, sym: u32) -> int
    recommends
        divisions_wf(d),
{
    choose|i: int| is_column_of(d, sym, i)
}

/// `i` is the column whose interval holds `sym`.
pub open spec fn is_column_of(d: Seq<u32>, sym: u32, i: int) -> bool {
    &&& 0 <= i < d.len()
    &&& d[i] <= sym
    &&& i + 1 < d.len() ==> sym < d[i + 1]
}

/// The last symbol of interval `i`.
pub open spec fn range_end(d: Seq<u32>, i: int) -> u32 {
    if i + 1 < d.len() {
        (d[i + 1] - 1) as u32
    } else {
        EOF
    }
}

/// Every symbol lies in exactly one interval.
pub proof fn lemma_column_unique(d: Seq<u32>, sym: u32, i: int, j: int)
    requires
        divisions_wf(d),
        is_column_of(d, sym, i),
        is_column_of(d, sym, j),
    ensures
        i == j,
{
    if i < j {
        assert(d[i + 1] <= d[j]) by {
            if i + 1 < j {
                assert(d[i + 1] < d[j]);
            }
        }
    } else if j < i {
        assert(d[j + 1] <= d[i]) by {
            if j + 1 < i {
                assert(d[j + 1] < d[i]);
            }
        }
    }
}

/// Every symbol lies in some interval.
pub proof fn lemma_column_exists(d: Seq<u32>, sym: u32)
    requires
        divisions_wf(d),
    ensures
        exists|i: int| is_column_of(d, sym, i),
    decreases d.len(),
{
    if d.len() == 1 {
        assert(is_column_of(d, sym, 0));
    } else {
        let last = d.len() - 1;
        if d[last] <= sym {
            assert(is_column_of(d, sym, last));
        } else {
            let e = d.drop_last();
            assert(divisions_wf(e)) by {
                assert forall|i: int, j: int| 0 <= i < j < e.len() implies e[i] < e[j] by {
                    assert(d[i] < d[j]);
                }
            }
            lemma_column_exists(e, sym);
            let i = choose|i: int| is_column_of(e, sym, i);
            assert(is_column_of(d, sym, i));
        }
    }
}

/// An alphabet under construction: intervals can still be split.
#[derive(Clone, Debug, PartialEq, Eq)]
pub struct Segmentation {
    divisions: Vec<u32>,
}

/// A finished alphabet: a read-only view used for lookups.
#[derive(Clone, Debug, PartialEq, Eq)]
pub struct SealedSegmentation {
    divisions: Vec<u32>,
}

impl View for Segmentation {
    type V = Seq<u32>;

    closed spec fn view(&self) -> Seq<u32> {
        self.divisions@
    }
}

impl Segmentation {
    pub open spec fn wf(&self) -> bool {
        divisions_wf(self@)
    }

    /// The alphabet with one interval that holds every symbol.
    pub fn new() -> (r: Self)
        ensures
            r.wf(),
            r@ == seq![0u32],
    {
        Segmentation { divisions: vec![0u32] }
    }

    /// The number of intervals.
    pub fn len(&self) -> (r: usize)
        ensures
            r == self@.len(),
    {
        self.divisions.len()
    }

    /// Adds `d` as a division; no change if it is one already.
    fn insert_division(&mut self, d: u32)
        requires
            old(self).wf(),
        ensures
            final(self).wf(),
            final(self)@.to_set() == old(self)@.to_set().insert(d),
    {
        let n = self.divisions.len();
        let mut i: usize = 0;
        while i < n && self.divisions[i] < d
            invariant
                0 <= i <= n,
                n == self.divisions.len(),
                forall|k: int| 0 <= k < i ==> self.divisions@[k] < d,
            decreases n - i,
        {
            i = i + 1;
        }
        if i < n && self.divisions[i] == d {
            return;
        }
        let ghost before = self.divisions@;
        self.divisions.insert(i, d);
        proof {
            assert(i > 0) by {
                if i == 0 {
                    assert(before[0] == 0);
                }
            }
            let after = self.divisions@;
            assert(after == before.insert(i as int, d));
            assert(after.to_set() =~= before.to_set().insert(d)) by {
                assert forall|x: u32| after.to_set().contains(x) implies before.to_set().insert(
                    d,
                ).contains(x) by {
                    let k = choose|k: int| 0 <= k < after.len() && after[k] == x;
                    if k < i {
                        assert(before[k] == x);
                    } else if k > i {
                        assert(before[k - 1] == x);
                    }
                }
                assert forall|x: u32| before.to_set().insert(d).contains(x) implies after.to_set().contains(x) by {
                    if x == d {
                        assert(after[i as int] == d);
                    } else {
                        let k = choose|k: int| 0 <= k < before.len() && before[k] == x;
                        if k < i {
                            assert(after[k] == x);
                        } else {
                            assert(after[k + 1] == x);
                        }
                    }
                }
            }
            assert forall|a: int, b: int| 0 <= a < b < after.len() implies after[a] < after[b] by {
                if b < i {
                } else if a < i && b == i {
                } else if a < i {
                    assert(before[a] < before[b - 1]);
                } else if a == i {
                    assert(d < before[b - 1]) by {
                        if b - 1 > i {
                            assert(before[i as int] < before[b - 1]);
                        }
                    }
                } else {
                    assert(before[a - 1] < before[b - 1]);
                }
            }
        }
    }

    /// Splits the intervals so that `start ..= end` is a union of whole intervals.
    pub fn insert(&mut self, start: u32, end: u32)
        requires
            old(self).wf(),
            start <= end,
        ensures
            final(self).wf(),
            final(self)@.to_set() == if end < EOF {
                old(self)@.to_set().insert(start).insert((end + 1) as u32)
            } else {
                old(self)@.to_set().insert(start)
            },
    {
        self.insert_division(start);
        if end < EOF {
            self.insert_division(end + 1);
        }
    }

    /// Freezes the alphabet into its queryable form.
    pub fn seal(&self) -> (r: SealedSegmentation)
        requires
            self.wf(),
        ensures
            r.wf(),
            r@ == self@,
    {
        SealedSegmentation { divisions: self.divisions.clone() }
    }

    /// The first symbol of interval `i`.
    pub fn division(&self, i: usize) -> (r: u32)
        requires
            i < self@.len(),
        ensures
            r == self@[i as int],
    {
        self.divisions[i]
    }
}

impl View for SealedSegmentation {
    type V = Seq<u32>;

    closed spec fn view(&self) -> Seq<u32> {
        self.divisions@
    }
}

impl SealedSegmentation {
    pub open spec fn wf(&self) -> bool {
        divisions_wf(self@)
    }

    /// The number of intervals.
    pub fn len(&self) -> (r: usize)
        ensures
            r == self@.len(),
    {
        self.divisions.len()
    }

    /// The first symbol of interval `i`.
    pub fn division(&self, i: usize) -> (r: u32)
        requires
            i < self@.len(),
        ensures
            r == self@[i as int],
    {
        self.divisions[i]
    }

    /// The column of the interval that holds `sym`.
    pub fn index_of_symbol(&self, sym: u32) -> (r: usize)
        requires
            self.wf(),
        ensures
            is_column_of(self@, sym, r as int),
            r == column_of(self@, sym),
    {
        let mut lo: usize = 0;
        let mut hi: usize = self.divisions.len();
        while hi - lo > 1
            invariant
                self.wf(),
                0 <= lo < hi <= self.divisions.len(),
                self.divisions@[lo as int] <= sym,
                hi < self.divisions.len() ==> sym < self.divisions@[hi as int],
            decreases hi - lo,
        {
            let mid = lo + (hi - lo) / 2;
            if self.divisions[mid] <= sym {
                lo = mid;
            } else {
                hi = mid;
            }
        }
        proof {
            assert(is_column_of(self@, sym, lo as int));
            let c = column_of(self@, sym);
            lemma_column_unique(self@, sym, lo as int, c);
        }
        lo
    }

    /// The intervals, in column order, as closed ranges.
    pub fn ranges(&self) -> (r: Vec<(u32, u32)>)
        requires
            self.wf(),
        ensures
            r@.len() == self@.len(),
            forall|i: int|
                0 <= i < r@.len() ==> r@[i] == (self@[i], range_end(self@, i)),
    {
        let n = self.divisions.len();
        let mut out: Vec<(u32, u32)> = Vec::new();
        let mut i: usize = 0;
        while i < n
            invariant
                self.wf(),
                n == self.divisions.len(),
                0 <= i <= n,
                out@.len() == i,
                forall|k: int|
                    0 <= k < i ==> out@[k] == (self@[k], range_end(self@, k)),
            decreases n - i,
        {
            let end = if i + 1 < n {
                assert(self.divisions@[i as int] < self.divisions@[i + 1]);
                self.divisions[i + 1] - 1
            } else {
                EOF
            };
            out.push((self.divisions[i], end));
            i = i + 1;
        }
        out
    }
}

} // verus!
