//! A cumulative-frequency table over `(weight, item)` pairs.
use vstd::prelude::*;
use vstd::set_lib::{set_int_range, lemma_int_range};

verus! {

/// Why a table could not be built.
#[derive(Debug, Clone, Copy, PartialEq, Eq, Structural)]
pub enum BuildError {
    /// A supplied weight was below zero.
    NegativeWeight,
    /// No pairs were supplied, or all weights summed to zero.
    EmptyOrNonPositive,
}

/// Sum of the weights of `w`.
pub open spec fn weight_sum(w: Seq<(i128, String)>) -> int
    decreases w.len(),
{
    if w.len() == 0 {
        0
    } else {
        weight_sum(w.drop_last()) + w.last().0
    }
}

pub open spec fn has_negative(w: Seq<(i128, String)>) -> bool {
    exists|i: int| 0 <= i < w.len() && w[i].0 < 0
}

/// Every running total up to the first negative weight fits in an `i128`.
pub open spec fn running_totals_fit(w: Seq<(i128, String)>) -> bool {
    forall|k: int|
        0 <= k <= w.len() && !has_negative(#[trigger] w.take(k)) ==> weight_sum(w.take(k))
            <= i128::MAX
}

/// Store values along with their weights, supporting sampling in proportion
/// to the weights. A table is never empty and its total weight is positive,
/// so lookups never fail.
pub struct FreqChoice {
    data: Vec<(i128, String)>,
    total: i128,
}

impl FreqChoice {
    /// Number of entries.
    pub closed spec fn len(&self) -> int {
        self.data@.len() as int
    }

    /// Running total of the weights up to and including entry `i`.
    pub closed spec fn cum(&self, i: int) -> int {
        self.data@[i].0 as int
    }

    /// The item of entry `i`.
    pub closed spec fn item(&self, i: int) -> String {
        self.data@[i].1
    }

    pub closed spec fn total_weight(&self) -> int {
        self.total as int
    }

    pub closed spec fn wf(&self) -> bool {
        &&& self.data@.len() > 0
        &&& self.total as int == self.data@.last().0
        &&& self.total > 0
        &&& self.data@[0].0 >= 0
        &&& forall|i: int, j: int|
            0 <= i <= j < self.data@.len() ==> #[trigger] self.data@[i].0 <= #[trigger] self.data@[j].0
    }

    /// The weight that entry `i` was built with.
    pub open spec fn weight(&self, i: int) -> int {
        if i == 0 {
            self.cum(0)
        } else {
            self.cum(i) - self.cum(i - 1)
        }
    }

    /// The table holds the pairs of `w` in order, as running totals.
    pub open spec fn built_from(&self, w: Seq<(i128, String)>) -> bool {
        &&& self.wf()
        &&& self.len() == w.len()
        &&& self.total_weight() == weight_sum(w)
        &&& forall|i: int|
            #![trigger self.cum(i)]
            #![trigger self.item(i)]
            0 <= i < w.len() ==> self.cum(i) == weight_sum(w.take(i + 1)) && self.item(i) == w[i].1
    }

    /// Entry `i` covers `offset`: `offset` lies in `[cum(i - 1), cum(i))`.
    pub open spec fn owns(&self, i: int, offset: int) -> bool {
        &&& 0 <= i < self.len()
        &&& (i == 0 || self.cum(i - 1) <= offset)
        &&& offset < self.cum(i)
    }

    /// The index of the entry that covers `offset`.
    pub open spec fn owner(&self, offset: int) -> int {
        choose|i: int| self.owns(i, offset)
    }

    /// The item that covers `offset`.
    pub open spec fn item_at(&self, offset: int) -> String {
        self.item(self.owner(offset))
    }

    /// Each offset in `[0, total)` is covered by exactly one entry.
    pub proof fn lemma_owner_unique(&self, i: int, offset: int)
        requires
            self.wf(),
            self.owns(i, offset),
        ensures
            self.owner(offset) == i,
    {
        let j = self.owner(offset);
        assert(self.owns(j, offset));
        if j < i {
            assert(self.cum(j) <= self.cum(i - 1));
        } else if i < j {
            assert(self.cum(i) <= self.cum(j - 1));
        }
    }

    /// Some entry at or after `k` covers `offset`, when the entries
    /// before `k` all end at or below it.
    proof fn lemma_owner_from(&self, k: int, offset: int)
        requires
            self.wf(),
            0 <= offset < self.total_weight(),
            0 <= k < self.len(),
            k == 0 || self.cum(k - 1) <= offset,
        ensures
            exists|i: int| self.owns(i, offset),
        decreases self.len() - k,
    {
        if offset < self.cum(k) {
            assert(self.owns(k, offset));
        } else {
            self.lemma_owner_from(k + 1, offset);
        }
    }

    /// Every offset in `[0, total)` is covered by some entry.
    pub proof fn lemma_some_owner(&self, offset: int)
        requires
            self.wf(),
            0 <= offset < self.total_weight(),
        ensures
            self.owns(self.owner(offset), offset),
    {
        self.lemma_owner_from(0, offset);
    }

    /// Build a table from `(weight, item)` pairs, in order.
    pub fn from_items(items: Vec<(i128, String)>) -> (r: Result<FreqChoice, BuildError>)
        requires
            running_totals_fit(items@),
        ensures
            match r {
                Ok(t) => !has_negative(items@) && weight_sum(items@) > 0 && t.built_from(items@),
                Err(BuildError::NegativeWeight) => has_negative(items@),
                Err(BuildError::EmptyOrNonPositive) => !has_negative(items@) && weight_sum(
                    items@,
                ) <= 0,
            },
            has_negative(items@) ==> r == Err::<FreqChoice, BuildError>(BuildError::NegativeWeight),
            !has_negative(items@) && weight_sum(items@) <= 0 ==> r == Err::<FreqChoice, BuildError>(
                BuildError::EmptyOrNonPositive,
            ),
            !has_negative(items@) && weight_sum(items@) > 0 ==> r is Ok,
    {
        let mut cumulative: i128 = 0;
        let mut out: Vec<(i128, String)> = Vec::with_capacity(items.len());
        let mut i: usize = 0;
        while i < items.len()
            invariant
                i <= items@.len(),
                running_totals_fit(items@),
                !has_negative(items@.take(i as int)),
                cumulative == weight_sum(items@.take(i as int)),
                cumulative >= 0,
                out@.len() == i,
                forall|k: int|
                    0 <= k < i ==> out@[k].0 == weight_sum(#[trigger] items@.take(k + 1))
                        && out@[k].1 == items@[k].1,
                forall|k: int, l: int|
                    0 <= k <= l < i ==> #[trigger] out@[k].0 <= #[trigger] out@[l].0,
                i > 0 ==> out@[i - 1].0 == cumulative,
                forall|k: int| 0 <= k < i ==> #[trigger] out@[k].0 >= 0,
            decreases items@.len() - i,
        {
            let weight = items[i].0;
            if weight < 0 {
                assert(has_negative(items@)) by {
                    assert(items@[i as int].0 < 0);
                }
                return Err(BuildError::NegativeWeight);
            }
            let ghost next = items@.take(i + 1);
            proof {
                assert(next.drop_last() == items@.take(i as int));
                assert(!has_negative(next)) by {
                    assert forall|j: int| 0 <= j < next.len() implies next[j].0 >= 0 by {
                        if j < i {
                            assert(next[j] == items@.take(i as int)[j]);
                        }
                    }
                }
                assert(weight_sum(next) <= i128::MAX);
            }
            cumulative = cumulative + weight;
            out.push((cumulative, items[i].1.clone()));
            i = i + 1;
        }
        assert(items@.take(items@.len() as int) == items@);
        if cumulative <= 0 {
            return Err(BuildError::EmptyOrNonPositive);
        }
        let t = FreqChoice { data: out, total: cumulative };
        assert(t.wf());
        assert(!has_negative(items@));
        assert(t.total_weight() == weight_sum(items@));
        assert(forall|k: int|
            0 <= k < items@.len() ==> t.cum(k) == weight_sum(#[trigger] items@.take(k + 1))
                && t.item(k) == items@[k].1);
        assert(t.built_from(items@));
        assert(weight_sum(items@) > 0);
        Ok(t)
    }

    /// The item whose range of running totals covers `offset`: the first
    /// entry whose running total exceeds `offset`. A galloping probe finds a
    /// window around that entry, and a binary search finishes inside it.
    pub fn sample_at(&self, offset: i128) -> (r: String)
        requires
            self.wf(),
            0 <= offset < self.total_weight(),
        ensures
            r == self.item_at(offset as int),
    {
        if offset < self.data[0].0 {
            proof {
                self.lemma_owner_unique(0, offset as int);
            }
            return self.data[0].1.clone();
        }
        let n = self.data.len();
        let mut lb: usize = 1;
        let mut ub: usize = 1;
        if n < 2 {
            assert(false);
        }
        while offset >= self.data[ub].0
            invariant_except_break
                self.wf(),
                0 <= offset < self.total_weight(),
                n == self.data@.len(),
                1 <= lb <= ub < n,
                self.data@[lb - 1].0 <= offset,
            ensures
                1 <= lb <= ub < n,
                self.data@[lb - 1].0 <= offset < self.data@[ub as int].0,
            decreases n - ub,
        {
            lb = ub + 1;
            if ub >= n - ub {
                ub = n - 1;
                break;
            }
            ub = ub * 2;
        }
        while lb < ub
            invariant
                self.wf(),
                n == self.data@.len(),
                1 <= lb <= ub < n,
                self.data@[lb - 1].0 <= offset < self.data@[ub as int].0,
            decreases ub - lb,
        {
            let middle = lb + (ub - lb) / 2;
            if offset < self.data[middle].0 {
                ub = middle;
            } else {
                lb = middle + 1;
            }
        }
        proof {
            self.lemma_owner_unique(lb as int, offset as int);
        }
        self.data[lb].1.clone()
    }

    /// The total weight.
    pub fn total(&self) -> (r: i128)
        ensures
            r == self.total_weight(),
            self.wf() ==> r > 0,
    {
        self.total
    }
}

/// Of the offsets in `[0, total)`, entry `i` of a table built from `w`
/// covers exactly as many as the weight that `w` gave it.
pub proof fn lemma_offsets_per_entry(t: &FreqChoice, w: Seq<(i128, String)>, i: int)
    requires
        t.built_from(w),
        0 <= i < w.len(),
    ensures
        Set::new(|o: int| 0 <= o < t.total_weight() && t.owner(o) == i).finite(),
        Set::new(|o: int| 0 <= o < t.total_weight() && t.owner(o) == i).len() == t.weight(i),
        t.weight(i) == w[i].0,
{
    let covered = Set::new(|o: int| 0 <= o < t.total_weight() && t.owner(o) == i);
    let lo = if i == 0 { 0 } else { t.cum(i - 1) };
    let hi = t.cum(i);
    assert(t.cum(0) >= 0 && t.cum(i) <= t.cum(t.len() - 1));
    if i > 0 {
        assert(t.cum(0) <= t.cum(i - 1) && t.cum(i - 1) <= t.cum(i));
    }
    assert(w.take(i + 1).drop_last() == w.take(i));
    assert(w.take(i + 1).last() == w[i]);
    if i > 0 {
        let j = i - 1;
        assert(t.cum(j) == weight_sum(w.take(j + 1)));
        assert(j + 1 == i);
    } else {
        assert(w.take(0).len() == 0);
    }
    assert(t.cum(i) == weight_sum(w.take(i + 1)));
    assert(weight_sum(w.take(i + 1)) == weight_sum(w.take(i)) + w[i].0);
    assert(hi - lo == w[i].0);
    assert forall|o: int| covered.contains(o) <==> set_int_range(lo, hi).contains(o) by {
        if lo <= o < hi {
            t.lemma_owner_unique(i, o);
        }
        if covered.contains(o) {
            t.lemma_some_owner(o);
        }
    }
    assert(covered =~= set_int_range(lo, hi));
    lemma_int_range(lo, hi);
}

/// Lookup is a function of the table and the offset: two lookups of one
/// offset in one table give the same item, the item of the one entry that
/// covers the offset.
pub proof fn lemma_lookup_deterministic(t: &FreqChoice, offset: int, r1: String, r2: String, i: int)
    requires
        t.wf(),
        0 <= offset < t.total_weight(),
        r1 == t.item_at(offset),
        r2 == t.item_at(offset),
        t.owns(i, offset),
    ensures
        r1 == r2,
        r1 == t.item(i),
{
    t.lemma_owner_unique(i, offset);
}

/// In a table built from `w` whose items are pairwise distinct, the offsets
/// in `[0, total)` that look up the item of entry `k` are exactly as many as
/// its weight; an item of weight zero is never looked up.
pub proof fn lemma_offsets_per_item(t: &FreqChoice, w: Seq<(i128, String)>, k: int)
    requires
        t.built_from(w),
        0 <= k < w.len(),
        forall|i: int, j: int| 0 <= i < j < w.len() ==> (#[trigger] w[i]).1 != (#[trigger] w[j]).1,
    ensures
        Set::new(|o: int| 0 <= o < t.total_weight() && t.item_at(o) == w[k].1).finite(),
        Set::new(|o: int| 0 <= o < t.total_weight() && t.item_at(o) == w[k].1).len() == w[k].0,
{
    let by_item = Set::new(|o: int| 0 <= o < t.total_weight() && t.item_at(o) == w[k].1);
    let by_entry = Set::new(|o: int| 0 <= o < t.total_weight() && t.owner(o) == k);
    assert forall|o: int| by_item.contains(o) <==> by_entry.contains(o) by {
        if 0 <= o < t.total_weight() {
            t.lemma_some_owner(o);
            let j = t.owner(o);
            assert(t.item(j) == w[j].1);
            assert(t.item(k) == w[k].1);
            if j < k {
                assert(w[j].1 != w[k].1);
            } else if k < j {
                assert(w[k].1 != w[j].1);
            }
        }
    }
    assert(by_item =~= by_entry);
    lemma_offsets_per_entry(t, w, k);
}

} // verus!
