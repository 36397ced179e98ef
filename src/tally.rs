//! Summing tallies of names that may appear several times.
use vstd::prelude::*;
use vstd::multiset::Multiset;

verus! {

broadcast use vstd::seq_lib::group_to_multiset_ensures;

/// Sums counts per name.
pub struct Combiner {
    entries: Vec<(String, u64)>,
}

/// The names of `s` are pairwise distinct.
pub open spec fn names_unique(s: Seq<(String, u64)>) -> bool {
    forall|i: int, j: int| 0 <= i < j < s.len() ==> (#[trigger] s[i]).0@ != (#[trigger] s[j]).0@
}

/// The counts of `s` never increase from one entry to the next.
pub open spec fn by_count_descending(s: Seq<(String, u64)>) -> bool {
    forall|i: int, j: int| 0 <= i <= j < s.len() ==> (#[trigger] s[i]).1 >= (#[trigger] s[j]).1
}

impl Combiner {
    /// The names and their summed counts, in order of first appearance.
    pub closed spec fn entries(&self) -> Seq<(String, u64)> {
        self.entries@
    }

    pub open spec fn has_name(&self, name: Seq<char>) -> bool {
        exists|i: int| 0 <= i < self.entries().len() && self.entries()[i].0@ == name
    }

    /// The summed count of `name`: zero for a name never added.
    pub open spec fn count_of(&self, name: Seq<char>) -> int {
        if self.has_name(name) {
            self.entries()[choose|i: int|
                0 <= i < self.entries().len() && self.entries()[i].0@ == name].1 as int
        } else {
            0
        }
    }

    pub open spec fn wf(&self) -> bool {
        names_unique(self.entries())
    }

    /// The count of `name` lies at the entry whose name it is.
    proof fn lemma_count_at(&self, i: int)
        requires
            self.wf(),
            0 <= i < self.entries().len(),
        ensures
            self.has_name(self.entries()[i].0@),
            self.count_of(self.entries()[i].0@) == self.entries()[i].1,
    {
        let name = self.entries()[i].0@;
        assert(self.has_name(name));
        let k = choose|k: int| 0 <= k < self.entries().len() && self.entries()[k].0@ == name;
        if k != i {
            if k < i {
                assert(self.entries()[k].0@ != self.entries()[i].0@);
            } else {
                assert(self.entries()[i].0@ != self.entries()[k].0@);
            }
        }
    }

    /// An empty tally.
    pub fn new() -> (r: Self)
        ensures
            r.wf(),
            r.entries() == Seq::<(String, u64)>::empty(),
            forall|name: Seq<char>| r.count_of(name) == 0,
    {
        Combiner { entries: Vec::new() }
    }

    /// The summed count of `name`: zero for a name never added.
    pub fn count(&self, name: &str) -> (r: u64)
        requires
            self.wf(),
        ensures
            r == self.count_of(name@),
    {
        let key = name.to_owned();
        let mut i: usize = 0;
        while i < self.entries.len()
            invariant
                self.wf(),
                i <= self.entries@.len(),
                key@ == name@,
                forall|j: int| 0 <= j < i ==> (#[trigger] self.entries@[j]).0@ != name@,
            decreases self.entries@.len() - i,
        {
            if self.entries[i].0 == key {
                proof {
                    self.lemma_count_at(i as int);
                }
                return self.entries[i].1;
            }
            i = i + 1;
        }
        0
    }

    /// The names and summed counts, largest count first.
    pub fn into_sorted(self) -> (r: Vec<(String, u64)>)
        ensures
            by_count_descending(r@),
            r@.to_multiset() == self.entries().to_multiset(),
    {
        let ghost all = self.entries@;
        let mut rest = self.entries;
        let mut out: Vec<(String, u64)> = Vec::new();
        while rest.len() > 0
            invariant
                by_count_descending(out@),
                out@.to_multiset().add(rest@.to_multiset()) == all.to_multiset(),
            decreases rest@.len(),
        {
            let ghost before_rest = rest@;
            let entry = rest.pop().unwrap();
            proof {
                assert(before_rest == rest@.push(entry));
            }
            let mut j: usize = 0;
            while j < out.len() && out[j].1 >= entry.1
                invariant
                    j <= out@.len(),
                    forall|k: int| 0 <= k < j ==> (#[trigger] out@[k]).1 >= entry.1,
                decreases out@.len() - j,
            {
                j = j + 1;
            }
            let ghost before_out = out@;
            out.insert(j, entry);
            proof {
                assert(out@ == before_out.insert(j as int, entry));
                assert forall|a: int, b: int| 0 <= a <= b < out@.len() implies (#[trigger] out@[a]).1
                    >= (#[trigger] out@[b]).1 by {
                    if a < j && b > j {
                        assert(out@[b] == before_out[b - 1]);
                        assert(before_out[a].1 >= before_out[b - 1].1);
                    } else if a > j {
                        assert(out@[a] == before_out[a - 1]);
                        assert(out@[b] == before_out[b - 1]);
                    } else if a == j && b > j {
                        assert(out@[b] == before_out[b - 1]);
                        if j < before_out.len() {
                            assert(before_out[j as int].1 < entry.1);
                            assert(before_out[j as int].1 >= before_out[b - 1].1);
                        }
                    }
                }
            }
        }
        proof {
            assert(rest@.to_multiset() =~= Multiset::empty());
            assert(out@.to_multiset().add(Multiset::empty()) =~= out@.to_multiset());
        }
        out
    }

    /// Add `count` to the tally of `name`.
    pub fn add(&mut self, name: &str, count: u64)
        requires
            old(self).wf(),
            old(self).count_of(name@) + count <= u64::MAX,
        ensures
            final(self).wf(),
            final(self).has_name(name@),
            forall|k: Seq<char>| #[trigger]
                final(self).has_name(k) <==> old(self).has_name(k) || k == name@,
            forall|k: Seq<char>| #[trigger]
                final(self).count_of(k) == old(self).count_of(k) + if k == name@ {
                    count as int
                } else {
                    0
                },
    {
        let key = name.to_owned();
        let mut i: usize = 0;
        while i < self.entries.len()
            invariant
                self.wf(),
                self.entries@ == old(self).entries@,
                i <= self.entries@.len(),
                key@ == name@,
                old(self).count_of(name@) + count <= u64::MAX,
                forall|j: int| 0 <= j < i ==> (#[trigger] self.entries@[j]).0@ != name@,
            decreases self.entries@.len() - i,
        {
            if self.entries[i].0 == key {
                proof {
                    old(self).lemma_count_at(i as int);
                }
                let total = self.entries[i].1 + count;
                self.entries.set(i, (key, total));
                proof {
                    let o = old(self);
                    assert(names_unique(self.entries@)) by {
                        assert forall|a: int, b: int|
                            0 <= a < b < self.entries@.len() implies (#[trigger] self.entries@[a]).0@
                            != (#[trigger] self.entries@[b]).0@ by {
                            assert(o.entries@[a].0@ != o.entries@[b].0@);
                        }
                    }
                    assert forall|k: Seq<char>| #[trigger]
                        self.has_name(k) <==> o.has_name(k) || k == name@ by {
                        if o.has_name(k) {
                            let j = choose|j: int|
                                0 <= j < o.entries().len() && o.entries()[j].0@ == k;
                            assert(self.entries()[j].0@ == k);
                        }
                        if self.has_name(k) {
                            let j = choose|j: int|
                                0 <= j < self.entries().len() && self.entries()[j].0@ == k;
                            assert(o.entries()[j].0@ == k);
                        }
                    }
                    assert forall|k: Seq<char>| #[trigger]
                        self.count_of(k) == o.count_of(k) + if k == name@ {
                            count as int
                        } else {
                            0
                        } by {
                        if self.has_name(k) {
                            let j = choose|j: int|
                                0 <= j < self.entries().len() && self.entries()[j].0@ == k;
                            self.lemma_count_at(j);
                            o.lemma_count_at(j);
                        }
                    }
                }
                return;
            }
            i = i + 1;
        }
        self.entries.push((key, count));
        proof {
            let o = old(self);
            let n = o.entries().len() as int;
            assert(!o.has_name(name@));
            assert forall|k: Seq<char>| #[trigger]
                self.has_name(k) <==> o.has_name(k) || k == name@ by {
                if o.has_name(k) {
                    let j = choose|j: int| 0 <= j < o.entries().len() && o.entries()[j].0@ == k;
                    assert(self.entries()[j].0@ == k);
                }
                if self.has_name(k) {
                    let j = choose|j: int|
                        0 <= j < self.entries().len() && self.entries()[j].0@ == k;
                    if j < n {
                        assert(o.entries()[j].0@ == k);
                    }
                }
                if k == name@ {
                    assert(self.entries()[n].0@ == k);
                }
            }
            assert(self.has_name(name@)) by {
                assert(self.entries()[n].0@ == name@);
            }
            assert forall|k: Seq<char>| #[trigger]
                self.count_of(k) == o.count_of(k) + if k == name@ {
                    count as int
                } else {
                    0
                } by {
                if self.has_name(k) {
                    let j = choose|j: int|
                        0 <= j < self.entries().len() && self.entries()[j].0@ == k;
                    self.lemma_count_at(j);
                    if j < n {
                        o.lemma_count_at(j);
                    }
                }
            }
        }
    }
}

} // verus!
