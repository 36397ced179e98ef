//! Anything that can draw one item from a random generator, and a sampler
//! that combines the draws of two others.
use vstd::prelude::*;
use rand::rngs::StdRng;
use crate::freq::FreqChoice;
use crate::rng::{draw_below, fresh_rng};

verus! {

/// A source of random items.
pub trait SampleFrom {
    type Item;

    /// The sampler is ready to draw.
    spec fn ready(&self) -> bool;

    /// `x` is an item that a draw may give.
    spec fn may_yield(&self, x: Self::Item) -> bool;

    /// Draw one item using `rng`.
    fn sample_using(&self, rng: &mut StdRng) -> (r: Self::Item)
        requires
            self.ready(),
        ensures
            self.may_yield(r),
    ;

    /// Draw one item using a generator seeded by the operating system.
    fn sample(&self) -> (r: Self::Item)
        requires
            self.ready(),
        ensures
            self.may_yield(r),
    {
        let mut rng = fresh_rng();
        self.sample_using(&mut rng)
    }
}

impl SampleFrom for FreqChoice {
    type Item = String;

    open spec fn ready(&self) -> bool {
        self.wf()
    }

    open spec fn may_yield(&self, x: String) -> bool {
        exists|o: int| 0 <= o < self.total_weight() && x == self.item_at(o)
    }

    /// Draws an offset uniformly from `[0, total)` and looks it up.
    fn sample_using(&self, rng: &mut StdRng) -> (r: String) {
        let offset = draw_below(rng, self.total());
        self.sample_at(offset)
    }
}

/// A full name: the given name, a space, then the surname.
pub fn full_name(first: String, last: String) -> (r: String)
    ensures
        r@ == first@ + seq![' '] + last@,
{
    let mut name = first;
    name.append(" ");
    name.append(last.as_str());
    proof {
        reveal_strlit(" ");
    }
    name
}

/// Two samplers and a function that combines one draw of each.
pub struct SamplerPair<A, B, F> {
    pub first: A,
    pub second: B,
    pub combiner: F,
}

impl<A, B, F, T> SampleFrom for SamplerPair<A, B, F> where
    A: SampleFrom,
    B: SampleFrom,
    F: Fn(A::Item, B::Item) -> T,
 {
    type Item = T;

    open spec fn ready(&self) -> bool {
        &&& self.first.ready()
        &&& self.second.ready()
        &&& forall|a: A::Item, b: B::Item| #[trigger] self.combiner.requires((a, b))
    }

    open spec fn may_yield(&self, x: T) -> bool {
        exists|a: A::Item, b: B::Item|
            self.first.may_yield(a) && self.second.may_yield(b) && #[trigger] self.combiner.ensures(
                (a, b),
                x,
            )
    }

    /// Draws from the first sampler, then from the second, and combines.
    fn sample_using(&self, rng: &mut StdRng) -> (r: T) {
        let a = self.first.sample_using(rng);
        let b = self.second.sample_using(rng);
        (self.combiner)(a, b)
    }
}

/// A pair of one-entry tables, combined by a function that joins with a
/// space, only ever yields the one given name, a space, then the one surname.
pub proof fn lemma_single_entry_pair<F: Fn(String, String) -> String>(
    p: &SamplerPair<FreqChoice, FreqChoice, F>,
    x: String,
)
    requires
        p.ready(),
        p.first.len() == 1,
        p.second.len() == 1,
        forall|a: String, b: String, y: String| #[trigger]
            p.combiner.ensures((a, b), y) ==> y@ == a@ + seq![' '] + b@,
        p.may_yield(x),
    ensures
        x@ == p.first.item(0)@ + seq![' '] + p.second.item(0)@,
{
    let (a, b) = choose|a: String, b: String|
        p.first.may_yield(a) && p.second.may_yield(b) && #[trigger] p.combiner.ensures((a, b), x);
    let oa = choose|o: int| 0 <= o < p.first.total_weight() && a == p.first.item_at(o);
    let ob = choose|o: int| 0 <= o < p.second.total_weight() && b == p.second.item_at(o);
    p.first.lemma_some_owner(oa);
    p.second.lemma_some_owner(ob);
}

} // verus!
