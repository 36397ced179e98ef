//! A stream of distinct samples drawn from an underlying sampler.
use vstd::prelude::*;
use bloomfilter::Bloom;
use rand::rngs::StdRng;
use crate::sampler::SampleFrom;

verus! {

#[verifier::external_type_specification]
#[verifier::external_body]
#[verifier::reject_recursive_types(T)]
pub struct ExBloom<T: ?Sized>(Bloom<T>);

/// The strings that have been recorded in a filter.
pub uninterp spec fn bloom_members(b: Bloom<String>) -> Set<Seq<char>>;

/// Relies on `bloomfilter::Bloom::new`: a filter with `bitmap_size` bytes of
/// clear bits, sized for `items_count` items, in which nothing is recorded.
/// It panics when either size is zero or the number of bits overflows.
#[verifier::external_body]
fn empty_filter(bitmap_size: usize, items_count: usize) -> (r: Bloom<String>)
    requires
        0 < bitmap_size <= usize::MAX / 8,
        items_count > 0,
    ensures
        bloom_members(r) == Set::<Seq<char>>::empty(),
{
    Bloom::new(bitmap_size, items_count)
}

/// Relies on `bloomfilter::Bloom::check_and_set`: it records `x` and reports
/// whether all of its bits were already set, which holds whenever `x` had
/// been recorded before (false positives are possible, false negatives not).
#[verifier::external_body]
fn check_and_record(b: &mut Bloom<String>, x: &String) -> (r: bool)
    ensures
        bloom_members(*final(b)) == bloom_members(*old(b)).insert(x@),
        bloom_members(*old(b)).contains(x@) ==> r,
{
    b.check_and_set(x)
}

/// The views of a sequence of strings.
pub open spec fn views(v: Seq<String>) -> Seq<Seq<char>> {
    v.map_values(|s: String| s@)
}

/// `after` is `before` with more entries at its end.
pub open spec fn extends<A>(before: Seq<A>, after: Seq<A>) -> bool {
    before.len() <= after.len() && after.take(before.len() as int) == before
}

/// The entries that `after` holds beyond `before`.
pub open spec fn step_log<A>(before: Seq<A>, after: Seq<A>) -> Seq<A> {
    after.skip(before.len() as int)
}

/// The filter reported every draw of `d` as seen before.
pub open spec fn all_seen(d: Seq<(Seq<char>, bool)>) -> bool {
    forall|i: int| 0 <= i < d.len() ==> (#[trigger] d[i]).1
}

/// `d` is the log of a step that yielded `x`: draws reported as seen, then
/// `x`, reported as new, and no more draws than the limit.
pub open spec fn yielded_after(d: Seq<(Seq<char>, bool)>, x: Seq<char>) -> bool {
    &&& 1 <= d.len() <= MAX_DRAWS_PER_ITEM
    &&& d.last() == (x, false)
    &&& all_seen(d.drop_last())
}

/// `d` is the log of a step that gave up: the limit of draws, all of them
/// reported as seen.
pub open spec fn gave_up(d: Seq<(Seq<char>, bool)>) -> bool {
    d.len() == MAX_DRAWS_PER_ITEM && all_seen(d)
}

/// How many draws one step makes at most before it gives up on finding an
/// item that has not been seen.
pub const MAX_DRAWS_PER_ITEM: u64 = 1_000_000;

/// Why a stream stopped before yielding all of its items.
#[derive(Debug, Clone, Copy, PartialEq, Eq, Structural)]
pub enum StreamError {
    /// Every draw of one step gave an item already seen: the underlying
    /// population looks too small for the requested count.
    PopulationTooSmall,
}

/// A stream of distinct random samples from an underlying sampler.
///
/// No item is yielded twice. A distinct item may be skipped when the filter
/// mistakes it for one already seen. Ensuring that the sampler holds at
/// least twice `count` distinct values keeps the number of draws small.
pub struct UniqueSampler<'a, S: SampleFrom<Item = String>> {
    source: &'a S,
    seen: Bloom<String>,
    remaining: usize,
    rng: &'a mut StdRng,
    yielded: Ghost<Seq<Seq<char>>>,
    draws: Ghost<Seq<(Seq<char>, bool)>>,
}

impl<'a, S: SampleFrom<Item = String>> UniqueSampler<'a, S> {
    /// The sampler drawn from.
    pub closed spec fn source(&self) -> &'a S {
        self.source
    }

    /// How many items the stream will still yield.
    pub closed spec fn remaining_count(&self) -> nat {
        self.remaining as nat
    }

    /// The items yielded so far, in order.
    pub closed spec fn yielded(&self) -> Seq<Seq<char>> {
        self.yielded@
    }

    /// Every draw made so far, with the filter's answer to whether it had
    /// been seen before.
    pub closed spec fn draw_log(&self) -> Seq<(Seq<char>, bool)> {
        self.draws@
    }

    pub closed spec fn wf(&self) -> bool {
        &&& self.source.ready()
        &&& self.yielded@.no_duplicates()
        &&& forall|i: int|
            0 <= i < self.yielded@.len() ==> bloom_members(self.seen).contains(
                #[trigger] self.yielded@[i],
            )
    }

    /// Create a stream of `count` distinct random samples from `source`,
    /// drawn with `rng`.
    pub fn new(source: &'a S, count: usize, rng: &'a mut StdRng) -> (r: Self)
        requires
            source.ready(),
        ensures
            r.wf(),
            r.source() == source,
            r.remaining_count() == count,
            r.yielded() == Seq::<Seq<char>>::empty(),
            r.draw_log() == Seq::<(Seq<char>, bool)>::empty(),
    {
        let items = if count == 0 {
            1
        } else {
            count
        };
        let bytes = if items <= usize::MAX / 8 {
            items / 2 + items / 8 + 1
        } else {
            usize::MAX / 8
        };
        UniqueSampler {
            source,
            seen: empty_filter(bytes, items),
            remaining: count,
            rng,
            yielded: Ghost(Seq::empty()),
            draws: Ghost(Seq::empty()),
        }
    }

    /// How many items the stream will still yield.
    pub fn remaining(&self) -> (r: usize)
        ensures
            r == self.remaining_count(),
    {
        self.remaining
    }

    /// The next distinct item: `None` once `count` items have been yielded.
    /// Draws until the filter reports an item as new, at most
    /// `MAX_DRAWS_PER_ITEM` times.
    pub fn next(&mut self) -> (r: Result<Option<String>, StreamError>)
        requires
            old(self).wf(),
        ensures
            final(self).wf(),
            final(self).source() == old(self).source(),
            old(self).remaining_count() == 0 ==> r == Ok::<Option<String>, StreamError>(None)
                && *final(self) == *old(self),
            old(self).remaining_count() > 0 ==> extends(old(self).draw_log(), final(self).draw_log()),
            old(self).remaining_count() > 0 ==> match r {
                Ok(Some(x)) => {
                    &&& old(self).source().may_yield(x)
                    &&& !old(self).yielded().contains(x@)
                    &&& final(self).yielded() == old(self).yielded().push(x@)
                    &&& final(self).remaining_count() == old(self).remaining_count() - 1
                    &&& yielded_after(step_log(old(self).draw_log(), final(self).draw_log()), x@)
                },
                Ok(None) => false,
                Err(StreamError::PopulationTooSmall) => {
                    &&& final(self).yielded() == old(self).yielded()
                    &&& final(self).remaining_count() == old(self).remaining_count()
                    &&& gave_up(step_log(old(self).draw_log(), final(self).draw_log()))
                },
            },
    {
        if self.remaining == 0 {
            return Ok(None);
        }
        let mut draws: u64 = 0;
        let ghost mut step: Seq<(Seq<char>, bool)> = Seq::empty();
        while draws < MAX_DRAWS_PER_ITEM
            invariant
                self.wf(),
                self.source == old(self).source,
                self.remaining == old(self).remaining,
                self.remaining > 0,
                self.yielded@ == old(self).yielded@,
                self.draws@ == old(self).draws@ + step,
                step.len() == draws,
                draws <= MAX_DRAWS_PER_ITEM,
                all_seen(step),
            decreases MAX_DRAWS_PER_ITEM - draws,
        {
            let x = self.source.sample_using(self.rng);
            let already = check_and_record(&mut self.seen, &x);
            proof {
                let before = step;
                step = step.push((x@, already));
                self.draws = Ghost(old(self).draws@ + step);
                assert(step.drop_last() == before);
                assert(step.skip(0) == step);
            }
            if !already {
                proof {
                    assert((old(self).draws@ + step).skip(old(self).draws@.len() as int) =~= step);
                    assert((old(self).draws@ + step).take(old(self).draws@.len() as int) =~= old(self).draws@);
                    let old_y = self.yielded@;
                    assert(!old_y.contains(x@));
                    self.yielded = Ghost(old_y.push(x@));
                    assert forall|i: int| 0 <= i < self.yielded@.len() implies bloom_members(
                        self.seen,
                    ).contains(#[trigger] self.yielded@[i]) by {
                        if i < old_y.len() {
                            assert(self.yielded@[i] == old_y[i]);
                        }
                    }
                }
                self.remaining = self.remaining - 1;
                return Ok(Some(x));
            }
            draws = draws + 1;
        }
        proof {
            assert((old(self).draws@ + step).skip(old(self).draws@.len() as int) =~= step);
            assert((old(self).draws@ + step).take(old(self).draws@.len() as int) =~= old(self).draws@);
        }
        Err(StreamError::PopulationTooSmall)
    }

    /// Drain the stream: all the items it has still to yield, in order.
    pub fn take_all(&mut self) -> (r: Result<Vec<String>, StreamError>)
        requires
            old(self).wf(),
        ensures
            final(self).wf(),
            final(self).source() == old(self).source(),
            match r {
                Ok(v) => {
                    &&& v@.len() == old(self).remaining_count()
                    &&& views(v@).no_duplicates()
                    &&& forall|i: int|
                        0 <= i < v@.len() ==> #[trigger] old(self).source().may_yield(v@[i])
                            && !old(self).yielded().contains(v@[i]@)
                    &&& final(self).yielded() == old(self).yielded() + views(v@)
                    &&& final(self).remaining_count() == 0
                },
                Err(StreamError::PopulationTooSmall) => {
                    &&& final(self).remaining_count() > 0
                    &&& final(self).draw_log().len() >= old(self).draw_log().len()
                        + MAX_DRAWS_PER_ITEM
                    &&& gave_up(
                        final(self).draw_log().skip(
                            final(self).draw_log().len() - MAX_DRAWS_PER_ITEM,
                        ),
                    )
                },
            },
            extends(old(self).draw_log(), final(self).draw_log()),
    {
        let mut out: Vec<String> = Vec::new();
        let ghost start = self.yielded@;
        assert(self.draws@.take(self.draws@.len() as int) =~= self.draws@);
        while self.remaining > 0
            invariant
                self.wf(),
                self.source == old(self).source,
                start == old(self).yielded@,
                self.yielded@ == start + views(out@),
                out@.len() + self.remaining == old(self).remaining,
                extends(old(self).draws@, self.draws@),
                forall|i: int|
                    0 <= i < out@.len() ==> #[trigger] old(self).source.may_yield(out@[i]),
            decreases self.remaining,
        {
            let ghost before = out@;
            let ghost log_before = self.draws@;
            match self.next() {
                Ok(Some(x)) => {
                    out.push(x);
                    proof {
                        let o = old(self).draws@;
                        let a = self.draws@;
                        assert(a.take(o.len() as int) =~= a.take(log_before.len() as int).take(
                            o.len() as int,
                        ));
                        assert(views(out@) == views(before).push(x@));
                        assert(start + views(out@) == (start + views(before)).push(x@));
                    }
                },
                Ok(None) => {},
                Err(e) => {
                    proof {
                        let o = old(self).draws@;
                        let a = self.draws@;
                        assert(a.take(o.len() as int) =~= a.take(log_before.len() as int).take(
                            o.len() as int,
                        ));
                        assert(a.skip(a.len() - MAX_DRAWS_PER_ITEM) =~= a.skip(
                            log_before.len() as int,
                        ));
                    }
                    return Err(e);
                },
            }
        }
        proof {
            let y = self.yielded@;
            let vs = views(out@);
            assert forall|i: int, j: int| 0 <= i < j < vs.len() implies vs[i] != vs[j] by {
                assert(y[start.len() + i] == vs[i]);
                assert(y[start.len() + j] == vs[j]);
            }
            assert forall|i: int| 0 <= i < out@.len() implies !start.contains(
                #[trigger] out@[i]@,
            ) by {
                assert(y[start.len() + i] == vs[i]);
                if start.contains(out@[i]@) {
                    let k = choose|k: int| 0 <= k < start.len() && start[k] == out@[i]@;
                    assert(y[k] == start[k]);
                }
            }
        }
        Ok(out)
    }
}

} // verus!
