//! Skipping what a namespace already holds.
//!
//! Before a unit is processed, the fingerprint cache of the namespace is
//! asked whether its content was indexed before. A unit that was is dropped
//! without further work. The policy for a cache that cannot be reached is to
//! fail open: the unit is processed again, which costs calls but never loses
//! content.
use crate::error::PipelineError;
use crate::unit::{unit_views, Unit, UnitView};
use vstd::prelude::*;

verus! {

/// What the cache said of one fingerprint.
#[derive(Clone, Copy, Debug, PartialEq, Eq, Structural)]
pub enum CacheAnswer {
    /// The content is marked as indexed in the namespace.
    Indexed,
    /// The cache holds no record of the content.
    Absent,
    /// The cache could not be reached.
    Unavailable,
}

impl CacheAnswer {
    /// The error that an answer reports: a cache that cannot be reached is a
    /// cache error. The run goes on all the same.
    pub open spec fn spec_error(self) -> Option<PipelineError> {
        if self == CacheAnswer::Unavailable {
            Some(PipelineError::CacheError)
        } else {
            None
        }
    }

    #[verifier::when_used_as_spec(spec_error)]
    pub fn error(self) -> (error: Option<PipelineError>)
        ensures
            error == self.spec_error(),
    {
        match self {
            CacheAnswer::Unavailable => Some(PipelineError::CacheError),
            CacheAnswer::Indexed | CacheAnswer::Absent => None,
        }
    }
}

/// The answer for the unit at index `i`; a missing answer counts as unavailable.
pub open spec fn answer_at(answers: Seq<CacheAnswer>, i: int) -> CacheAnswer {
    if 0 <= i < answers.len() {
        answers[i]
    } else {
        CacheAnswer::Unavailable
    }
}

/// Those of the first `n` units that are not marked as indexed, in order.
pub open spec fn fresh_units(units: Seq<UnitView>, answers: Seq<CacheAnswer>, n: nat) -> Seq<
    UnitView,
>
    decreases n,
{
    if n == 0 {
        Seq::empty()
    } else if answer_at(answers, n - 1) == CacheAnswer::Indexed {
        fresh_units(units, answers, (n - 1) as nat)
    } else {
        fresh_units(units, answers, (n - 1) as nat).push(units[n - 1])
    }
}

/// The answers of a cache that holds the given fingerprints.
pub open spec fn answers_of(cache: Set<u128>, units: Seq<UnitView>) -> Seq<CacheAnswer> {
    Seq::new(
        units.len(),
        |i: int|
            if cache.contains(units[i].fingerprint) {
                CacheAnswer::Indexed
            } else {
                CacheAnswer::Absent
            },
    )
}

/// The units that go on, and the number of those that were dropped.
#[derive(Debug, PartialEq, Eq)]
pub struct CacheFiltered {
    pub fresh: Vec<Unit>,
    pub skipped: usize,
}

/// Drops the units whose answer is `Indexed` and keeps the others in order.
/// `answers[i]` belongs to `units[i]`.
pub fn filter_cached(units: Vec<Unit>, answers: &Vec<CacheAnswer>) -> (out: CacheFiltered)
    ensures
        unit_views(out.fresh@) == fresh_units(unit_views(units@), answers@, units.len() as nat),
        out.skipped == units.len() - out.fresh.len(),
{
    let ghost all = unit_views(units@);
    let total = units.len();
    let mut fresh: Vec<Unit> = Vec::new();
    let mut i: usize = 0;
    for unit in it: units
        invariant
            unit_views(it.seq()) == all,
            it.seq().len() == total,
            i == it.index(),
            fresh.len() <= i,
            unit_views(fresh@) == fresh_units(all, answers@, i as nat),
    {
        let indexed = i < answers.len() && matches!(answers[i], CacheAnswer::Indexed);
        if !indexed {
            let ghost before = unit_views(fresh@);
            assert(all[i as int] == unit@);
            fresh.push(unit);
            assert(unit_views(fresh@) =~= before.push(all[i as int]));
        }
        i += 1;
    }
    let skipped = total - fresh.len();
    CacheFiltered { fresh, skipped }
}

/// How many of the first `n` answers say `Indexed`.
pub open spec fn indexed_count(answers: Seq<CacheAnswer>, n: nat) -> nat
    decreases n,
{
    if n == 0 {
        0
    } else if answer_at(answers, n - 1) == CacheAnswer::Indexed {
        indexed_count(answers, (n - 1) as nat) + 1
    } else {
        indexed_count(answers, (n - 1) as nat)
    }
}

/// The units that go on and those that are skipped add up to all units.
pub proof fn law_filter_partitions(units: Seq<UnitView>, answers: Seq<CacheAnswer>, n: nat)
    ensures
        fresh_units(units, answers, n).len() + indexed_count(answers, n) == n,
    decreases n,
{
    if n > 0 {
        law_filter_partitions(units, answers, (n - 1) as nat);
    }
}

/// A corpus whose every fingerprint is in the cache needs no work: no unit
/// goes on to be chunked, enriched or embedded.
pub proof fn law_cached_corpus_is_skipped(cache: Set<u128>, units: Seq<UnitView>, n: nat)
    requires
        n <= units.len(),
        forall|i: int| 0 <= i < units.len() ==> cache.contains(#[trigger] units[i].fingerprint),
    ensures
        fresh_units(units, answers_of(cache, units), n) == Seq::<UnitView>::empty(),
        indexed_count(answers_of(cache, units), n) == n,
    decreases n,
{
    if n > 0 {
        law_cached_corpus_is_skipped(cache, units, (n - 1) as nat);
        assert(cache.contains(units[n - 1].fingerprint));
    }
}

/// Failing open: where no answer says `Indexed`, every unit goes on, in order.
pub proof fn law_fail_open(units: Seq<UnitView>, answers: Seq<CacheAnswer>, n: nat)
    requires
        n <= units.len(),
        forall|i: int| 0 <= i < n ==> answer_at(answers, i) != CacheAnswer::Indexed,
    ensures
        fresh_units(units, answers, n) == units.take(n as int),
    decreases n,
{
    if n > 0 {
        law_fail_open(units, answers, (n - 1) as nat);
        assert(units.take(n as int) =~= units.take(n - 1).push(units[n - 1]));
    } else {
        assert(units.take(0) =~= Seq::<UnitView>::empty());
    }
}

} // verus!
