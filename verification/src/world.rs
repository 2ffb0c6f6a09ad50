//! What a whole run achieves.
//!
//! The steps of a run say what follows from one outcome. This module puts
//! them end to end: it models the cache and the store that answer the
//! requests of a run, plays a run against them, and shows what holds of the
//! cache and of the store when the run is over.
use crate::batch::{batch_len, embedded, vectors_fit};
use crate::cache::answers_of;
use crate::enrich::{enriched, unenriched};
use crate::chunker::at_least_one;
use crate::index::{
    has_fingerprint, has_lineage, is_work, law_commit_is_complete,
    is_enriched, law_rerun_needs_no_work, law_steps_keep_runs_well_formed, needs_no_call,
    yields_nothing,
    IndexActionView, IndexPhase,
    IndexRunView, IndexSettings, RunReport,
};
use crate::loader::{units_of, LoadedFileView};
use crate::store::{fits_dimension, ids_of, law_upsert_adds_batch, upserted};
use crate::unit::UnitView;
use vstd::prelude::*;

verus! {

/// The services behind a run: the fingerprints that the cache of the
/// namespace holds and the chunks that the store holds under their
/// identifiers; and of the run itself, the identifiers of the chunks that
/// were enriched, the files they were cut from, and the files of which a
/// chunk was written.
pub struct World {
    pub cache: Set<u128>,
    pub store: Map<u128, UnitView>,
    pub enriched: Set<u128>,
    /// The files of which a chunk was enriched.
    pub kept: Set<u128>,
    pub written: Set<u128>,
}

impl World {
    /// The services before a run, with what cache and store hold then.
    pub open spec fn before(cache: Set<u128>, store: Map<u128, UnitView>) -> World {
        World { cache, store, enriched: Set::empty(), kept: Set::empty(), written: Set::empty() }
    }
}

/// What the calls of one step return, whichever of them the step makes.
pub struct Outcome {
    /// What the loader finds.
    pub files: Option<Seq<LoadedFileView>>,
    /// What the model generates for the chunks.
    pub generated: Seq<Option<Seq<char>>>,
    /// What the embedding model returns for the batch.
    pub vectors: Option<Seq<Seq<u32>>>,
    /// Whether the store takes the write.
    pub stored: bool,
}

/// The fingerprints of the files that the chunks of a list were cut from.
pub open spec fn lineages_of(chunks: Seq<UnitView>) -> Set<u128> {
    Set::new(|lineage: u128| has_lineage(chunks, lineage))
}

/// The fingerprints of the files of a list.
pub open spec fn fingerprints_of(files: Seq<UnitView>) -> Set<u128> {
    Set::new(|fingerprint: u128| has_fingerprint(files, fingerprint))
}

/// One step of a run against the services. The cache answers from what it
/// holds and takes what is committed; the store takes a write or refuses
/// it; the other calls return what the outcome says.
pub open spec fn respond(
    run: IndexRunView,
    world: World,
    action: IndexActionView,
    outcome: Outcome,
) -> (IndexRunView, IndexActionView, World) {
    match action {
        IndexActionView::Load => (run.loaded(outcome.files).0, run.loaded(outcome.files).1, world),
        IndexActionView::LookupCache(files) => (
            run.cache_answered(answers_of(world.cache, files)).0,
            run.cache_answered(answers_of(world.cache, files)).1,
            world,
        ),
        IndexActionView::Enrich(_) => (
            run.enriched(outcome.generated).0,
            run.enriched(outcome.generated).1,
            World {
                enriched: ids_of(enriched(run.pending, outcome.generated, run.pending.len())),
                kept: lineages_of(enriched(run.pending, outcome.generated, run.pending.len())),
                ..world
            },
        ),
        IndexActionView::Embed(_) => (
            run.embedded(outcome.vectors).0,
            run.embedded(outcome.vectors).1,
            world,
        ),
        IndexActionView::Upsert(chunks) => if outcome.stored {
            (
                run.stored(true).0,
                run.stored(true).1,
                World {
                    store: upserted(world.store, chunks),
                    written: world.written.union(lineages_of(chunks)),
                    ..world
                },
            )
        } else {
            (run.stored(false).0, run.stored(false).1, world)
        },
        IndexActionView::Commit(files) => (
            run.committed().0,
            run.committed().1,
            World { cache: world.cache.union(fingerprints_of(files)), ..world },
        ),
        IndexActionView::Finish(_) | IndexActionView::Refused => (run, action, world),
    }
}

/// A run played against the services for as many steps as there are outcomes.
pub open spec fn play(
    run: IndexRunView,
    world: World,
    action: IndexActionView,
    outcomes: Seq<Outcome>,
) -> (IndexRunView, IndexActionView, World)
    decreases outcomes.len(),
{
    if outcomes.len() == 0 {
        (run, action, world)
    } else {
        let next = respond(run, world, action, outcomes[0]);
        play(next.0, next.2, next.1, outcomes.drop_first())
    }
}

/// A run that has just been started, and the request it starts with.
pub open spec fn started(settings: IndexSettings, dimension: usize) -> IndexRunView {
    IndexRunView {
        settings,
        dimension,
        phase: IndexPhase::Loading,
        units: Seq::empty(),
        parents: Seq::empty(),
        pending: Seq::empty(),
        batch: Seq::empty(),
        ready: Seq::empty(),
        writing: Seq::empty(),
        failed: Seq::empty(),
        report: RunReport { processed: 0, skipped: 0, errored: 0, failure: None },
    }
}

/// The chunks of a run that are on their way to the store.
pub open spec fn in_flight(run: IndexRunView) -> Seq<UnitView> {
    run.writing + run.ready + run.batch + run.pending
}

/// Whether an action is the request that belongs to the phase of a run.
pub open spec fn in_step(run: IndexRunView, action: IndexActionView) -> bool {
    match run.phase {
        IndexPhase::Created => false,
        IndexPhase::Loading => action == IndexActionView::Load,
        IndexPhase::Filtering => action == IndexActionView::LookupCache(run.units),
        IndexPhase::Enriching => action is Enrich,
        IndexPhase::Embedding => action is Embed,
        IndexPhase::Storing => action == IndexActionView::Upsert(run.writing),
        IndexPhase::Committing => action is Commit,
        IndexPhase::Finished => action is Finish || action is Refused,
    }
}

/// Whether a file is accounted for: it is marked in the cache, or about to
/// be, or one of its chunks is still on its way to the store.
pub open spec fn accounted(
    run: IndexRunView,
    world: World,
    action: IndexActionView,
    lineage: u128,
) -> bool {
    ||| world.cache.contains(lineage)
    ||| has_lineage(in_flight(run), lineage)
    ||| action matches IndexActionView::Commit(files) && has_fingerprint(files, lineage)
}

/// Whether a file of which a chunk was enriched has had a chunk written,
/// or has one on its way to the store.
pub open spec fn followed(run: IndexRunView, world: World, lineage: u128) -> bool {
    world.written.contains(lineage) || has_lineage(in_flight(run), lineage)
}

/// Whether a run has not yet come to embed its first batch.
pub open spec fn is_early(run: IndexRunView) -> bool {
    run.phase == IndexPhase::Loading || run.phase == IndexPhase::Filtering || run.phase
        == IndexPhase::Enriching
}

/// Whether a chunk is in the store or on its way to it.
pub open spec fn on_its_way(run: IndexRunView, world: World, id: u128) -> bool {
    world.store.dom().contains(id) || ids_of(in_flight(run)).contains(id)
}

/// Whether the store holds under an identifier what it held before the
/// run, or else a chunk that the run enriched, with the generated text in
/// its metadata and a vector of the dimension of the namespace.
pub open spec fn well_stored(run: IndexRunView, world: World, held: Map<u128, UnitView>, id: u128) -> bool {
    ||| held.dom().contains(id) && world.store[id] == held[id]
    ||| world.enriched.contains(id) && fits_dimension(world.store[id], run.dimension)
        && is_enriched(world.store[id])
}

/// What holds between a run and the services at every step, where `held`
/// is what the store held before the run. The run is well-formed and waits
/// for the request it made. Nothing is enriched or written before the
/// chunks were enriched, and only enriched chunks are on their way to the
/// store afterwards. What the store holds is well stored. Unless the run
/// has failed, every enriched chunk is in the store or on its way to it,
/// every file of which a chunk was written is accounted for, and every
/// file of which a chunk was enriched has a chunk written or on its way.
pub open spec fn settled(
    run: IndexRunView,
    world: World,
    action: IndexActionView,
    held: Map<u128, UnitView>,
) -> bool {
    &&& run.well_formed()
    &&& in_step(run, action)
    &&& is_early(run) ==> world.store == held && forall|key: u128|
        !world.written.contains(key) && !world.enriched.contains(key) && !world.kept.contains(key)
    &&& !is_early(run) ==> forall|id: u128|
        #[trigger] ids_of(in_flight(run)).contains(id) ==> world.enriched.contains(id)
    &&& forall|id: u128|
        world.store.dom().contains(id) ==> #[trigger] well_stored(run, world, held, id)
    &&& run.report.failure.is_none() ==> forall|id: u128|
        world.enriched.contains(id) ==> #[trigger] on_its_way(run, world, id)
    &&& run.report.failure.is_none() ==> forall|lineage: u128|
        world.written.contains(lineage) ==> #[trigger] accounted(run, world, action, lineage)
    &&& run.report.failure.is_none() ==> forall|lineage: u128|
        world.kept.contains(lineage) ==> #[trigger] followed(run, world, lineage)
}

proof fn lemma_ids_of_parts(a: Seq<UnitView>, b: Seq<UnitView>, id: u128)
    ensures
        ids_of(a + b).contains(id) <==> ids_of(a).contains(id) || ids_of(b).contains(id),
{
    let ab = a + b;
    if ids_of(a).contains(id) {
        let i = choose|i: int| 0 <= i < a.len() && #[trigger] a[i].id == id;
        assert(ab[i].id == id);
    }
    if ids_of(b).contains(id) {
        let i = choose|i: int| 0 <= i < b.len() && #[trigger] b[i].id == id;
        assert(ab[a.len() + i].id == id);
    }
    if ids_of(ab).contains(id) {
        let i = choose|i: int| 0 <= i < ab.len() && #[trigger] ab[i].id == id;
        if i < a.len() {
            assert(a[i].id == id);
        } else {
            assert(b[i - a.len()].id == id);
        }
    }
}

proof fn lemma_ids_of_split(s: Seq<UnitView>, n: int, id: u128)
    requires
        0 <= n <= s.len(),
    ensures
        ids_of(s).contains(id) <==> ids_of(s.take(n)).contains(id) || ids_of(s.skip(n)).contains(
            id,
        ),
{
    assert(s.take(n) + s.skip(n) =~= s);
    lemma_ids_of_parts(s.take(n), s.skip(n), id);
}

proof fn lemma_ids_of_embedded(batch: Seq<UnitView>, vectors: Seq<Seq<u32>>, id: u128)
    ensures
        ids_of(embedded(batch, vectors)).contains(id) <==> ids_of(batch).contains(id),
{
    let out = embedded(batch, vectors);
    if ids_of(batch).contains(id) {
        let i = choose|i: int| 0 <= i < batch.len() && #[trigger] batch[i].id == id;
        assert(out[i].id == id);
    }
    if ids_of(out).contains(id) {
        let i = choose|i: int| 0 <= i < out.len() && #[trigger] out[i].id == id;
        assert(batch[i].id == id);
    }
}

/// The identifiers of what is on its way to the store.
proof fn lemma_ids_in_flight(run: IndexRunView, id: u128)
    ensures
        ids_of(in_flight(run)).contains(id) <==> ids_of(run.writing).contains(id) || ids_of(
            run.ready,
        ).contains(id) || ids_of(run.batch).contains(id) || ids_of(run.pending).contains(id),
{
    lemma_ids_of_parts(run.writing + run.ready + run.batch, run.pending, id);
    lemma_ids_of_parts(run.writing + run.ready, run.batch, id);
    lemma_ids_of_parts(run.writing, run.ready, id);
}

/// Going on to the next request loses no chunk, unless the run fails.
proof fn lemma_advance_keeps_ids(run: IndexRunView, id: u128)
    requires
        run.batch.len() == 0,
        run.writing.len() == 0,
    ensures
        ids_of(in_flight(run.advance().0)).contains(id) ==> ids_of(in_flight(run)).contains(id),
        run.advance().0.report.failure.is_none() ==> (ids_of(in_flight(run.advance().0)).contains(
            id,
        ) <==> ids_of(in_flight(run)).contains(id)),
{
    let next = run.advance().0;
    lemma_ids_in_flight(run, id);
    lemma_ids_in_flight(next, id);
    if run.ready.len() > 0 {
        let n = batch_len(run.ready.len(), at_least_one(run.settings.store_batch)) as int;
        lemma_ids_of_split(run.ready, n, id);
    } else if run.pending.len() > 0 {
        let n = batch_len(run.pending.len(), at_least_one(run.settings.embed_batch)) as int;
        lemma_ids_of_split(run.pending, n, id);
    }
    if next.phase == IndexPhase::Finished {
        assert(in_flight(next) =~= Seq::<UnitView>::empty());
    }
}

/// What stands in the store under an identifier after a write.
proof fn lemma_upserted_value(store: Map<u128, UnitView>, batch: Seq<UnitView>, id: u128)
    requires
        ids_of(batch).contains(id),
    ensures
        exists|i: int| 0 <= i < batch.len() && #[trigger] batch[i] == upserted(store, batch)[id],
    decreases batch.len(),
{
    let before = batch.drop_last();
    if batch.last().id == id {
        assert(batch[batch.len() - 1] == upserted(store, batch)[id]);
    } else {
        let i = choose|i: int| 0 <= i < batch.len() && #[trigger] batch[i].id == id;
        assert(before[i].id == id);
        lemma_upserted_value(store, before, id);
        let j = choose|j: int|
            0 <= j < before.len() && #[trigger] before[j] == upserted(store, before)[id];
        assert(batch[j] == upserted(store, batch)[id]);
    }
}

proof fn lemma_lineage_of_parts(a: Seq<UnitView>, b: Seq<UnitView>, lineage: u128)
    ensures
        has_lineage(a + b, lineage) <==> has_lineage(a, lineage) || has_lineage(b, lineage),
{
    let ab = a + b;
    if has_lineage(a, lineage) {
        let i = choose|i: int| 0 <= i < a.len() && #[trigger] a[i].lineage == lineage;
        assert(ab[i].lineage == lineage);
    }
    if has_lineage(b, lineage) {
        let i = choose|i: int| 0 <= i < b.len() && #[trigger] b[i].lineage == lineage;
        assert(ab[a.len() + i].lineage == lineage);
    }
    if has_lineage(ab, lineage) {
        let i = choose|i: int| 0 <= i < ab.len() && #[trigger] ab[i].lineage == lineage;
        if i < a.len() {
            assert(a[i].lineage == lineage);
        } else {
            assert(b[i - a.len()].lineage == lineage);
        }
    }
}

proof fn lemma_lineage_of_split(s: Seq<UnitView>, n: int, lineage: u128)
    requires
        0 <= n <= s.len(),
    ensures
        has_lineage(s, lineage) <==> has_lineage(s.take(n), lineage) || has_lineage(
            s.skip(n),
            lineage,
        ),
{
    assert(s.take(n) + s.skip(n) =~= s);
    lemma_lineage_of_parts(s.take(n), s.skip(n), lineage);
}

proof fn lemma_lineage_of_embedded(batch: Seq<UnitView>, vectors: Seq<Seq<u32>>, lineage: u128)
    ensures
        has_lineage(embedded(batch, vectors), lineage) <==> has_lineage(batch, lineage),
{
    let out = embedded(batch, vectors);
    if has_lineage(batch, lineage) {
        let i = choose|i: int| 0 <= i < batch.len() && #[trigger] batch[i].lineage == lineage;
        assert(out[i].lineage == lineage);
    }
    if has_lineage(out, lineage) {
        let i = choose|i: int| 0 <= i < out.len() && #[trigger] out[i].lineage == lineage;
        assert(batch[i].lineage == lineage);
    }
}

/// The parts of what is on its way to the store.
proof fn lemma_in_flight(run: IndexRunView, lineage: u128)
    ensures
        has_lineage(in_flight(run), lineage) <==> has_lineage(run.writing, lineage) || has_lineage(
            run.ready,
            lineage,
        ) || has_lineage(run.batch, lineage) || has_lineage(run.pending, lineage),
{
    lemma_lineage_of_parts(run.writing + run.ready + run.batch, run.pending, lineage);
    lemma_lineage_of_parts(run.writing + run.ready, run.batch, lineage);
    lemma_lineage_of_parts(run.writing, run.ready, lineage);
}

/// Going on to the next request loses no chunk, unless the run fails.
proof fn lemma_advance_keeps_in_flight(run: IndexRunView, lineage: u128)
    requires
        run.batch.len() == 0,
        run.writing.len() == 0,
        run.advance().0.report.failure.is_none(),
    ensures
        has_lineage(in_flight(run.advance().0), lineage) <==> has_lineage(in_flight(run), lineage),
{
    let next = run.advance().0;
    lemma_in_flight(run, lineage);
    lemma_in_flight(next, lineage);
    if run.ready.len() > 0 {
        let n = batch_len(run.ready.len(), at_least_one(run.settings.store_batch)) as int;
        lemma_lineage_of_split(run.ready, n, lineage);
    } else if run.pending.len() > 0 {
        let n = batch_len(run.pending.len(), at_least_one(run.settings.embed_batch)) as int;
        lemma_lineage_of_split(run.pending, n, lineage);
    }
}

/// One step keeps a run and the services settled.
proof fn lemma_respond_keeps_settled(
    run: IndexRunView,
    world: World,
    action: IndexActionView,
    held: Map<u128, UnitView>,
    outcome: Outcome,
)
    requires
        settled(run, world, action, held),
    ensures
        settled(
            respond(run, world, action, outcome).0,
            respond(run, world, action, outcome).2,
            respond(run, world, action, outcome).1,
            held,
        ),
        world.cache.subset_of(respond(run, world, action, outcome).2.cache),
{
    let next = respond(run, world, action, outcome);
    let (run2, action2, world2) = next;
    law_steps_keep_runs_well_formed(
        run,
        outcome.files,
        match action {
            IndexActionView::LookupCache(files) => answers_of(world.cache, files),
            _ => Seq::empty(),
        },
        outcome.generated,
        outcome.vectors,
        outcome.stored,
    );
    match action {
        IndexActionView::Load => {
            assert(in_flight(run2) =~= Seq::<UnitView>::empty());
        },
        IndexActionView::LookupCache(files) => {
            if run2.phase == IndexPhase::Finished {
                assert(in_flight(run2) =~= Seq::<UnitView>::empty());
            }
        },
        IndexActionView::Enrich(_) => {
            let kept = enriched(run.pending, outcome.generated, run.pending.len());
            let mid = IndexRunView {
                pending: kept,
                failed: run.failed + unenriched(run.pending, outcome.generated, run.pending.len()),
                report: run.report.with_errored(run.pending.len() - kept.len()),
                ..run
            };
            assert(run2 == mid.advance().0);
            assert(in_flight(mid) =~= kept);
            assert forall|id: u128| #[trigger]
                ids_of(in_flight(run2)).contains(id) implies world2.enriched.contains(id) by {
                lemma_advance_keeps_ids(mid, id);
            }
            if run2.report.failure.is_none() {
                assert forall|id: u128| world2.enriched.contains(id) implies #[trigger] on_its_way(
                    run2,
                    world2,
                    id,
                ) by {
                    lemma_advance_keeps_ids(mid, id);
                }
                assert forall|lineage: u128| world2.kept.contains(lineage) implies #[trigger] followed(
                    run2,
                    world2,
                    lineage,
                ) by {
                    lemma_advance_keeps_in_flight(mid, lineage);
                }
            }
            assert forall|id: u128| world2.store.dom().contains(id) implies #[trigger] well_stored(
                run2,
                world2,
                held,
                id,
            ) by {
                assert(well_stored(run, world, held, id));
            }
        },
        IndexActionView::Embed(_) => {
            if vectors_fit(run.batch, outcome.vectors, run.dimension) {
                let mid = IndexRunView {
                    batch: Seq::empty(),
                    ready: embedded(run.batch, outcome.vectors->0),
                    ..run
                };
                assert(run2 == mid.advance().0);
                assert forall|id: u128|
                    ids_of(in_flight(mid)).contains(id) <==> ids_of(in_flight(run)).contains(
                        id,
                    ) by {
                    lemma_ids_in_flight(mid, id);
                    lemma_ids_in_flight(run, id);
                    lemma_ids_of_embedded(run.batch, outcome.vectors->0, id);
                    assert(ids_of(Seq::<UnitView>::empty()) =~= Set::<u128>::empty());
                }
                assert forall|id: u128| #[trigger]
                    ids_of(in_flight(run2)).contains(id) implies world2.enriched.contains(id) by {
                    lemma_advance_keeps_ids(mid, id);
                }
                if run2.report.failure.is_none() {
                    assert forall|id: u128| world2.enriched.contains(id) implies #[trigger] on_its_way(
                        run2,
                        world2,
                        id,
                    ) by {
                        assert(on_its_way(run, world, id));
                        lemma_advance_keeps_ids(mid, id);
                    }
                    assert forall|lineage: u128| world2.written.contains(lineage) implies #[trigger] accounted(
                        run2,
                        world2,
                        action2,
                        lineage,
                    ) by {
                        assert(accounted(run, world, action, lineage));
                        lemma_advance_keeps_in_flight(mid, lineage);
                        lemma_in_flight(mid, lineage);
                        lemma_in_flight(run, lineage);
                        lemma_lineage_of_embedded(run.batch, outcome.vectors->0, lineage);
                    }
                    assert forall|lineage: u128| world2.kept.contains(lineage) implies #[trigger] followed(
                        run2,
                        world2,
                        lineage,
                    ) by {
                        assert(followed(run, world, lineage));
                        lemma_advance_keeps_in_flight(mid, lineage);
                        lemma_in_flight(mid, lineage);
                        lemma_in_flight(run, lineage);
                        lemma_lineage_of_embedded(run.batch, outcome.vectors->0, lineage);
                    }
                }
            } else {
                assert(in_flight(run2) =~= Seq::<UnitView>::empty());
            }
            assert forall|id: u128| world2.store.dom().contains(id) implies #[trigger] well_stored(
                run2,
                world2,
                held,
                id,
            ) by {
                assert(well_stored(run, world, held, id));
            }
        },
        IndexActionView::Upsert(chunks) => {
            if outcome.stored {
                let waiting = run.ready + run.pending;
                law_upsert_adds_batch(world.store, chunks);
                assert forall|id: u128| #[trigger]
                    ids_of(in_flight(run2)).contains(id) implies world2.enriched.contains(id) by {
                    lemma_ids_in_flight(run, id);
                    lemma_ids_in_flight(run2, id);
                    assert(ids_of(Seq::<UnitView>::empty()) =~= Set::<u128>::empty());
                }
                assert forall|id: u128| world2.store.dom().contains(id) implies #[trigger] well_stored(
                    run2,
                    world2,
                    held,
                    id,
                ) by {
                    if ids_of(chunks).contains(id) {
                        lemma_upserted_value(world.store, chunks, id);
                        let i = choose|i: int|
                            0 <= i < chunks.len() && #[trigger] chunks[i] == upserted(
                                world.store,
                                chunks,
                            )[id];
                        assert(fits_dimension(run.writing[i], run.dimension));
                        assert(is_enriched(run.writing[i]));
                        lemma_ids_in_flight(run, id);
                    } else {
                        assert(well_stored(run, world, held, id));
                    }
                }
                if run.report.failure.is_none() {
                    assert forall|id: u128| world2.enriched.contains(id) implies #[trigger] on_its_way(
                        run2,
                        world2,
                        id,
                    ) by {
                        assert(on_its_way(run, world, id));
                        lemma_ids_in_flight(run, id);
                        lemma_ids_in_flight(run2, id);
                    }
                    assert forall|lineage: u128| world2.written.contains(lineage) implies #[trigger] accounted(
                        run2,
                        world2,
                        action2,
                        lineage,
                    ) by {
                        lemma_in_flight(run, lineage);
                        lemma_in_flight(run2, lineage);
                        lemma_lineage_of_parts(run.ready, run.pending, lineage);
                        if world.written.contains(lineage) {
                            assert(accounted(run, world, action, lineage));
                        }
                        if !world.cache.contains(lineage) && !has_lineage(waiting, lineage) {
                            assert(has_lineage(run.writing, lineage));
                            let i = choose|i: int|
                                0 <= i < run.writing.len() && #[trigger] run.writing[i].lineage
                                    == lineage;
                            law_commit_is_complete(run, i);
                        }
                    }
                    assert forall|lineage: u128| world2.kept.contains(lineage) implies #[trigger] followed(
                        run2,
                        world2,
                        lineage,
                    ) by {
                        assert(followed(run, world, lineage));
                        lemma_in_flight(run, lineage);
                        lemma_in_flight(run2, lineage);
                    }
                }
            } else {
                assert(in_flight(run2) =~= Seq::<UnitView>::empty());
                assert forall|id: u128| world2.store.dom().contains(id) implies #[trigger] well_stored(
                    run2,
                    world2,
                    held,
                    id,
                ) by {
                    assert(well_stored(run, world, held, id));
                }
            }
        },
        IndexActionView::Commit(files) => {
            assert forall|id: u128| #[trigger]
                ids_of(in_flight(run2)).contains(id) implies world2.enriched.contains(id) by {
                lemma_advance_keeps_ids(run, id);
            }
            assert forall|id: u128| world2.store.dom().contains(id) implies #[trigger] well_stored(
                run2,
                world2,
                held,
                id,
            ) by {
                assert(well_stored(run, world, held, id));
            }
            if run2.report.failure.is_none() {
                assert forall|id: u128| world2.enriched.contains(id) implies #[trigger] on_its_way(
                    run2,
                    world2,
                    id,
                ) by {
                    assert(on_its_way(run, world, id));
                    lemma_advance_keeps_ids(run, id);
                }
                assert forall|lineage: u128| world2.written.contains(lineage) implies #[trigger] accounted(
                    run2,
                    world2,
                    action2,
                    lineage,
                ) by {
                    assert(accounted(run, world, action, lineage));
                    lemma_advance_keeps_in_flight(run, lineage);
                }
                assert forall|lineage: u128| world2.kept.contains(lineage) implies #[trigger] followed(
                    run2,
                    world2,
                    lineage,
                ) by {
                    assert(followed(run, world, lineage));
                    lemma_advance_keeps_in_flight(run, lineage);
                }
            }
        },
        IndexActionView::Finish(_) => {},
        IndexActionView::Refused => {},
    }
}

/// Playing keeps a run and the services settled, and the cache forgets nothing.
proof fn lemma_play_keeps_settled(
    run: IndexRunView,
    world: World,
    action: IndexActionView,
    held: Map<u128, UnitView>,
    outcomes: Seq<Outcome>,
)
    requires
        settled(run, world, action, held),
    ensures
        settled(
            play(run, world, action, outcomes).0,
            play(run, world, action, outcomes).2,
            play(run, world, action, outcomes).1,
            held,
        ),
        world.cache.subset_of(play(run, world, action, outcomes).2.cache),
    decreases outcomes.len(),
{
    if outcomes.len() > 0 {
        let next = respond(run, world, action, outcomes[0]);
        lemma_respond_keeps_settled(run, world, action, held, outcomes[0]);
        lemma_play_keeps_settled(next.0, next.2, next.1, held, outcomes.drop_first());
    }
}

/// A run that has just been started is settled with the services.
proof fn lemma_started_is_settled(
    settings: IndexSettings,
    dimension: usize,
    cache: Set<u128>,
    store: Map<u128, UnitView>,
)
    ensures
        settled(
            started(settings, dimension),
            World::before(cache, store),
            IndexActionView::Load,
            store,
        ),
{
    let run = started(settings, dimension);
    let world = World::before(cache, store);
    assert forall|id: u128| world.store.dom().contains(id) implies #[trigger] well_stored(
        run,
        world,
        store,
        id,
    ) by {}
}

/// The end of a run that is played from its start against the services.
pub open spec fn played(
    settings: IndexSettings,
    dimension: usize,
    cache: Set<u128>,
    store: Map<u128, UnitView>,
    outcomes: Seq<Outcome>,
) -> (IndexRunView, IndexActionView, World) {
    play(started(settings, dimension), World::before(cache, store), IndexActionView::Load, outcomes)
}

/// When a run has ended without a failure, every file of which it has
/// enriched or written a chunk is marked in the cache, and so is every file
/// that was marked before. This holds whatever the loader found, whatever
/// the models returned, and however the chunks fell into batches.
pub proof fn law_finished_run_marks_its_files(
    settings: IndexSettings,
    dimension: usize,
    cache: Set<u128>,
    store: Map<u128, UnitView>,
    outcomes: Seq<Outcome>,
    lineage: u128,
)
    requires
        played(settings, dimension, cache, store, outcomes).0.phase == IndexPhase::Finished,
        played(settings, dimension, cache, store, outcomes).0.report.failure.is_none(),
        played(settings, dimension, cache, store, outcomes).2.written.contains(lineage)
            || played(settings, dimension, cache, store, outcomes).2.kept.contains(lineage)
            || cache.contains(lineage),
    ensures
        played(settings, dimension, cache, store, outcomes).2.cache.contains(lineage),
{
    let run = started(settings, dimension);
    let world = World::before(cache, store);
    lemma_started_is_settled(settings, dimension, cache, store);
    lemma_play_keeps_settled(run, world, IndexActionView::Load, store, outcomes);
    let end = played(settings, dimension, cache, store, outcomes);
    assert(in_flight(end.0) =~= Seq::<UnitView>::empty());
    if end.2.kept.contains(lineage) {
        assert(followed(end.0, end.2, lineage));
    }
    if end.2.written.contains(lineage) {
        assert(accounted(end.0, end.2, end.1, lineage));
        lemma_in_flight(end.0, lineage);
    }
}

/// Indexing is idempotent. Let a run over a corpus have ended without a
/// failure, and let the corpus be indexed again, unchanged. If every file
/// was skipped by the first run, or had a chunk written by it, or gives no
/// chunk at all, the answers of the cache end the second run at once: it
/// asks for no generation, no embedding and no write.
pub proof fn law_second_run_makes_no_call(
    settings: IndexSettings,
    dimension: usize,
    cache: Set<u128>,
    store: Map<u128, UnitView>,
    outcomes: Seq<Outcome>,
    second: IndexRunView,
)
    requires
        played(settings, dimension, cache, store, outcomes).0.phase == IndexPhase::Finished,
        played(settings, dimension, cache, store, outcomes).0.report.failure.is_none(),
        second.phase == IndexPhase::Filtering,
        forall|i: int|
            0 <= i < second.units.len() ==> cache.contains((#[trigger] second.units[i]).fingerprint)
                || played(settings, dimension, cache, store, outcomes).2.written.contains(
                second.units[i].fingerprint,
            ) || yields_nothing(second.units[i], second.settings),
    ensures
        ({
            let marked = played(settings, dimension, cache, store, outcomes).2.cache;
            let next = second.cache_answered(answers_of(marked, second.units));
            &&& !is_work(next.1)
            &&& next.1 is Finish
            &&& next.0.report.processed == second.report.processed
        }),
{
    let end = played(settings, dimension, cache, store, outcomes);
    assert forall|i: int| 0 <= i < second.units.len() implies needs_no_call(
        #[trigger] second.units[i],
        end.2.cache,
        second.settings,
    ) by {
        if !yields_nothing(second.units[i], second.settings) {
            law_finished_run_marks_its_files(
                settings,
                dimension,
                cache,
                store,
                outcomes,
                second.units[i].fingerprint,
            );
        }
    }
    law_rerun_needs_no_work(second, end.2.cache);
}

/// Once the chunks were enriched, the files of the enriched chunks stay
/// the same to the end of the run.
proof fn lemma_play_keeps_kept(
    run: IndexRunView,
    world: World,
    action: IndexActionView,
    held: Map<u128, UnitView>,
    outcomes: Seq<Outcome>,
)
    requires
        settled(run, world, action, held),
        !is_early(run),
    ensures
        play(run, world, action, outcomes).2.kept == world.kept,
    decreases outcomes.len(),
{
    if outcomes.len() > 0 {
        let next = respond(run, world, action, outcomes[0]);
        lemma_respond_keeps_settled(run, world, action, held, outcomes[0]);
        lemma_play_keeps_kept(next.0, next.2, next.1, held, outcomes.drop_first());
    }
}

/// Which files have a chunk enriched: the files of the chunks for which the
/// model generated a text when the run asked for it. Here `loaded` is the
/// run after the loader has answered and `cut` the run after the cache has.
pub proof fn law_kept_files_had_a_chunk_enriched(
    settings: IndexSettings,
    dimension: usize,
    cache: Set<u128>,
    store: Map<u128, UnitView>,
    outcomes: Seq<Outcome>,
)
    requires
        outcomes.len() >= 3,
    ensures
        ({
            let loaded = started(settings, dimension).loaded(outcomes[0].files).0;
            let cut = loaded.cache_answered(answers_of(cache, loaded.units)).0;
            cut.phase == IndexPhase::Enriching ==> played(
                settings,
                dimension,
                cache,
                store,
                outcomes,
            ).2.kept == lineages_of(enriched(cut.pending, outcomes[2].generated, cut.pending.len()))
        }),
{
    let run = started(settings, dimension);
    let world = World::before(cache, store);
    let loaded = run.loaded(outcomes[0].files).0;
    let cut = loaded.cache_answered(answers_of(cache, loaded.units)).0;
    if cut.phase == IndexPhase::Enriching {
        lemma_started_is_settled(settings, dimension, cache, store);
        let first = respond(run, world, IndexActionView::Load, outcomes[0]);
        lemma_respond_keeps_settled(run, world, IndexActionView::Load, store, outcomes[0]);
        let rest = outcomes.drop_first();
        assert(first.0 == loaded);
        assert(loaded.phase == IndexPhase::Filtering);
        assert(rest[0] == outcomes[1]);
        let second = respond(first.0, first.2, first.1, rest[0]);
        lemma_respond_keeps_settled(first.0, first.2, first.1, store, rest[0]);
        assert(second.0 == cut);
        let last = rest.drop_first();
        assert(last[0] == outcomes[2]);
        let third = respond(second.0, second.2, second.1, last[0]);
        lemma_respond_keeps_settled(second.0, second.2, second.1, store, last[0]);
        assert(third.2.kept == lineages_of(
            enriched(cut.pending, outcomes[2].generated, cut.pending.len()),
        ));
        lemma_play_keeps_kept(third.0, third.2, third.1, store, last.drop_first());
        assert(play(run, world, IndexActionView::Load, outcomes) == play(
            first.0,
            first.2,
            first.1,
            rest,
        ));
        assert(play(first.0, first.2, first.1, rest) == play(second.0, second.2, second.1, last));
        assert(play(second.0, second.2, second.1, last) == play(
            third.0,
            third.2,
            third.1,
            last.drop_first(),
        ));
    }
}

/// A run that is over stays as it is, and so do the services.
proof fn lemma_play_of_finished(
    run: IndexRunView,
    world: World,
    action: IndexActionView,
    outcomes: Seq<Outcome>,
)
    requires
        action is Finish,
    ensures
        play(run, world, action, outcomes) == (run, action, world),
    decreases outcomes.len(),
{
    if outcomes.len() > 0 {
        lemma_play_of_finished(run, world, action, outcomes.drop_first());
    }
}

/// A run over files that need no call, played from its start: it loads the
/// files, asks the cache and is over, and the services are left as they
/// were.
proof fn lemma_play_without_work(
    settings: IndexSettings,
    dimension: usize,
    world: World,
    files: Seq<LoadedFileView>,
    outcomes: Seq<Outcome>,
)
    requires
        outcomes.len() >= 1 ==> outcomes[0].files == Some(files),
        forall|i: int|
            0 <= i < units_of(files, settings.class, files.len()).len() ==> needs_no_call(
                #[trigger] units_of(files, settings.class, files.len())[i],
                world.cache,
                settings,
            ),
    ensures
        play(started(settings, dimension), world, IndexActionView::Load, outcomes).2 == world,
        !is_work(play(started(settings, dimension), world, IndexActionView::Load, outcomes).1),
        outcomes.len() >= 2 ==> ({
            let end = play(started(settings, dimension), world, IndexActionView::Load, outcomes);
            &&& end.0.phase == IndexPhase::Finished
            &&& end.0.report.failure.is_none()
            &&& end.0.report.processed == 0
            &&& end.1 is Finish
        }),
{
    let run = started(settings, dimension);
    if outcomes.len() >= 1 {
        let first = respond(run, world, IndexActionView::Load, outcomes[0]);
        let rest = outcomes.drop_first();
        assert(first.2 == world);
        assert(first.0.phase == IndexPhase::Filtering);
        assert(first.1 == IndexActionView::LookupCache(first.0.units));
        assert(first.0.units == units_of(files, settings.class, files.len()));
        law_rerun_needs_no_work(first.0, world.cache);
        if rest.len() >= 1 {
            let second = respond(first.0, first.2, first.1, rest[0]);
            assert(second.2 == world);
            assert(second.1 is Finish);
            lemma_play_of_finished(second.0, second.2, second.1, rest.drop_first());
            assert(play(first.0, first.2, first.1, rest) == play(
                second.0,
                second.2,
                second.1,
                rest.drop_first(),
            ));
        } else {
            assert(play(first.0, first.2, first.1, rest) == first);
        }
    }
}

/// Indexing an unchanged corpus again does nothing. Let a run over the
/// files have ended without a failure, and let every file have been known
/// to the cache before, or give no chunk, or have had one of its chunks
/// enriched. Then a second run over the same files, played against the
/// cache and the store as the first run left them, asks for no generation,
/// no embedding, no write and no commit at any step, and ends without a
/// failure having processed nothing. The store and the cache are left as
/// the first run left them.
pub proof fn law_unchanged_corpus_is_not_indexed_again(
    settings: IndexSettings,
    dimension: usize,
    cache: Set<u128>,
    store: Map<u128, UnitView>,
    outcomes: Seq<Outcome>,
    files: Seq<LoadedFileView>,
    again: Seq<Outcome>,
    steps: int,
)
    requires
        outcomes.len() >= 1,
        outcomes[0].files == Some(files),
        played(settings, dimension, cache, store, outcomes).0.phase == IndexPhase::Finished,
        played(settings, dimension, cache, store, outcomes).0.report.failure.is_none(),
        forall|i: int|
            0 <= i < units_of(files, settings.class, files.len()).len() ==> {
                let unit = #[trigger] units_of(files, settings.class, files.len())[i];
                ||| cache.contains(unit.fingerprint)
                ||| yields_nothing(unit, settings)
                ||| played(settings, dimension, cache, store, outcomes).2.kept.contains(
                    unit.fingerprint,
                )
            },
        again.len() >= 2,
        again[0].files == Some(files),
        0 <= steps <= again.len(),
    ensures
        ({
            let first = played(settings, dimension, cache, store, outcomes).2;
            let second = played(settings, dimension, first.cache, first.store, again);
            let so_far = played(settings, dimension, first.cache, first.store, again.take(steps));
            &&& !is_work(so_far.1)
            &&& second.1 is Finish
            &&& second.0.report.failure.is_none()
            &&& second.0.report.processed == 0
            &&& second.2.store == first.store
            &&& second.2.cache == first.cache
        }),
{
    let first = played(settings, dimension, cache, store, outcomes).2;
    let units = units_of(files, settings.class, files.len());
    assert forall|i: int| 0 <= i < units.len() implies needs_no_call(
        #[trigger] units[i],
        first.cache,
        settings,
    ) by {
        if !yields_nothing(units[i], settings) {
            law_finished_run_marks_its_files(
                settings,
                dimension,
                cache,
                store,
                outcomes,
                units[i].fingerprint,
            );
        }
    }
    let world = World::before(first.cache, first.store);
    lemma_play_without_work(settings, dimension, world, files, again);
    let prefix = again.take(steps);
    if steps >= 1 {
        assert(prefix[0] == again[0]);
    }
    lemma_play_without_work(settings, dimension, world, files, prefix);
}

/// Failures stay where they happen: when a run has ended without a
/// failure, every chunk that was enriched is in the store, whatever became
/// of the chunks that were not. And nothing else has come into the store:
/// what it holds is what it held before or a chunk that the run enriched.
pub proof fn law_finished_run_stores_what_it_enriched(
    settings: IndexSettings,
    dimension: usize,
    cache: Set<u128>,
    store: Map<u128, UnitView>,
    outcomes: Seq<Outcome>,
)
    requires
        played(settings, dimension, cache, store, outcomes).0.phase == IndexPhase::Finished,
        played(settings, dimension, cache, store, outcomes).0.report.failure.is_none(),
    ensures
        played(settings, dimension, cache, store, outcomes).2.enriched.subset_of(
            played(settings, dimension, cache, store, outcomes).2.store.dom(),
        ),
        played(settings, dimension, cache, store, outcomes).2.store.dom().subset_of(
            store.dom().union(played(settings, dimension, cache, store, outcomes).2.enriched),
        ),
{
    let run = started(settings, dimension);
    let world = World::before(cache, store);
    lemma_started_is_settled(settings, dimension, cache, store);
    lemma_play_keeps_settled(run, world, IndexActionView::Load, store, outcomes);
    let end = played(settings, dimension, cache, store, outcomes);
    assert(in_flight(end.0) =~= Seq::<UnitView>::empty());
    assert forall|id: u128| end.2.enriched.contains(id) implies end.2.store.dom().contains(id) by {
        assert(on_its_way(end.0, end.2, id));
    }
    assert forall|id: u128| end.2.store.dom().contains(id) implies store.dom().union(
        end.2.enriched,
    ).contains(id) by {
        assert(well_stored(end.0, end.2, store, id));
    }
}

/// Namespace isolation over a whole run: however a run goes, what it
/// leaves in the store under an identifier is what the store held there
/// before, or a chunk with a vector of the dimension of the namespace and
/// with the text that was generated for it in its metadata, which is
/// therefore not empty.
pub proof fn law_run_writes_only_fitting_vectors(
    settings: IndexSettings,
    dimension: usize,
    cache: Set<u128>,
    store: Map<u128, UnitView>,
    outcomes: Seq<Outcome>,
    id: u128,
)
    requires
        played(settings, dimension, cache, store, outcomes).2.store.dom().contains(id),
    ensures
        ({
            let end = played(settings, dimension, cache, store, outcomes).2.store;
            (store.dom().contains(id) && end[id] == store[id]) || (fits_dimension(
                end[id],
                dimension,
            ) && is_enriched(end[id]) && end[id].metadata != Map::<Seq<char>, Seq<char>>::empty())
        }),
{
    let run = started(settings, dimension);
    let world = World::before(cache, store);
    lemma_started_is_settled(settings, dimension, cache, store);
    lemma_play_keeps_settled(run, world, IndexActionView::Load, store, outcomes);
    let end = played(settings, dimension, cache, store, outcomes);
    assert(well_stored(end.0, end.2, store, id));
    lemma_play_keeps_dimension(run, world, IndexActionView::Load, outcomes);
    if is_enriched(end.2.store[id]) {
        assert(!Map::<Seq<char>, Seq<char>>::empty().dom().contains(
            crate::enrich::enrichment_key(end.2.store[id].class),
        ));
    }
}

/// Playing does not change the dimension of a run.
proof fn lemma_play_keeps_dimension(
    run: IndexRunView,
    world: World,
    action: IndexActionView,
    outcomes: Seq<Outcome>,
)
    ensures
        play(run, world, action, outcomes).0.dimension == run.dimension,
    decreases outcomes.len(),
{
    if outcomes.len() > 0 {
        let next = respond(run, world, action, outcomes[0]);
        lemma_play_keeps_dimension(next.0, next.2, next.1, outcomes.drop_first());
    }
}

} // verus!
