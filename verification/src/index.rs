//! One run of the indexing pipeline over a corpus.
//!
//! A run is a state machine. Each of its steps takes the outcome of the call
//! that the run was waiting for and answers with the call to make next: load
//! the files, ask the cache, enrich the chunks, embed a batch, write it to
//! the store, commit fingerprints to the cache. The caller makes the calls,
//! with whatever concurrency, timeouts and retries it likes; the run decides
//! what they are made with and what follows from them.
use crate::batch::{
    assign_embeddings, batch_len, batches_of, check_vectors, embeddables_of, embedded,
    embedding_inputs, option_bits, take_batch, vectors_fit,
};
use crate::cache::{
    answers_of, filter_cached, fresh_units, law_cached_corpus_is_skipped, law_filter_partitions,
    CacheAnswer,
};
use crate::chunker::{
    at_least_one, chunk_all, chunk_in_place, cut_all, cut_one, law_chunk_bounds, made_ready,
    pieces_of, placed, prepared, rejected_from, ChunkRange,
};
use crate::enrich::{
    apply_enrichment, enriched, enrichment_key, law_enrichment_partitions, unenriched,
};
use crate::error::PipelineError;
use crate::loader::{
    file_views, load_units, units_of, unreadable_of, LoadedFile, LoadedFileView,
};
use crate::namespace::Namespace;
use crate::store::{batch_fits, check_dimension, fits_dimension};
use crate::text::{option_text_list, texts_of};
use crate::unit::{duplicate_all, mark_all, marked, unit_views, ContentClass, Unit, UnitView};
use vstd::prelude::*;

verus! {

/// The number of components of the vectors of the embedding model.
pub const EMBEDDING_SIZE: usize = 384;

/// How one class of content is indexed.
#[derive(Clone, Copy, Debug, PartialEq, Eq, Structural)]
pub struct IndexSettings {
    pub class: ContentClass,
    /// The lengths that a chunk may have.
    pub chunk_range: ChunkRange,
    /// How many chunks one embedding call takes; zero counts as one.
    pub embed_batch: usize,
    /// How many chunks one write to the store takes; zero counts as one.
    pub store_batch: usize,
    /// Source files of at least this many characters get an outline.
    pub outline_min: Option<usize>,
    /// How many calls the caller may have in flight when a request covers
    /// several chunks or files; zero counts as one.
    pub concurrency: usize,
}

impl IndexSettings {
    /// The settings for markdown files.
    pub fn prose() -> (settings: IndexSettings)
        ensures
            settings == (IndexSettings {
                class: ContentClass::Prose,
                chunk_range: ChunkRange { min: 100, max: 5000 },
                embed_batch: 100,
                store_batch: 50,
                outline_min: None,
                concurrency: 8,
            }),
    {
        IndexSettings {
            class: ContentClass::Prose,
            chunk_range: ChunkRange { min: 100, max: 5000 },
            embed_batch: 100,
            store_batch: 50,
            outline_min: None,
            concurrency: 8,
        }
    }

    /// The settings for Rust source files.
    pub fn code() -> (settings: IndexSettings)
        ensures
            settings == (IndexSettings {
                class: ContentClass::Code,
                chunk_range: ChunkRange { min: 10, max: 2048 },
                embed_batch: 10,
                store_batch: 50,
                outline_min: Some(2048usize),
                concurrency: 8,
            }),
    {
        IndexSettings {
            class: ContentClass::Code,
            chunk_range: ChunkRange { min: 10, max: 2048 },
            embed_batch: 10,
            store_batch: 50,
            outline_min: Some(2048),
            concurrency: 8,
        }
    }
}

/// A count that stays at the largest number where it would exceed it.
pub open spec fn capped(count: int) -> usize {
    if count > usize::MAX {
        usize::MAX
    } else if count < 0 {
        0
    } else {
        count as usize
    }
}

/// What a run has done so far. The counts stay at the largest number where
/// they would exceed it. When an error ends a run, the chunks that were
/// still waiting are counted nowhere.
#[derive(Clone, Copy, Debug, PartialEq, Eq, Structural)]
pub struct RunReport {
    /// Chunks that were written to the store.
    pub processed: usize,
    /// Files that were skipped because the cache knows their content.
    pub skipped: usize,
    /// Files, pieces and chunks that an error took out of the run.
    pub errored: usize,
    /// The error that ended the run, if one did.
    pub failure: Option<PipelineError>,
}

/// The call that a run is waiting for.
#[derive(Clone, Copy, Debug, PartialEq, Eq, Structural)]
pub enum IndexPhase {
    Created,
    Loading,
    Filtering,
    Enriching,
    Embedding,
    Storing,
    Committing,
    Finished,
}

/// The call that the caller is asked to make next.
#[derive(Debug, PartialEq, Eq)]
pub enum IndexAction {
    /// Enumerate the files of the corpus and read them.
    Load,
    /// Ask the cache of the namespace whether it knows the fingerprint of
    /// each of these files.
    LookupCache(Vec<Unit>),
    /// Generate retrieval metadata for each of these chunks.
    Enrich(Vec<Unit>),
    /// Embed these texts in one call.
    Embed(Vec<String>),
    /// Write these chunks to the namespace in one call.
    Upsert(Vec<Unit>),
    /// Mark the fingerprints of these files as indexed in the cache of the
    /// namespace.
    Commit(Vec<Unit>),
    /// Nothing: the run is over, and this is its report.
    Finish(RunReport),
    /// Nothing: the run was not waiting for this outcome and has not moved.
    Refused,
}

/// An action with its payload as mathematical values.
pub enum IndexActionView {
    Load,
    LookupCache(Seq<UnitView>),
    Enrich(Seq<UnitView>),
    Embed(Seq<Seq<char>>),
    Upsert(Seq<UnitView>),
    Commit(Seq<UnitView>),
    Finish(RunReport),
    Refused,
}

impl View for IndexAction {
    type V = IndexActionView;

    open spec fn view(&self) -> IndexActionView {
        match self {
            IndexAction::Load => IndexActionView::Load,
            IndexAction::LookupCache(units) => IndexActionView::LookupCache(unit_views(units@)),
            IndexAction::Enrich(chunks) => IndexActionView::Enrich(unit_views(chunks@)),
            IndexAction::Embed(texts) => IndexActionView::Embed(texts_of(texts@)),
            IndexAction::Upsert(chunks) => IndexActionView::Upsert(unit_views(chunks@)),
            IndexAction::Commit(units) => IndexActionView::Commit(unit_views(units@)),
            IndexAction::Finish(report) => IndexActionView::Finish(*report),
            IndexAction::Refused => IndexActionView::Refused,
        }
    }
}

/// One run of the indexing pipeline for one class of content.
#[derive(Debug, PartialEq, Eq)]
pub struct IndexRun {
    pub settings: IndexSettings,
    /// The dimension of the namespace that the run writes to.
    pub dimension: usize,
    pub phase: IndexPhase,
    /// Files that wait for the answer of the cache.
    pub units: Vec<Unit>,
    /// Files that are being indexed and are not yet marked in the cache.
    pub parents: Vec<Unit>,
    /// Chunks that wait to be enriched or to be embedded.
    pub pending: Vec<Unit>,
    /// The batch that is being embedded.
    pub batch: Vec<Unit>,
    /// Embedded chunks that wait to be written.
    pub ready: Vec<Unit>,
    /// The chunks that are being written.
    pub writing: Vec<Unit>,
    /// What an error took out of the run, each marked with its error: files
    /// that could not be read, pieces that did not become chunks, and
    /// chunks that could not be enriched.
    pub failed: Vec<Unit>,
    pub report: RunReport,
}

/// The state of a run as mathematical values.
pub struct IndexRunView {
    pub settings: IndexSettings,
    pub dimension: usize,
    pub phase: IndexPhase,
    pub units: Seq<UnitView>,
    pub parents: Seq<UnitView>,
    pub pending: Seq<UnitView>,
    pub batch: Seq<UnitView>,
    pub ready: Seq<UnitView>,
    pub writing: Seq<UnitView>,
    pub failed: Seq<UnitView>,
    pub report: RunReport,
}

impl View for IndexRun {
    type V = IndexRunView;

    open spec fn view(&self) -> IndexRunView {
        IndexRunView {
            settings: self.settings,
            dimension: self.dimension,
            phase: self.phase,
            units: unit_views(self.units@),
            parents: unit_views(self.parents@),
            pending: unit_views(self.pending@),
            batch: unit_views(self.batch@),
            ready: unit_views(self.ready@),
            writing: unit_views(self.writing@),
            failed: unit_views(self.failed@),
            report: self.report,
        }
    }
}

/// Whether a chunk of the list was cut from the file with this fingerprint.
pub open spec fn has_lineage(units: Seq<UnitView>, lineage: u128) -> bool {
    exists|i: int| 0 <= i < units.len() && #[trigger] units[i].lineage == lineage
}

/// The fingerprints to commit after the first `n` chunks of `written` were
/// stored: those of the files that they were cut from and of which no chunk
/// is left in `waiting`, each once, in the order of the chunks.
pub open spec fn completed(written: Seq<UnitView>, waiting: Seq<UnitView>, n: nat) -> Seq<u128>
    decreases n,
{
    if n == 0 {
        Seq::empty()
    } else {
        let before = completed(written, waiting, (n - 1) as nat);
        let lineage = written[n - 1].lineage;
        if has_lineage(waiting, lineage) || before.contains(lineage) {
            before
        } else {
            before.push(lineage)
        }
    }
}

/// Those of the first `n` files whose fingerprint is in the list, in order.
pub open spec fn chosen(files: Seq<UnitView>, fingerprints: Seq<u128>, n: nat) -> Seq<UnitView>
    decreases n,
{
    if n == 0 {
        Seq::empty()
    } else if fingerprints.contains(files[n - 1].fingerprint) {
        chosen(files, fingerprints, (n - 1) as nat).push(files[n - 1])
    } else {
        chosen(files, fingerprints, (n - 1) as nat)
    }
}

impl RunReport {
    /// The report with `count` more chunks written.
    pub open spec fn with_processed(self, count: int) -> RunReport {
        RunReport { processed: capped(self.processed + count), ..self }
    }

    /// The report with `count` more files skipped.
    pub open spec fn with_skipped(self, count: int) -> RunReport {
        RunReport { skipped: capped(self.skipped + count), ..self }
    }

    /// The report with `count` more items lost to errors.
    pub open spec fn with_errored(self, count: int) -> RunReport {
        RunReport { errored: capped(self.errored + count), ..self }
    }

    /// The report of a run that `error` ended.
    pub open spec fn failed_with(self, error: PipelineError) -> RunReport {
        RunReport { failure: Some(error), ..self }
    }
}

impl IndexRunView {
    /// The run, over, and the action that says so.
    pub open spec fn finish(self, report: RunReport) -> (IndexRunView, IndexActionView) {
        (
            IndexRunView {
                phase: IndexPhase::Finished,
                units: Seq::empty(),
                parents: Seq::empty(),
                pending: Seq::empty(),
                batch: Seq::empty(),
                ready: Seq::empty(),
                writing: Seq::empty(),
                report,
                ..self
            },
            IndexActionView::Finish(report),
        )
    }

    /// The run, ended by an error that failed the given chunks: they are
    /// counted as errored and kept with the failed, marked with the error.
    pub open spec fn fail(self, chunks: Seq<UnitView>, error: PipelineError) -> (
        IndexRunView,
        IndexActionView,
    ) {
        (IndexRunView { failed: self.failed + marked(chunks, error), ..self }).finish(
            self.report.with_errored(chunks.len() as int).failed_with(error),
        )
    }

    /// The run refuses an outcome it was not waiting for.
    pub open spec fn refuse(self) -> (IndexRunView, IndexActionView) {
        (self, IndexActionView::Refused)
    }

    /// The next call of a run that is waiting for none: write the next
    /// embedded chunks, else embed the next batch, else finish. Chunks are
    /// only handed to the store if their vectors have the dimension of the
    /// namespace; otherwise the run ends with an embedding error.
    pub open spec fn advance(self) -> (IndexRunView, IndexActionView) {
        if self.ready.len() > 0 {
            let n = batch_len(self.ready.len(), at_least_one(self.settings.store_batch)) as int;
            if batch_fits(self.ready.take(n), self.dimension) {
                (
                    IndexRunView {
                        phase: IndexPhase::Storing,
                        writing: self.ready.take(n),
                        ready: self.ready.skip(n),
                        ..self
                    },
                    IndexActionView::Upsert(self.ready.take(n)),
                )
            } else {
                self.fail(self.ready.take(n), PipelineError::EmbeddingError)
            }
        } else if self.pending.len() > 0 {
            let n = batch_len(self.pending.len(), at_least_one(self.settings.embed_batch)) as int;
            (
                IndexRunView {
                    phase: IndexPhase::Embedding,
                    batch: self.pending.take(n),
                    pending: self.pending.skip(n),
                    ..self
                },
                IndexActionView::Embed(embeddables_of(self.pending.take(n))),
            )
        } else {
            self.finish(self.report)
        }
    }

    /// The caller gives the run up. Nothing more is asked for; what was
    /// written and committed so far stays as it is, and the report says how
    /// far the run came.
    pub open spec fn cancel(self) -> (IndexRunView, IndexActionView) {
        if self.phase == IndexPhase::Finished {
            self.refuse()
        } else {
            self.finish(self.report)
        }
    }

    /// The first step: ask for the files.
    pub open spec fn start(self) -> (IndexRunView, IndexActionView) {
        if self.phase == IndexPhase::Created {
            (IndexRunView { phase: IndexPhase::Loading, ..self }, IndexActionView::Load)
        } else {
            self.refuse()
        }
    }

    /// The files were loaded, or the root could not be read (`None`), which
    /// ends the run with a load error. Files of the class of the run become
    /// units; one that could not be read is counted as errored. The cache is
    /// then asked about every unit.
    pub open spec fn loaded(self, files: Option<Seq<LoadedFileView>>) -> (
        IndexRunView,
        IndexActionView,
    ) {
        if self.phase != IndexPhase::Loading {
            self.refuse()
        } else {
            match files {
                None => self.finish(self.report.failed_with(PipelineError::LoadError)),
                Some(list) => {
                    let units = units_of(list, self.settings.class, list.len());
                    (
                        IndexRunView {
                            phase: IndexPhase::Filtering,
                            units,
                            failed: self.failed + unreadable_of(
                                list,
                                self.settings.class,
                                list.len(),
                            ),
                            report: self.report.with_errored(
                                unreadable_of(list, self.settings.class, list.len()).len() as int,
                            ),
                            ..self
                        },
                        IndexActionView::LookupCache(units),
                    )
                },
            }
        }
    }

    /// The cache has answered. Units that it knows are skipped; the others
    /// are cut into chunks, which are handed out to be enriched. What was
    /// turned down is counted as errored and kept with the failed. With no
    /// chunk to work on the run is over.
    pub open spec fn cache_answered(self, answers: Seq<CacheAnswer>) -> (
        IndexRunView,
        IndexActionView,
    ) {
        if self.phase != IndexPhase::Filtering {
            self.refuse()
        } else {
            let fresh = fresh_units(self.units, answers, self.units.len());
            let cut = cut_all(
                fresh,
                self.settings.chunk_range,
                self.settings.outline_min,
                fresh.len(),
            );
            let report = self.report.with_skipped(self.units.len() - fresh.len()).with_errored(
                cut.1.len() as int,
            );
            let failed = self.failed + cut.1;
            if cut.0.len() == 0 {
                (IndexRunView { failed, ..self }).finish(report)
            } else {
                (
                    IndexRunView {
                        phase: IndexPhase::Enriching,
                        units: Seq::empty(),
                        parents: fresh,
                        pending: cut.0,
                        failed,
                        report,
                        ..self
                    },
                    IndexActionView::Enrich(cut.0),
                )
            }
        }
    }

    /// The chunks were enriched, or not (`None` at their index). Those that
    /// were not are counted as errored and kept with the failed; the others
    /// go on to be embedded.
    pub open spec fn enriched(self, answers: Seq<Option<Seq<char>>>) -> (
        IndexRunView,
        IndexActionView,
    ) {
        if self.phase != IndexPhase::Enriching {
            self.refuse()
        } else {
            let kept = enriched(self.pending, answers, self.pending.len());
            (IndexRunView {
                pending: kept,
                failed: self.failed + unenriched(self.pending, answers, self.pending.len()),
                report: self.report.with_errored(self.pending.len() - kept.len()),
                ..self
            }).advance()
        }
    }

    /// The batch was embedded, or the call failed (`None`). Unless there is
    /// one vector of the right dimension for every chunk, the run ends with
    /// an embedding error and the chunks of the batch count as errored.
    pub open spec fn embedded(self, vectors: Option<Seq<Seq<u32>>>) -> (
        IndexRunView,
        IndexActionView,
    ) {
        if self.phase != IndexPhase::Embedding {
            self.refuse()
        } else if vectors_fit(self.batch, vectors, self.dimension) {
            (IndexRunView {
                batch: Seq::empty(),
                ready: embedded(self.batch, vectors->0),
                ..self
            }).advance()
        } else {
            self.fail(self.batch, PipelineError::EmbeddingError)
        }
    }

    /// The write succeeded or failed. After a success the files that are
    /// now stored completely are handed out to be marked in the cache. A
    /// failure ends the run with a store error; nothing is committed for the
    /// chunks of the failed write.
    pub open spec fn stored(self, ok: bool) -> (IndexRunView, IndexActionView) {
        if self.phase != IndexPhase::Storing {
            self.refuse()
        } else if ok {
            (
                IndexRunView {
                    phase: IndexPhase::Committing,
                    writing: Seq::empty(),
                    report: self.report.with_processed(self.writing.len() as int),
                    ..self
                },
                IndexActionView::Commit(
                    chosen(
                        self.parents,
                        completed(self.writing, self.ready + self.pending, self.writing.len()),
                        self.parents.len(),
                    ),
                ),
            )
        } else {
            self.fail(self.writing, PipelineError::StoreError)
        }
    }

    /// The fingerprints were handed to the cache. Whether the cache took
    /// them does not matter to the run: a unit that is not marked is only
    /// processed again.
    pub open spec fn committed(self) -> (IndexRunView, IndexActionView) {
        if self.phase != IndexPhase::Committing {
            self.refuse()
        } else {
            self.advance()
        }
    }
}

/// Whether a chunk of the list was cut from the file with this fingerprint.
pub fn any_of_lineage(units: &Vec<Unit>, lineage: u128) -> (found: bool)
    ensures
        found == has_lineage(unit_views(units@), lineage),
{
    let mut i: usize = 0;
    while i < units.len()
        invariant
            i <= units.len(),
            forall|j: int| 0 <= j < i ==> (#[trigger] unit_views(units@)[j]).lineage != lineage,
        decreases units.len() - i,
    {
        if units[i].lineage == lineage {
            assert(unit_views(units@)[i as int].lineage == lineage);
            return true;
        }
        i += 1;
    }
    false
}

/// Whether a number is in a list.
fn holds(list: &Vec<u128>, value: u128) -> (found: bool)
    ensures
        found == list@.contains(value),
{
    let mut i: usize = 0;
    while i < list.len()
        invariant
            i <= list.len(),
            forall|j: int| 0 <= j < i ==> list@[j] != value,
        decreases list.len() - i,
    {
        if list[i] == value {
            return true;
        }
        i += 1;
    }
    false
}

/// Copies of the files whose fingerprint is in the list, in order.
pub fn choose_files(files: &Vec<Unit>, fingerprints: &Vec<u128>) -> (out: Vec<Unit>)
    ensures
        unit_views(out@) == chosen(unit_views(files@), fingerprints@, files.len() as nat),
{
    let mut out: Vec<Unit> = Vec::new();
    let mut i: usize = 0;
    assert(unit_views(out@) =~= Seq::<UnitView>::empty());
    while i < files.len()
        invariant
            i <= files.len(),
            unit_views(out@) == chosen(unit_views(files@), fingerprints@, i as nat),
        decreases files.len() - i,
    {
        if holds(fingerprints, files[i].fingerprint) {
            let ghost before = unit_views(out@);
            let copy = files[i].duplicate();
            out.push(copy);
            assert(unit_views(out@) =~= before.push(copy@));
        }
        i += 1;
    }
    out
}

/// The fingerprints to commit after `written` was stored while `ready` and
/// `pending` still wait.
pub fn completed_lineages(written: &Vec<Unit>, ready: &Vec<Unit>, pending: &Vec<Unit>) -> (out:
    Vec<u128>)
    ensures
        out@ == completed(
            unit_views(written@),
            unit_views(ready@) + unit_views(pending@),
            written.len() as nat,
        ),
{
    let ghost waiting = unit_views(ready@) + unit_views(pending@);
    let mut out: Vec<u128> = Vec::new();
    let mut i: usize = 0;
    while i < written.len()
        invariant
            i <= written.len(),
            waiting == unit_views(ready@) + unit_views(pending@),
            out@ == completed(unit_views(written@), waiting, i as nat),
        decreases written.len() - i,
    {
        let lineage = written[i].lineage;
        let in_ready = any_of_lineage(ready, lineage);
        let in_pending = any_of_lineage(pending, lineage);
        proof {
            let r = unit_views(ready@);
            let p = unit_views(pending@);
            if has_lineage(r, lineage) {
                let j = choose|j: int| 0 <= j < r.len() && #[trigger] r[j].lineage == lineage;
                assert(waiting[j].lineage == lineage);
            }
            if has_lineage(p, lineage) {
                let j = choose|j: int| 0 <= j < p.len() && #[trigger] p[j].lineage == lineage;
                assert(waiting[r.len() + j].lineage == lineage);
            }
            if has_lineage(waiting, lineage) {
                let j = choose|j: int|
                    0 <= j < waiting.len() && #[trigger] waiting[j].lineage == lineage;
                if j < r.len() {
                    assert(r[j].lineage == lineage);
                } else {
                    assert(p[j - r.len()].lineage == lineage);
                }
            }
        }
        if !in_ready && !in_pending && !holds(&out, lineage) {
            out.push(lineage);
        }
        i += 1;
    }
    out
}

impl IndexRun {
    /// A run with the given settings that writes to the given namespace.
    pub fn new(settings: IndexSettings, namespace: &Namespace) -> (run: IndexRun)
        ensures
            run@ == (IndexRunView {
                settings,
                dimension: namespace.dimension,
                phase: IndexPhase::Created,
                units: Seq::empty(),
                parents: Seq::empty(),
                pending: Seq::empty(),
                batch: Seq::empty(),
                ready: Seq::empty(),
                writing: Seq::empty(),
                failed: Seq::empty(),
                report: RunReport { processed: 0, skipped: 0, errored: 0, failure: None },
            }),
    {
        let run = IndexRun {
            settings,
            dimension: namespace.dimension,
            phase: IndexPhase::Created,
            units: Vec::new(),
            parents: Vec::new(),
            pending: Vec::new(),
            batch: Vec::new(),
            ready: Vec::new(),
            writing: Vec::new(),
            failed: Vec::new(),
            report: RunReport { processed: 0, skipped: 0, errored: 0, failure: None },
        };
        assert(unit_views(run.failed@) =~= Seq::empty());
        assert(unit_views(run.units@) =~= Seq::empty());
        assert(unit_views(run.parents@) =~= Seq::empty());
        assert(unit_views(run.pending@) =~= Seq::empty());
        assert(unit_views(run.batch@) =~= Seq::empty());
        assert(unit_views(run.ready@) =~= Seq::empty());
        assert(unit_views(run.writing@) =~= Seq::empty());
        run
    }

    fn finish(&mut self, report: RunReport) -> (action: IndexAction)
        ensures
            (final(self)@, action@) == old(self)@.finish(report),
    {
        self.phase = IndexPhase::Finished;
        self.units = Vec::new();
        self.parents = Vec::new();
        self.pending = Vec::new();
        self.batch = Vec::new();
        self.ready = Vec::new();
        self.writing = Vec::new();
        self.report = report;
        assert(unit_views(self.units@) =~= Seq::empty());
        assert(unit_views(self.parents@) =~= Seq::empty());
        assert(unit_views(self.pending@) =~= Seq::empty());
        assert(unit_views(self.batch@) =~= Seq::empty());
        assert(unit_views(self.ready@) =~= Seq::empty());
        assert(unit_views(self.writing@) =~= Seq::empty());
        IndexAction::Finish(report)
    }

    fn fail(&mut self, chunks: Vec<Unit>, error: PipelineError) -> (action: IndexAction)
        ensures
            (final(self)@, action@) == old(self)@.fail(unit_views(chunks@), error),
    {
        let mut report = self.report;
        report.errored = report.errored.saturating_add(chunks.len());
        report.failure = Some(error);
        let mut lost = mark_all(chunks, error);
        let ghost failed = unit_views(self.failed@);
        let ghost added = unit_views(lost@);
        self.failed.append(&mut lost);
        assert(unit_views(self.failed@) =~= failed + added);
        self.finish(report)
    }

    fn advance(&mut self) -> (action: IndexAction)
        ensures
            (final(self)@, action@) == old(self)@.advance(),
    {
        if self.ready.len() > 0 {
            let size = if self.settings.store_batch == 0 {
                1
            } else {
                self.settings.store_batch
            };
            let ghost n = batch_len(self.ready.len() as nat, size) as int;
            let ghost ready = unit_views(self.ready@);
            let next = take_batch(&mut self.ready, size);
            assert(unit_views(next@) =~= ready.take(n));
            assert(unit_views(self.ready@) =~= ready.skip(n));
            match check_dimension(self.dimension, &next) {
                Ok(()) => {
                    let copies = duplicate_all(&next);
                    self.writing = next;
                    self.phase = IndexPhase::Storing;
                    IndexAction::Upsert(copies)
                },
                Err(_) => self.fail(next, PipelineError::EmbeddingError),
            }
        } else if self.pending.len() > 0 {
            let size = if self.settings.embed_batch == 0 {
                1
            } else {
                self.settings.embed_batch
            };
            let ghost n = batch_len(self.pending.len() as nat, size) as int;
            let ghost pending = unit_views(self.pending@);
            let next = take_batch(&mut self.pending, size);
            assert(unit_views(next@) =~= pending.take(n));
            assert(unit_views(self.pending@) =~= pending.skip(n));
            let texts = embedding_inputs(&next);
            self.batch = next;
            self.phase = IndexPhase::Embedding;
            IndexAction::Embed(texts)
        } else {
            let report = self.report;
            self.finish(report)
        }
    }

    /// Gives the run up: no further call is asked for.
    pub fn cancel(&mut self) -> (action: IndexAction)
        ensures
            (final(self)@, action@) == old(self)@.cancel(),
    {
        if matches!(self.phase, IndexPhase::Finished) {
            return IndexAction::Refused;
        }
        let report = self.report;
        self.finish(report)
    }

    /// Starts the run. The answer is the request to load the files.
    pub fn start(&mut self) -> (action: IndexAction)
        ensures
            (final(self)@, action@) == old(self)@.start(),
    {
        if matches!(self.phase, IndexPhase::Created) {
            self.phase = IndexPhase::Loading;
            IndexAction::Load
        } else {
            IndexAction::Refused
        }
    }

    /// Takes the files that the loader found, or `None` if the corpus root
    /// could not be read.
    pub fn loaded(&mut self, files: Option<Vec<LoadedFile>>) -> (action: IndexAction)
        ensures
            (final(self)@, action@) == old(self)@.loaded(
                match files {
                    Some(list) => Some(file_views(list@)),
                    None => None,
                },
            ),
    {
        if !matches!(self.phase, IndexPhase::Loading) {
            return IndexAction::Refused;
        }
        match files {
            None => {
                let mut report = self.report;
                report.failure = Some(PipelineError::LoadError);
                self.finish(report)
            },
            Some(list) => {
                let mut loaded = load_units(list, self.settings.class);
                let wanted = duplicate_all(&loaded.units);
                self.report.errored = self.report.errored.saturating_add(loaded.unreadable.len());
                let ghost failed = unit_views(self.failed@);
                let ghost unreadable = unit_views(loaded.unreadable@);
                self.failed.append(&mut loaded.unreadable);
                assert(unit_views(self.failed@) =~= failed + unreadable);
                self.units = loaded.units;
                self.phase = IndexPhase::Filtering;
                IndexAction::LookupCache(wanted)
            },
        }
    }

    /// Takes the answers of the cache; `answers[i]` belongs to the
    /// fingerprint at index `i` of the request.
    pub fn cache_answered(&mut self, answers: &Vec<CacheAnswer>) -> (action: IndexAction)
        ensures
            (final(self)@, action@) == old(self)@.cache_answered(answers@),
    {
        if !matches!(self.phase, IndexPhase::Filtering) {
            return IndexAction::Refused;
        }
        let mut units: Vec<Unit> = Vec::new();
        std::mem::swap(&mut self.units, &mut units);
        let filtered = filter_cached(units, answers);
        let parents = duplicate_all(&filtered.fresh);
        let mut cut = chunk_all(
            filtered.fresh,
            &self.settings.chunk_range,
            self.settings.outline_min,
        );
        let mut report = self.report;
        report.skipped = report.skipped.saturating_add(filtered.skipped);
        report.errored = report.errored.saturating_add(cut.rejected.len());
        let ghost failed = unit_views(self.failed@);
        let ghost rejected = unit_views(cut.rejected@);
        self.failed.append(&mut cut.rejected);
        assert(unit_views(self.failed@) =~= failed + rejected);
        if cut.chunks.len() == 0 {
            self.finish(report)
        } else {
            let copies = duplicate_all(&cut.chunks);
            self.parents = parents;
            self.pending = cut.chunks;
            self.report = report;
            self.phase = IndexPhase::Enriching;
            assert(unit_views(self.units@) =~= Seq::empty());
            IndexAction::Enrich(copies)
        }
    }

    /// Takes what was generated for the chunks; `answers[i]` belongs to the
    /// chunk at index `i` of the request, and `None` says that the call failed.
    pub fn enriched(&mut self, answers: &Vec<Option<String>>) -> (action: IndexAction)
        ensures
            (final(self)@, action@) == old(self)@.enriched(option_text_list(answers@)),
    {
        if !matches!(self.phase, IndexPhase::Enriching) {
            return IndexAction::Refused;
        }
        let mut pending: Vec<Unit> = Vec::new();
        std::mem::swap(&mut self.pending, &mut pending);
        let mut out = apply_enrichment(pending, answers);
        self.report.errored = self.report.errored.saturating_add(out.failed.len());
        let ghost failed = unit_views(self.failed@);
        let ghost lost = unit_views(out.failed@);
        self.failed.append(&mut out.failed);
        assert(unit_views(self.failed@) =~= failed + lost);
        self.pending = out.chunks;
        self.advance()
    }

    /// Takes the vectors of the batch, or `None` if the embedding call
    /// failed; `vectors[i]` belongs to the text at index `i` of the request.
    pub fn embedded(&mut self, vectors: &Option<Vec<Vec<u32>>>) -> (action: IndexAction)
        ensures
            (final(self)@, action@) == old(self)@.embedded(option_bits(*vectors)),
    {
        if !matches!(self.phase, IndexPhase::Embedding) {
            return IndexAction::Refused;
        }
        let mut batch: Vec<Unit> = Vec::new();
        std::mem::swap(&mut self.batch, &mut batch);
        if !check_vectors(vectors, batch.len(), self.dimension) {
            return self.fail(batch, PipelineError::EmbeddingError);
        }
        match assign_embeddings(batch, vectors, self.dimension) {
            Ok(units) => {
                self.ready = units;
                assert(unit_views(self.batch@) =~= Seq::empty());
                self.advance()
            },
            // The vectors were checked above, so they are assigned.
            Err(_) => IndexAction::Refused,
        }
    }

    /// Takes the outcome of the write: `true` if the store took the chunks.
    pub fn stored(&mut self, ok: bool) -> (action: IndexAction)
        ensures
            (final(self)@, action@) == old(self)@.stored(ok),
    {
        if !matches!(self.phase, IndexPhase::Storing) {
            return IndexAction::Refused;
        }
        if ok {
            let done = completed_lineages(&self.writing, &self.ready, &self.pending);
            let commits = choose_files(&self.parents, &done);
            self.report.processed = self.report.processed.saturating_add(self.writing.len());
            self.writing = Vec::new();
            self.phase = IndexPhase::Committing;
            assert(unit_views(self.writing@) =~= Seq::empty());
            IndexAction::Commit(commits)
        } else {
            let mut writing: Vec<Unit> = Vec::new();
            std::mem::swap(&mut self.writing, &mut writing);
            self.fail(writing, PipelineError::StoreError)
        }
    }

    /// Takes note that the fingerprints were handed to the cache.
    pub fn committed(&mut self) -> (action: IndexAction)
        ensures
            (final(self)@, action@) == old(self)@.committed(),
    {
        if !matches!(self.phase, IndexPhase::Committing) {
            return IndexAction::Refused;
        }
        self.advance()
    }
}

/// Whether an action asks for a call to a model or for a write to the store.
pub open spec fn is_work(action: IndexActionView) -> bool {
    action is Enrich || action is Embed || action is Upsert || action is Commit
}

/// Whether a file gives no chunk when it is cut with the settings: an
/// empty file, for one, or one whose only piece is too short.
pub open spec fn yields_nothing(unit: UnitView, settings: IndexSettings) -> bool {
    cut_one(unit, settings.chunk_range, settings.outline_min).0.len() == 0
}

/// Whether a file needs no call when the corpus is indexed: the cache holds
/// its fingerprint, or it gives no chunk.
pub open spec fn needs_no_call(unit: UnitView, cache: Set<u128>, settings: IndexSettings) -> bool {
    cache.contains(unit.fingerprint) || yields_nothing(unit, settings)
}

/// Whether every unit of a list gives no chunk.
spec fn all_yield_nothing(units: Seq<UnitView>, settings: IndexSettings) -> bool {
    forall|i: int| 0 <= i < units.len() ==> yields_nothing(#[trigger] units[i], settings)
}

proof fn lemma_fresh_yield_nothing(
    units: Seq<UnitView>,
    cache: Set<u128>,
    settings: IndexSettings,
    n: nat,
)
    requires
        n <= units.len(),
        forall|i: int| 0 <= i < units.len() ==> needs_no_call(#[trigger] units[i], cache, settings),
    ensures
        all_yield_nothing(fresh_units(units, answers_of(cache, units), n), settings),
    decreases n,
{
    if n > 0 {
        lemma_fresh_yield_nothing(units, cache, settings, (n - 1) as nat);
        assert(needs_no_call(units[n - 1], cache, settings));
    }
}

proof fn lemma_cut_of_nothing(units: Seq<UnitView>, settings: IndexSettings, n: nat)
    requires
        n <= units.len(),
        all_yield_nothing(units, settings),
    ensures
        cut_all(units, settings.chunk_range, settings.outline_min, n).0.len() == 0,
    decreases n,
{
    if n > 0 {
        lemma_cut_of_nothing(units, settings, (n - 1) as nat);
        assert(yields_nothing(units[n - 1], settings));
    }
}

/// Indexing is idempotent: when every file of the corpus is known to the
/// cache, as it is after a run that stored it, or gives no chunk, the run
/// ends with the answers of the cache. No generation call, no embedding
/// call and no write is asked for, so the store holds after the run what it
/// held before.
pub proof fn law_rerun_needs_no_work(run: IndexRunView, cache: Set<u128>)
    requires
        run.phase == IndexPhase::Filtering,
        forall|i: int|
            0 <= i < run.units.len() ==> needs_no_call(#[trigger] run.units[i], cache, run.settings),
    ensures
        run.cache_answered(answers_of(cache, run.units)).1 is Finish,
        !is_work(run.cache_answered(answers_of(cache, run.units)).1),
        run.cache_answered(answers_of(cache, run.units)).0.phase == IndexPhase::Finished,
        run.cache_answered(answers_of(cache, run.units)).0.report.processed
            == run.report.processed,
        run.cache_answered(answers_of(cache, run.units)).0.report.failure == run.report.failure,
{
    let answers = answers_of(cache, run.units);
    let fresh = fresh_units(run.units, answers, run.units.len());
    lemma_fresh_yield_nothing(run.units, cache, run.settings, run.units.len());
    lemma_cut_of_nothing(fresh, run.settings, fresh.len());
}

/// Where the cache holds the fingerprint of every file, every file is
/// counted as skipped and none as errored.
pub proof fn law_cached_corpus_is_counted(run: IndexRunView, cache: Set<u128>)
    requires
        run.phase == IndexPhase::Filtering,
        forall|i: int|
            0 <= i < run.units.len() ==> cache.contains(#[trigger] run.units[i].fingerprint),
    ensures
        run.cache_answered(answers_of(cache, run.units)) == run.finish(
            run.report.with_skipped(run.units.len() as int),
        ),
{
    let answers = answers_of(cache, run.units);
    law_cached_corpus_is_skipped(cache, run.units, run.units.len());
    law_filter_partitions(run.units, answers, run.units.len());
    let fresh = fresh_units(run.units, answers, run.units.len());
    assert(fresh.len() == 0);
    assert(run.report.with_skipped(run.units.len() as int).with_errored(0)
        == run.report.with_skipped(run.units.len() as int));
    assert(run.failed + Seq::<UnitView>::empty() =~= run.failed);
}

/// Namespace isolation in a run: whichever step a run takes, the chunks it
/// asks to write all carry a vector of the dimension of the namespace.
pub proof fn law_writes_fit_namespace(run: IndexRunView)
    ensures
        run.advance().1 matches IndexActionView::Upsert(chunks) ==> batch_fits(
            chunks,
            run.dimension,
        ),
        !(run.start().1 is Upsert),
        forall|files: Option<Seq<LoadedFileView>>| !(#[trigger] run.loaded(files).1 is Upsert),
        forall|answers: Seq<CacheAnswer>| !(#[trigger] run.cache_answered(answers).1 is Upsert),
        forall|answers: Seq<Option<Seq<char>>>| #[trigger]
            run.enriched(answers).1 matches IndexActionView::Upsert(chunks) ==> batch_fits(
                chunks,
                run.dimension,
            ),
        forall|vectors: Option<Seq<Seq<u32>>>| #[trigger]
            run.embedded(vectors).1 matches IndexActionView::Upsert(chunks) ==> batch_fits(
                chunks,
                run.dimension,
            ),
        forall|ok: bool| !(#[trigger] run.stored(ok).1 is Upsert),
        run.committed().1 matches IndexActionView::Upsert(chunks) ==> batch_fits(
            chunks,
            run.dimension,
        ),
{
}

/// A vector of another dimension ends the run: if the embedding call
/// returns a vector whose dimension is not that of the namespace, the run
/// finishes with an embedding error and asks for no write.
pub proof fn law_wrong_dimension_ends_run(run: IndexRunView, vectors: Seq<Seq<u32>>, i: int)
    requires
        run.phase == IndexPhase::Embedding,
        0 <= i < vectors.len(),
        vectors[i].len() != run.dimension,
    ensures
        run.embedded(Some(vectors)).0.phase == IndexPhase::Finished,
        run.embedded(Some(vectors)).0.report.failure == Some(PipelineError::EmbeddingError),
        run.embedded(Some(vectors)).1 is Finish,
{
}

/// Fingerprints are committed only after a write has succeeded: no other
/// step asks for a commit. Those that are committed are fingerprints of
/// files of which a chunk was just written and no chunk is left waiting.
pub proof fn law_commit_follows_store(run: IndexRunView)
    ensures
        !(run.advance().1 is Commit),
        !(run.start().1 is Commit),
        forall|files: Option<Seq<LoadedFileView>>| !(#[trigger] run.loaded(files).1 is Commit),
        forall|answers: Seq<CacheAnswer>| !(#[trigger] run.cache_answered(answers).1 is Commit),
        forall|answers: Seq<Option<Seq<char>>>| !(#[trigger] run.enriched(answers).1 is Commit),
        forall|vectors: Option<Seq<Seq<u32>>>| !(#[trigger] run.embedded(vectors).1 is Commit),
        !(run.stored(false).1 is Commit),
        !(run.committed().1 is Commit),
        run.stored(true).1 matches IndexActionView::Commit(files) ==> forall|j: int|
            0 <= j < files.len() ==> has_lineage(run.writing, (#[trigger] files[j]).fingerprint)
                && !has_lineage(run.ready + run.pending, files[j].fingerprint),
{
    if run.phase == IndexPhase::Storing {
        let done = completed(run.writing, run.ready + run.pending, run.writing.len());
        lemma_completed(run.writing, run.ready + run.pending, run.writing.len());
        lemma_chosen(run.parents, done, run.parents.len());
        let files = chosen(run.parents, done, run.parents.len());
        assert forall|j: int| 0 <= j < files.len() implies has_lineage(
            run.writing,
            (#[trigger] files[j]).fingerprint,
        ) && !has_lineage(run.ready + run.pending, files[j].fingerprint) by {
            let at = choose|at: int| 0 <= at < done.len() && done[at] == files[j].fingerprint;
            assert(has_lineage(run.writing, done[at]));
        }
    }
}

/// What `chosen` holds: files of the list whose fingerprint is among the given ones.
pub proof fn lemma_chosen(files: Seq<UnitView>, fingerprints: Seq<u128>, n: nat)
    requires
        n <= files.len(),
    ensures
        forall|j: int|
            0 <= j < chosen(files, fingerprints, n).len() ==> fingerprints.contains(
                (#[trigger] chosen(files, fingerprints, n)[j]).fingerprint,
            ) && exists|i: int| 0 <= i < n && files[i] == chosen(files, fingerprints, n)[j],
    decreases n,
{
    if n > 0 {
        lemma_chosen(files, fingerprints, (n - 1) as nat);
        let before = chosen(files, fingerprints, (n - 1) as nat);
        let now = chosen(files, fingerprints, n);
        assert forall|j: int| 0 <= j < now.len() implies fingerprints.contains(
            (#[trigger] now[j]).fingerprint,
        ) && exists|i: int| 0 <= i < n && files[i] == now[j] by {
            if j < before.len() {
                assert(now[j] == before[j]);
                let i = choose|i: int| 0 <= i < n - 1 && files[i] == before[j];
                assert(files[i] == now[j]);
            } else {
                assert(files[n - 1] == now[j]);
            }
        }
    }
}

/// What `completed` holds: lineages of the written chunks that wait no more, each once.
pub proof fn lemma_completed(written: Seq<UnitView>, waiting: Seq<UnitView>, n: nat)
    requires
        n <= written.len(),
    ensures
        completed(written, waiting, n).no_duplicates(),
        forall|j: int|
            0 <= j < completed(written, waiting, n).len() ==> has_lineage(
                written,
                #[trigger] completed(written, waiting, n)[j],
            ) && !has_lineage(waiting, completed(written, waiting, n)[j]),
        forall|i: int|
            0 <= i < n && !has_lineage(waiting, written[i].lineage) ==> completed(
                written,
                waiting,
                n,
            ).contains(#[trigger] written[i].lineage),
    decreases n,
{
    if n > 0 {
        lemma_completed(written, waiting, (n - 1) as nat);
        let before = completed(written, waiting, (n - 1) as nat);
        let now = completed(written, waiting, n);
        let lineage = written[n - 1].lineage;
        assert(has_lineage(written, lineage));
        assert forall|i: int|
            0 <= i < n && !has_lineage(waiting, written[i].lineage) implies now.contains(
            #[trigger] written[i].lineage,
        ) by {
            if i < n - 1 {
                let at = choose|at: int| 0 <= at < before.len() && before[at] == written[i].lineage;
                assert(now[at] == written[i].lineage);
            } else if before.contains(lineage) {
                let at = choose|at: int| 0 <= at < before.len() && before[at] == lineage;
                assert(now[at] == lineage);
            } else {
                assert(now[now.len() - 1] == lineage);
            }
        }
    }
}

/// Whether the identifier and the fingerprint of every unit of a list are
/// those of its path and content.
pub open spec fn all_well_formed(units: Seq<UnitView>) -> bool {
    forall|i: int| 0 <= i < units.len() ==> (#[trigger] units[i]).well_formed()
}

/// Whether a chunk carries the text that was generated for it.
pub open spec fn is_enriched(unit: UnitView) -> bool {
    unit.metadata.dom().contains(enrichment_key(unit.class))
}

/// Whether every chunk of a list carries the text that was generated for it.
pub open spec fn all_enriched(units: Seq<UnitView>) -> bool {
    forall|i: int| 0 <= i < units.len() ==> is_enriched(#[trigger] units[i])
}

/// Whether every unit of a list is marked with an error.
pub open spec fn all_marked(units: Seq<UnitView>) -> bool {
    forall|i: int| 0 <= i < units.len() ==> (#[trigger] units[i]).error.is_some()
}

/// Whether a file of the list has this fingerprint.
pub open spec fn has_fingerprint(files: Seq<UnitView>, fingerprint: u128) -> bool {
    exists|k: int| 0 <= k < files.len() && #[trigger] files[k].fingerprint == fingerprint
}

/// Whether every chunk of a list was cut from one of the files.
pub open spec fn cut_from(chunks: Seq<UnitView>, files: Seq<UnitView>) -> bool {
    forall|i: int| 0 <= i < chunks.len() ==> has_fingerprint(files, (#[trigger] chunks[i]).lineage)
}

impl IndexRunView {
    /// What holds of a run at every step. Units and chunks carry the
    /// identifiers of their content; every chunk was cut from a file that
    /// the run still knows; once the chunks were enriched, each carries the
    /// text that was generated for it; the chunks that wait to be written
    /// and those that are being written carry vectors of the dimension of
    /// the namespace; only the lists that belong to the call that the run is
    /// waiting for hold anything; and what the report counts as errored is
    /// what is kept with the failed, each marked with its error.
    pub open spec fn well_formed(self) -> bool {
        &&& all_well_formed(self.units)
        &&& all_well_formed(self.parents)
        &&& all_well_formed(self.pending)
        &&& all_well_formed(self.batch)
        &&& all_well_formed(self.ready)
        &&& all_well_formed(self.writing)
        &&& cut_from(self.pending, self.parents)
        &&& cut_from(self.batch, self.parents)
        &&& cut_from(self.ready, self.parents)
        &&& cut_from(self.writing, self.parents)
        &&& batch_fits(self.ready, self.dimension)
        &&& batch_fits(self.writing, self.dimension)
        &&& self.phase != IndexPhase::Enriching ==> all_enriched(self.pending)
        &&& all_enriched(self.batch)
        &&& all_enriched(self.ready)
        &&& all_enriched(self.writing)
        &&& all_marked(self.failed)
        &&& self.report.errored == capped(self.failed.len() as int)
        &&& match self.phase {
            IndexPhase::Created | IndexPhase::Loading | IndexPhase::Finished => {
                &&& self.units.len() == 0
                &&& self.parents.len() == 0
                &&& self.pending.len() == 0
                &&& self.batch.len() == 0
                &&& self.ready.len() == 0
                &&& self.writing.len() == 0
            },
            IndexPhase::Filtering => {
                &&& self.parents.len() == 0
                &&& self.pending.len() == 0
                &&& self.batch.len() == 0
                &&& self.ready.len() == 0
                &&& self.writing.len() == 0
            },
            IndexPhase::Enriching => {
                &&& self.units.len() == 0
                &&& self.pending.len() > 0
                &&& self.batch.len() == 0
                &&& self.ready.len() == 0
                &&& self.writing.len() == 0
            },
            IndexPhase::Embedding => {
                &&& self.units.len() == 0
                &&& self.batch.len() > 0
                &&& self.ready.len() == 0
                &&& self.writing.len() == 0
            },
            IndexPhase::Storing => {
                &&& self.units.len() == 0
                &&& self.batch.len() == 0
                &&& self.writing.len() > 0
            },
            IndexPhase::Committing => {
                &&& self.units.len() == 0
                &&& self.batch.len() == 0
                &&& self.writing.len() == 0
            },
        }
    }
}

proof fn lemma_unreadable_marked(files: Seq<LoadedFileView>, class: ContentClass, n: nat)
    ensures
        all_marked(unreadable_of(files, class, n)),
    decreases n,
{
    if n > 0 {
        lemma_unreadable_marked(files, class, (n - 1) as nat);
    }
}

proof fn lemma_rejected_marked(
    parent: UnitView,
    pieces: Seq<Seq<char>>,
    range: ChunkRange,
    k: nat,
    cursor: nat,
)
    ensures
        all_marked(rejected_from(parent, pieces, range, k, cursor)),
    decreases pieces.len() - k,
{
    if k < pieces.len() {
        let piece = pieces[k as int];
        let spot = if range.admits(piece.len(), k + 1 == pieces.len()) {
            crate::chunker::first_occurrence(parent.content, piece, cursor)
        } else {
            None
        };
        match spot {
            Some(at) => {
                lemma_rejected_marked(parent, pieces, range, k + 1, at + piece.len());
            },
            None => {
                lemma_rejected_marked(parent, pieces, range, k + 1, cursor);
                let rest = rejected_from(parent, pieces, range, k + 1, cursor);
                let all = rejected_from(parent, pieces, range, k, cursor);
                assert forall|i: int| 0 <= i < all.len() implies (#[trigger] all[i]).error.is_some() by {
                    if i > 0 {
                        assert(all[i] == rest[i - 1]);
                    }
                }
            },
        }
    }
}

proof fn lemma_cut_marked(
    units: Seq<UnitView>,
    range: ChunkRange,
    outline_min: Option<usize>,
    n: nat,
)
    requires
        n <= units.len(),
    ensures
        all_marked(cut_all(units, range, outline_min, n).1),
    decreases n,
{
    if n > 0 {
        lemma_cut_marked(units, range, outline_min, (n - 1) as nat);
        let before = cut_all(units, range, outline_min, (n - 1) as nat).1;
        let unit = prepared(units[n - 1], outline_min);
        let this = cut_one(units[n - 1], range, outline_min).1;
        let now = cut_all(units, range, outline_min, n).1;
        if range.is_valid() && pieces_of(unit, range).is_some() {
            let pieces = made_ready(unit.content, pieces_of(unit, range)->0, range);
            lemma_rejected_marked(unit, pieces, range, 0, 0);
        }
        assert forall|i: int| 0 <= i < now.len() implies (#[trigger] now[i]).error.is_some() by {
            if i < before.len() {
                assert(now[i] == before[i]);
            } else {
                assert(now[i] == this[i - before.len()]);
            }
        }
    }
}

proof fn lemma_unenriched_marked(chunks: Seq<UnitView>, answers: Seq<Option<Seq<char>>>, n: nat)
    ensures
        all_marked(unenriched(chunks, answers, n)),
    decreases n,
{
    if n > 0 {
        lemma_unenriched_marked(chunks, answers, (n - 1) as nat);
    }
}

/// What is added to the failed is marked, and the count follows.
proof fn lemma_failed_grows(run: IndexRunView, lost: Seq<UnitView>)
    requires
        all_marked(run.failed),
        all_marked(lost),
        run.report.errored == capped(run.failed.len() as int),
    ensures
        all_marked(run.failed + lost),
        run.report.with_errored(lost.len() as int).errored == capped(
            (run.failed + lost).len() as int,
        ),
{
    let all = run.failed + lost;
    assert forall|i: int| 0 <= i < all.len() implies (#[trigger] all[i]).error.is_some() by {
        if i < run.failed.len() {
            assert(all[i] == run.failed[i]);
        } else {
            assert(all[i] == lost[i - run.failed.len()]);
        }
    }
}

proof fn lemma_units_of_well_formed(files: Seq<LoadedFileView>, class: ContentClass, n: nat)
    ensures
        all_well_formed(units_of(files, class, n)),
    decreases n,
{
    if n > 0 {
        lemma_units_of_well_formed(files, class, (n - 1) as nat);
    }
}

proof fn lemma_fresh_well_formed(units: Seq<UnitView>, answers: Seq<CacheAnswer>, n: nat)
    requires
        n <= units.len(),
        all_well_formed(units),
    ensures
        all_well_formed(fresh_units(units, answers, n)),
    decreases n,
{
    if n > 0 {
        lemma_fresh_well_formed(units, answers, (n - 1) as nat);
    }
}

proof fn lemma_cut_well_formed(
    units: Seq<UnitView>,
    range: ChunkRange,
    outline_min: Option<usize>,
    n: nat,
)
    requires
        n <= units.len(),
    ensures
        all_well_formed(cut_all(units, range, outline_min, n).0),
        cut_from(cut_all(units, range, outline_min, n).0, units),
    decreases n,
{
    if n > 0 {
        lemma_cut_well_formed(units, range, outline_min, (n - 1) as nat);
        let before = cut_all(units, range, outline_min, (n - 1) as nat).0;
        let unit = prepared(units[n - 1], outline_min);
        let this = cut_one(units[n - 1], range, outline_min).0;
        let now = cut_all(units, range, outline_min, n).0;
        assert(now == before + this);
        assert(unit.fingerprint == units[n - 1].fingerprint);
        if range.is_valid() && pieces_of(unit, range).is_some() {
            let pieces = made_ready(unit.content, pieces_of(unit, range)->0, range);
            law_chunk_bounds(unit, pieces, range);
            assert forall|i: int| 0 <= i < this.len() implies (#[trigger] this[i]).well_formed()
                && this[i].lineage == units[n - 1].fingerprint by {
                assert(chunk_in_place(unit, placed(unit, pieces, range), range, i));
            }
        }
        assert forall|i: int| 0 <= i < now.len() implies (#[trigger] now[i]).well_formed()
            && has_fingerprint(units, now[i].lineage) by {
            if i < before.len() {
                assert(now[i] == before[i]);
            } else {
                assert(now[i] == this[i - before.len()]);
                assert(units[n - 1].fingerprint == now[i].lineage);
            }
        }
    }
}

proof fn lemma_enriched_well_formed(
    chunks: Seq<UnitView>,
    answers: Seq<Option<Seq<char>>>,
    files: Seq<UnitView>,
    n: nat,
)
    requires
        n <= chunks.len(),
        all_well_formed(chunks),
        cut_from(chunks, files),
    ensures
        all_well_formed(enriched(chunks, answers, n)),
        cut_from(enriched(chunks, answers, n), files),
        all_enriched(enriched(chunks, answers, n)),
    decreases n,
{
    if n > 0 {
        lemma_enriched_well_formed(chunks, answers, files, (n - 1) as nat);
        assert(has_fingerprint(files, chunks[n - 1].lineage));
    }
}

proof fn lemma_advance_well_formed(run: IndexRunView)
    requires
        all_enriched(run.pending),
        all_enriched(run.ready),
        all_marked(run.failed),
        run.report.errored == capped(run.failed.len() as int),
        all_well_formed(run.parents),
        all_well_formed(run.pending),
        all_well_formed(run.ready),
        cut_from(run.pending, run.parents),
        cut_from(run.ready, run.parents),
        batch_fits(run.ready, run.dimension),
        run.units.len() == 0,
        run.batch.len() == 0,
        run.writing.len() == 0,
    ensures
        run.advance().0.well_formed(),
{
    let next = run.advance().0;
    if run.ready.len() > 0 {
        let n = batch_len(run.ready.len(), at_least_one(run.settings.store_batch)) as int;
        lemma_failed_grows(run, marked(run.ready.take(n), PipelineError::EmbeddingError));
        assert forall|i: int| 0 <= i < run.ready.take(n).len() implies (#[trigger] run.ready.take(
            n,
        )[i]).well_formed() && has_fingerprint(run.parents, run.ready.take(n)[i].lineage)
            && is_enriched(run.ready.take(n)[i]) by {
            assert(run.ready.take(n)[i] == run.ready[i]);
        }
        assert forall|i: int| 0 <= i < run.ready.skip(n).len() implies (#[trigger] run.ready.skip(
            n,
        )[i]).well_formed() && fits_dimension(run.ready.skip(n)[i], run.dimension)
            && has_fingerprint(run.parents, run.ready.skip(n)[i].lineage) && is_enriched(
            run.ready.skip(n)[i],
        ) by {
            assert(run.ready.skip(n)[i] == run.ready[i + n]);
        }
    } else if run.pending.len() > 0 {
        let n = batch_len(run.pending.len(), at_least_one(run.settings.embed_batch)) as int;
        assert forall|i: int| 0 <= i < run.pending.take(n).len() implies (
        #[trigger] run.pending.take(n)[i]).well_formed() && has_fingerprint(
            run.parents,
            run.pending.take(n)[i].lineage,
        ) && is_enriched(run.pending.take(n)[i]) by {
            assert(run.pending.take(n)[i] == run.pending[i]);
        }
        assert forall|i: int| 0 <= i < run.pending.skip(n).len() implies (
        #[trigger] run.pending.skip(n)[i]).well_formed() && has_fingerprint(
            run.parents,
            run.pending.skip(n)[i].lineage,
        ) && is_enriched(run.pending.skip(n)[i]) by {
            assert(run.pending.skip(n)[i] == run.pending[i + n]);
        }
    }
}

/// Every step of a run takes a well-formed run to a well-formed run,
/// whatever the outcome that it is given.
pub proof fn law_steps_keep_runs_well_formed(
    run: IndexRunView,
    files: Option<Seq<LoadedFileView>>,
    cache_answers: Seq<CacheAnswer>,
    generated: Seq<Option<Seq<char>>>,
    vectors: Option<Seq<Seq<u32>>>,
    ok: bool,
)
    requires
        run.well_formed(),
    ensures
        run.start().0.well_formed(),
        run.loaded(files).0.well_formed(),
        run.cache_answered(cache_answers).0.well_formed(),
        run.enriched(generated).0.well_formed(),
        run.embedded(vectors).0.well_formed(),
        run.stored(ok).0.well_formed(),
        run.committed().0.well_formed(),
        run.cancel().0.well_formed(),
{
    if run.phase == IndexPhase::Loading && files.is_some() {
        lemma_units_of_well_formed(files->0, run.settings.class, files->0.len());
        lemma_unreadable_marked(files->0, run.settings.class, files->0.len());
        lemma_failed_grows(run, unreadable_of(files->0, run.settings.class, files->0.len()));
    }
    if run.phase == IndexPhase::Filtering {
        let fresh = fresh_units(run.units, cache_answers, run.units.len());
        lemma_fresh_well_formed(run.units, cache_answers, run.units.len());
        lemma_cut_well_formed(
            fresh,
            run.settings.chunk_range,
            run.settings.outline_min,
            fresh.len(),
        );
        lemma_cut_marked(fresh, run.settings.chunk_range, run.settings.outline_min, fresh.len());
        let cut = cut_all(fresh, run.settings.chunk_range, run.settings.outline_min, fresh.len());
        lemma_failed_grows(run, cut.1);
    }
    if run.phase == IndexPhase::Enriching {
        let kept = enriched(run.pending, generated, run.pending.len());
        let lost = unenriched(run.pending, generated, run.pending.len());
        lemma_enriched_well_formed(run.pending, generated, run.parents, run.pending.len());
        lemma_unenriched_marked(run.pending, generated, run.pending.len());
        law_enrichment_partitions(run.pending, generated, run.pending.len());
        lemma_failed_grows(run, lost);
        lemma_advance_well_formed(
            IndexRunView {
                pending: kept,
                failed: run.failed + lost,
                report: run.report.with_errored(run.pending.len() - kept.len()),
                ..run
            },
        );
    }
    if run.phase == IndexPhase::Embedding && vectors_fit(run.batch, vectors, run.dimension) {
        let ready = embedded(run.batch, vectors->0);
        assert forall|i: int| 0 <= i < ready.len() implies (#[trigger] ready[i]).well_formed()
            && fits_dimension(ready[i], run.dimension) && has_fingerprint(
            run.parents,
            ready[i].lineage,
        ) && is_enriched(ready[i]) by {
            assert(run.batch[i].well_formed());
            assert(is_enriched(run.batch[i]));
            assert(has_fingerprint(run.parents, run.batch[i].lineage));
            assert((vectors->0)[i].len() == run.dimension);
        }
        lemma_advance_well_formed(IndexRunView { batch: Seq::empty(), ready, ..run });
    }
    if run.phase == IndexPhase::Embedding {
        lemma_failed_grows(run, marked(run.batch, PipelineError::EmbeddingError));
    }
    if run.phase == IndexPhase::Storing {
        lemma_failed_grows(run, marked(run.writing, PipelineError::StoreError));
    }
    if run.phase == IndexPhase::Committing {
        lemma_advance_well_formed(run);
    }
}

/// Every file whose fingerprint is in the list is chosen.
proof fn lemma_chosen_complete(files: Seq<UnitView>, fingerprints: Seq<u128>, n: nat, k: int)
    requires
        0 <= k < n <= files.len(),
        fingerprints.contains(files[k].fingerprint),
    ensures
        chosen(files, fingerprints, n).contains(files[k]),
    decreases n,
{
    let now = chosen(files, fingerprints, n);
    if k < n - 1 {
        lemma_chosen_complete(files, fingerprints, (n - 1) as nat, k);
        let before = chosen(files, fingerprints, (n - 1) as nat);
        let at = choose|at: int| 0 <= at < before.len() && before[at] == files[k];
        assert(now[at] == files[k]);
    } else {
        assert(now[now.len() - 1] == files[k]);
    }
}

/// No file is forgotten: when a write has succeeded, the file of every
/// written chunk is handed out to be marked in the cache, unless another of
/// its chunks still waits to be embedded or written. A file is thus marked
/// with the write of its last chunk.
pub proof fn law_commit_is_complete(run: IndexRunView, i: int)
    requires
        run.well_formed(),
        run.phase == IndexPhase::Storing,
        0 <= i < run.writing.len(),
        !has_lineage(run.ready + run.pending, run.writing[i].lineage),
    ensures
        run.stored(true).1 matches IndexActionView::Commit(files) && has_fingerprint(
            files,
            run.writing[i].lineage,
        ),
{
    let lineage = run.writing[i].lineage;
    let done = completed(run.writing, run.ready + run.pending, run.writing.len());
    let files = chosen(run.parents, done, run.parents.len());
    lemma_completed(run.writing, run.ready + run.pending, run.writing.len());
    assert(done.contains(lineage));
    assert(has_fingerprint(run.parents, lineage));
    let k = choose|k: int| 0 <= k < run.parents.len() && #[trigger] run.parents[k].fingerprint == lineage;
    lemma_chosen_complete(run.parents, done, run.parents.len(), k);
    let at = choose|at: int| 0 <= at < files.len() && files[at] == run.parents[k];
    assert(files[at].fingerprint == lineage);
}

/// A run embeds its chunks batch by batch: when nothing waits to be
/// written, the next request is to embed the first of the batches that the
/// waiting chunks are cut into, and the batches of what is left are the
/// others.
pub proof fn law_run_embeds_the_batches(run: IndexRunView)
    requires
        run.ready.len() == 0,
        run.pending.len() > 0,
    ensures
        ({
            let size = at_least_one(run.settings.embed_batch);
            let all = batches_of(run.pending, size);
            &&& all.len() > 0
            &&& run.advance().0.phase == IndexPhase::Embedding
            &&& run.advance().0.batch == all[0]
            &&& run.advance().1 == IndexActionView::Embed(embeddables_of(all[0]))
            &&& batches_of(run.advance().0.pending, size) == all.drop_first()
        }),
{
    let size = at_least_one(run.settings.embed_batch);
    let all = batches_of(run.pending, size);
    let n = batch_len(run.pending.len(), size) as int;
    assert(all.drop_first() =~= batches_of(run.pending.skip(n), size));
}

/// Whether a step has dealt with failure as the kinds of error ask: the
/// failure of the run is what it was, or it is an error that is fatal.
/// `at_root` says whether a load error would be one of the corpus root.
pub open spec fn fails_only_fatally(before: RunReport, after: RunReport, at_root: bool) -> bool {
    after.failure == before.failure || match after.failure {
        Some(error) => error.is_fatal(at_root),
        None => false,
    }
}

/// The kinds of error reach as far as they are meant to. Whatever step a
/// run takes, it ends with an error only if the error is fatal: a load
/// error of the corpus root, an embedding error or a store error. A chunk
/// error, an enrichment error, a cache error and the load error of a single
/// file are not fatal, so none of them is ever the failure of a run; the
/// steps that meet them leave the failure as it was.
pub proof fn law_only_fatal_errors_end_runs(
    run: IndexRunView,
    files: Option<Seq<LoadedFileView>>,
    cache_answers: Seq<CacheAnswer>,
    generated: Seq<Option<Seq<char>>>,
    vectors: Option<Seq<Seq<u32>>>,
    ok: bool,
)
    ensures
        fails_only_fatally(run.report, run.start().0.report, false),
        fails_only_fatally(run.report, run.loaded(files).0.report, true),
        fails_only_fatally(run.report, run.cache_answered(cache_answers).0.report, false),
        fails_only_fatally(run.report, run.enriched(generated).0.report, false),
        fails_only_fatally(run.report, run.embedded(vectors).0.report, false),
        fails_only_fatally(run.report, run.stored(ok).0.report, false),
        fails_only_fatally(run.report, run.committed().0.report, false),
        fails_only_fatally(run.report, run.cancel().0.report, false),
        files.is_some() ==> run.loaded(files).0.report.failure == run.report.failure,
        run.cache_answered(cache_answers).0.report.failure == run.report.failure,
        !PipelineError::ChunkError.is_fatal(true) && !PipelineError::ChunkError.is_fatal(false),
        !PipelineError::EnrichmentError.is_fatal(true) && !PipelineError::EnrichmentError.is_fatal(
            false,
        ),
        !PipelineError::CacheError.is_fatal(true) && !PipelineError::CacheError.is_fatal(false),
        !PipelineError::LoadError.is_fatal(false),
{
}

/// Whether every unit of a list is marked with an error that takes out
/// that unit alone.
pub open spec fn all_lost_alone(units: Seq<UnitView>) -> bool {
    forall|i: int|
        0 <= i < units.len() ==> match (#[trigger] units[i]).error {
            Some(error) => error.scope(false) == crate::error::ErrorScope::Unit,
            None => false,
        }
}

/// Files that could not be read, pieces that were turned down and chunks
/// that could not be enriched are each marked with an error of their own
/// unit, and the steps that report them do not end the run with it.
pub proof fn law_unit_errors_stay_with_the_unit(
    run: IndexRunView,
    files: Seq<LoadedFileView>,
    cache_answers: Seq<CacheAnswer>,
    generated: Seq<Option<Seq<char>>>,
)
    ensures
        all_lost_alone(unreadable_of(files, run.settings.class, files.len())),
        run.loaded(Some(files)).0.report.failure == run.report.failure,
        ({
            let fresh = fresh_units(run.units, cache_answers, run.units.len());
            all_lost_alone(
                cut_all(fresh, run.settings.chunk_range, run.settings.outline_min, fresh.len()).1,
            )
        }),
        run.cache_answered(cache_answers).0.report.failure == run.report.failure,
        all_lost_alone(unenriched(run.pending, generated, run.pending.len())),
{
    lemma_unreadable_lost_alone(files, run.settings.class, files.len());
    let fresh = fresh_units(run.units, cache_answers, run.units.len());
    lemma_cut_lost_alone(fresh, run.settings.chunk_range, run.settings.outline_min, fresh.len());
    lemma_unenriched_lost_alone(run.pending, generated, run.pending.len());
}

proof fn lemma_unreadable_lost_alone(files: Seq<LoadedFileView>, class: ContentClass, n: nat)
    ensures
        all_lost_alone(unreadable_of(files, class, n)),
    decreases n,
{
    if n > 0 {
        lemma_unreadable_lost_alone(files, class, (n - 1) as nat);
    }
}

proof fn lemma_rejected_lost_alone(
    parent: UnitView,
    pieces: Seq<Seq<char>>,
    range: ChunkRange,
    k: nat,
    cursor: nat,
)
    ensures
        all_lost_alone(rejected_from(parent, pieces, range, k, cursor)),
    decreases pieces.len() - k,
{
    if k < pieces.len() {
        let piece = pieces[k as int];
        let spot = if range.admits(piece.len(), k + 1 == pieces.len()) {
            crate::chunker::first_occurrence(parent.content, piece, cursor)
        } else {
            None
        };
        match spot {
            Some(at) => {
                lemma_rejected_lost_alone(parent, pieces, range, k + 1, at + piece.len());
            },
            None => {
                lemma_rejected_lost_alone(parent, pieces, range, k + 1, cursor);
                let rest = rejected_from(parent, pieces, range, k + 1, cursor);
                let all = rejected_from(parent, pieces, range, k, cursor);
                assert forall|i: int| 0 <= i < all.len() implies match (#[trigger] all[i]).error {
                    Some(error) => error.scope(false) == crate::error::ErrorScope::Unit,
                    None => false,
                } by {
                    if i > 0 {
                        assert(all[i] == rest[i - 1]);
                    }
                }
            },
        }
    }
}

proof fn lemma_cut_lost_alone(
    units: Seq<UnitView>,
    range: ChunkRange,
    outline_min: Option<usize>,
    n: nat,
)
    requires
        n <= units.len(),
    ensures
        all_lost_alone(cut_all(units, range, outline_min, n).1),
    decreases n,
{
    if n > 0 {
        lemma_cut_lost_alone(units, range, outline_min, (n - 1) as nat);
        let before = cut_all(units, range, outline_min, (n - 1) as nat).1;
        let unit = prepared(units[n - 1], outline_min);
        let this = cut_one(units[n - 1], range, outline_min).1;
        let now = cut_all(units, range, outline_min, n).1;
        if range.is_valid() && pieces_of(unit, range).is_some() {
            let pieces = made_ready(unit.content, pieces_of(unit, range)->0, range);
            lemma_rejected_lost_alone(unit, pieces, range, 0, 0);
        }
        assert forall|i: int| 0 <= i < now.len() implies match (#[trigger] now[i]).error {
            Some(error) => error.scope(false) == crate::error::ErrorScope::Unit,
            None => false,
        } by {
            if i < before.len() {
                assert(now[i] == before[i]);
            } else {
                assert(now[i] == this[i - before.len()]);
            }
        }
    }
}

proof fn lemma_unenriched_lost_alone(
    chunks: Seq<UnitView>,
    answers: Seq<Option<Seq<char>>>,
    n: nat,
)
    ensures
        all_lost_alone(unenriched(chunks, answers, n)),
    decreases n,
{
    if n > 0 {
        lemma_unenriched_lost_alone(chunks, answers, (n - 1) as nat);
    }
}

} // verus!
