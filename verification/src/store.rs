//! Writing embedded chunks to the vector store.
//!
//! A batch is written under the identifiers of its chunks, so writing a
//! chunk again replaces it. A batch may only be handed to the store if
//! every chunk in it carries a vector of the dimension of the namespace;
//! that a run hands over no other batch is shown with the run.
use crate::error::PipelineError;
use crate::namespace::Namespace;
use crate::unit::{unit_views, Unit, UnitView};
use vstd::prelude::*;

verus! {

/// Whether a unit carries a vector of the given dimension.
pub open spec fn fits_dimension(unit: UnitView, dimension: usize) -> bool {
    match unit.embedding {
        Some(vector) => vector.len() == dimension,
        None => false,
    }
}

/// Whether every unit of a batch carries a vector of the given dimension.
pub open spec fn batch_fits(batch: Seq<UnitView>, dimension: usize) -> bool {
    forall|i: int| 0 <= i < batch.len() ==> fits_dimension(#[trigger] batch[i], dimension)
}

/// Decides whether a batch may be written to a namespace. It may not, and
/// the answer is an embedding error, if a chunk has no vector or one whose
/// dimension differs from that of the namespace.
pub fn check_batch(namespace: &Namespace, batch: &Vec<Unit>) -> (out: Result<(), PipelineError>)
    ensures
        out.is_ok() <==> batch_fits(unit_views(batch@), namespace.dimension),
        out.is_err() ==> out == Err::<(), PipelineError>(PipelineError::EmbeddingError),
{
    check_dimension(namespace.dimension, batch)
}

/// Decides whether every chunk of a batch carries a vector of the given dimension.
pub fn check_dimension(dimension: usize, batch: &Vec<Unit>) -> (out: Result<(), PipelineError>)
    ensures
        out.is_ok() <==> batch_fits(unit_views(batch@), dimension),
        out.is_err() ==> out == Err::<(), PipelineError>(PipelineError::EmbeddingError),
{
    let mut i: usize = 0;
    while i < batch.len()
        invariant
            i <= batch.len(),
            forall|j: int| 0 <= j < i ==> fits_dimension(#[trigger] unit_views(batch@)[j], dimension),
        decreases batch.len() - i,
    {
        let fits = match &batch[i].embedding {
            Some(vector) => vector.len() == dimension,
            None => false,
        };
        if !fits {
            assert(!fits_dimension(unit_views(batch@)[i as int], dimension));
            return Err(PipelineError::EmbeddingError);
        }
        i += 1;
    }
    Ok(())
}

/// The contents of a namespace after a batch was written to it: every chunk
/// stands under its identifier, in place of what stood there before.
pub open spec fn upserted(store: Map<u128, UnitView>, batch: Seq<UnitView>) -> Map<u128, UnitView>
    decreases batch.len(),
{
    if batch.len() == 0 {
        store
    } else {
        upserted(store, batch.drop_last()).insert(batch.last().id, batch.last())
    }
}

/// The identifiers of a list of units.
pub open spec fn ids_of(units: Seq<UnitView>) -> Set<u128> {
    Set::new(|id: u128| exists|i: int| 0 <= i < units.len() && #[trigger] units[i].id == id)
}

/// After a write the namespace holds what it held before and the chunks of
/// the batch, and nothing else.
pub proof fn law_upsert_adds_batch(store: Map<u128, UnitView>, batch: Seq<UnitView>)
    ensures
        upserted(store, batch).dom() == store.dom().union(ids_of(batch)),
        forall|id: u128|
            store.dom().contains(id) && !ids_of(batch).contains(id) ==> #[trigger] upserted(
                store,
                batch,
            )[id] == store[id],
    decreases batch.len(),
{
    if batch.len() == 0 {
        assert(ids_of(batch) =~= Set::<u128>::empty());
        assert(upserted(store, batch).dom() =~= store.dom().union(ids_of(batch)));
    } else {
        let before = batch.drop_last();
        law_upsert_adds_batch(store, before);
        assert forall|id: u128| ids_of(batch).contains(id) <==> (ids_of(before).contains(id) || id
            == batch.last().id) by {
            if ids_of(batch).contains(id) {
                let i = choose|i: int| 0 <= i < batch.len() && #[trigger] batch[i].id == id;
                if i < before.len() {
                    assert(before[i].id == id);
                }
            }
            if ids_of(before).contains(id) {
                let i = choose|i: int| 0 <= i < before.len() && #[trigger] before[i].id == id;
                assert(batch[i].id == id);
            }
            if id == batch.last().id {
                assert(batch[batch.len() - 1].id == id);
            }
        }
        assert(upserted(store, batch).dom() =~= store.dom().union(ids_of(batch)));
    }
}

/// Writing a batch lays the chunks of the batch over what the namespace held.
proof fn lemma_upsert_overlays(store: Map<u128, UnitView>, batch: Seq<UnitView>)
    ensures
        upserted(store, batch) == store.union_prefer_right(upserted(Map::empty(), batch)),
    decreases batch.len(),
{
    if batch.len() == 0 {
        assert(upserted(store, batch) =~= store.union_prefer_right(
            upserted(Map::empty(), batch),
        ));
    } else {
        lemma_upsert_overlays(store, batch.drop_last());
        assert(upserted(store, batch) =~= store.union_prefer_right(
            upserted(Map::empty(), batch),
        ));
    }
}

/// Writing is idempotent: the same batch written twice leaves the namespace
/// as it was after the first write.
pub proof fn law_upsert_idempotent(store: Map<u128, UnitView>, batch: Seq<UnitView>)
    ensures
        upserted(upserted(store, batch), batch) == upserted(store, batch),
{
    lemma_upsert_overlays(store, batch);
    lemma_upsert_overlays(upserted(store, batch), batch);
    assert(upserted(upserted(store, batch), batch) =~= upserted(store, batch));
}

} // verus!
