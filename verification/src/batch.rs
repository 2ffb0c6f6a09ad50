//! Embedding chunks batch by batch.
//!
//! Chunks wait until a batch is full or the stream has ended; one embedding
//! call is made per batch. The vectors that come back are given to the chunks
//! by position. A call that fails, returns the wrong number of vectors or a
//! vector of the wrong dimension fails the whole batch.
use crate::error::PipelineError;
use crate::text::texts_of;
use crate::unit::{clone_bits, unit_views, Unit, UnitView};
use vstd::prelude::*;

verus! {

/// The number of items of the next batch.
pub open spec fn batch_len(pending: nat, size: usize) -> nat {
    if pending <= size {
        pending
    } else {
        size as nat
    }
}

/// Takes the next batch from the front of the pending chunks: `size` of them,
/// or all that are left.
pub fn take_batch(pending: &mut Vec<Unit>, size: usize) -> (batch: Vec<Unit>)
    ensures
        batch@ == old(pending)@.take(batch_len(old(pending)@.len(), size) as int),
        final(pending)@ == old(pending)@.skip(batch_len(old(pending)@.len(), size) as int),
{
    let n = if pending.len() <= size {
        pending.len()
    } else {
        size
    };
    let mut rest = pending.split_off(n);
    std::mem::swap(pending, &mut rest);
    assert(rest@ =~= old(pending)@.take(n as int));
    assert(pending@ =~= old(pending)@.skip(n as int));
    rest
}

/// The batches that a list of items is cut into, in order.
pub open spec fn batches_of<T>(items: Seq<T>, size: usize) -> Seq<Seq<T>>
    decreases items.len(),
{
    if items.len() == 0 || size == 0 {
        Seq::empty()
    } else {
        seq![items.take(batch_len(items.len(), size) as int)] + batches_of(
            items.skip(batch_len(items.len(), size) as int),
            size,
        )
    }
}

/// The items of a list of batches, in order.
pub open spec fn joined<T>(batches: Seq<Seq<T>>) -> Seq<T>
    decreases batches.len(),
{
    if batches.len() == 0 {
        Seq::empty()
    } else {
        batches[0] + joined(batches.drop_first())
    }
}

/// Batching loses nothing and keeps the order: the batches, put end to end,
/// are the items. Every batch but the last is full, and none is empty.
pub proof fn law_batches_cover<T>(items: Seq<T>, size: usize)
    requires
        size >= 1,
    ensures
        joined(batches_of(items, size)) == items,
        forall|b: int|
            0 <= b < batches_of(items, size).len() ==> 1 <= (#[trigger] batches_of(
                items,
                size,
            )[b]).len() <= size,
        forall|b: int|
            0 <= b < batches_of(items, size).len() - 1 ==> (#[trigger] batches_of(
                items,
                size,
            )[b]).len() == size,
    decreases items.len(),
{
    if items.len() > 0 {
        let n = batch_len(items.len(), size) as int;
        let rest = batches_of(items.skip(n), size);
        let all = batches_of(items, size);
        law_batches_cover(items.skip(n), size);
        assert(all.drop_first() =~= rest);
        assert(items.take(n) + items.skip(n) =~= items);
        assert forall|b: int| 0 <= b < all.len() implies 1 <= (#[trigger] all[b]).len()
            <= size by {
            if b > 0 {
                assert(all[b] == rest[b - 1]);
            }
        }
        assert forall|b: int| 0 <= b < all.len() - 1 implies (#[trigger] all[b]).len()
            == size by {
            if b > 0 {
                assert(all[b] == rest[b - 1]);
            } else {
                assert(rest.len() > 0);
                assert(items.skip(n).len() > 0);
            }
        }
    } else {
        assert(joined(batches_of(items, size)) =~= items);
    }
}

/// The components of a list of vectors.
pub open spec fn bits_of(vectors: Seq<Vec<u32>>) -> Seq<Seq<u32>> {
    vectors.map_values(|v: Vec<u32>| v@)
}

/// The components of an optional list of vectors.
pub open spec fn option_bits(vectors: Option<Vec<Vec<u32>>>) -> Option<Seq<Seq<u32>>> {
    match vectors {
        Some(list) => Some(bits_of(list@)),
        None => None,
    }
}

/// Whether an embedding call answered as it must: with `count` vectors,
/// each of the given dimension.
pub open spec fn answers_all(vectors: Option<Seq<Seq<u32>>>, count: nat, dimension: usize) -> bool {
    match vectors {
        Some(list) => list.len() == count && forall|i: int|
            0 <= i < list.len() ==> (#[trigger] list[i]).len() == dimension,
        None => false,
    }
}

/// Whether an embedding call answered a batch as it must: with one vector
/// per chunk, each of the dimension of the namespace.
pub open spec fn vectors_fit(batch: Seq<UnitView>, vectors: Option<Seq<Seq<u32>>>, dimension: usize) -> bool {
    answers_all(vectors, batch.len(), dimension)
}

/// The chunks of a batch, each with the vector at its own position.
pub open spec fn embedded(batch: Seq<UnitView>, vectors: Seq<Seq<u32>>) -> Seq<UnitView> {
    Seq::new(batch.len(), |i: int| UnitView { embedding: Some(vectors[i]), ..batch[i] })
}

/// Order is kept: after a batch was embedded, the chunk at every position
/// carries the vector that came back at that position, and is otherwise the
/// chunk that went in at that position.
pub proof fn law_vectors_keep_order(batch: Seq<UnitView>, vectors: Seq<Seq<u32>>, i: int)
    requires
        vectors.len() == batch.len(),
        0 <= i < batch.len(),
    ensures
        embedded(batch, vectors).len() == batch.len(),
        embedded(batch, vectors)[i].embedding == Some(vectors[i]),
        embedded(batch, vectors)[i] == (UnitView { embedding: Some(vectors[i]), ..batch[i] }),
{
}

/// Checks the answer of an embedding call: `None` is a failed call; an
/// answer must hold `count` vectors of the given dimension.
pub fn check_vectors(vectors: &Option<Vec<Vec<u32>>>, count: usize, dimension: usize) -> (ok: bool)
    ensures
        ok == answers_all(option_bits(*vectors), count as nat, dimension),
{
    let list = match vectors {
        Some(list) => list,
        None => {
            return false;
        },
    };
    if list.len() != count {
        return false;
    }
    let mut i: usize = 0;
    while i < list.len()
        invariant
            i <= list.len(),
            list.len() == count,
            option_bits(*vectors) == Some(bits_of(list@)),
            forall|j: int| 0 <= j < i ==> (#[trigger] bits_of(list@)[j]).len() == dimension,
        decreases list.len() - i,
    {
        if list[i].len() != dimension {
            assert(bits_of(list@)[i as int].len() != dimension);
            return false;
        }
        i += 1;
    }
    true
}

/// Gives every chunk of a batch its vector: vector `i` goes to chunk `i`.
/// `vectors` is `None` where the embedding call failed. The batch fails as a
/// whole with an embedding error unless there is exactly one vector per
/// chunk and every vector has the dimension of the namespace.
pub fn assign_embeddings(batch: Vec<Unit>, vectors: &Option<Vec<Vec<u32>>>, dimension: usize) -> (out:
    Result<Vec<Unit>, PipelineError>)
    ensures
        match out {
            Ok(units) => vectors_fit(unit_views(batch@), option_bits(*vectors), dimension)
                && unit_views(units@) == embedded(
                unit_views(batch@),
                option_bits(*vectors)->0,
            ),
            Err(e) => e == PipelineError::EmbeddingError && !vectors_fit(
                unit_views(batch@),
                option_bits(*vectors),
                dimension,
            ),
        },
{
    if !check_vectors(vectors, batch.len(), dimension) {
        return Err(PipelineError::EmbeddingError);
    }
    let list = match vectors {
        Some(list) => list,
        None => {
            return Err(PipelineError::EmbeddingError);
        },
    };
    let ghost all = unit_views(batch@);
    let ghost bits = bits_of(list@);
    let total = batch.len();
    let mut units: Vec<Unit> = Vec::new();
    let mut i: usize = 0;
    for unit in it: batch
        invariant
            unit_views(it.seq()) == all,
            it.seq().len() == total,
            list.len() == total,
            bits == bits_of(list@),
            i == it.index(),
            unit_views(units@) == embedded(all, bits).take(i as int),
    {
        let mut unit = unit;
        assert(all[i as int] == unit@);
        unit.embedding = Some(clone_bits(&list[i]));
        let ghost before = unit_views(units@);
        units.push(unit);
        assert(unit_views(units@) =~= before.push(unit@));
        assert(embedded(all, bits).take(i + 1) =~= embedded(all, bits).take(i as int).push(
            unit@,
        ));
        i += 1;
    }
    assert(embedded(all, bits).take(total as int) =~= embedded(all, bits));
    Ok(units)
}

/// The text that the indexing framework embeds for a chunk: what its
/// metadata holds, one line per key, and behind it the content.
pub uninterp spec fn embeddable(content: Seq<char>, metadata: Map<Seq<char>, Seq<char>>) -> Seq<
    char,
>;

/// Calls `swiftide_core::indexing::Node::as_embeddables` on a node with the
/// content and the metadata of the unit. In the default mode of a node this
/// gives one text, made of the metadata in the order of its keys and of the
/// chunk. It depends on the content and on what the metadata holds under
/// each key; the contract names it.
#[verifier::external_body]
fn embeddable_text(unit: &Unit) -> (text: String)
    ensures
        text@ == embeddable(unit@.content, unit@.metadata),
{
    let mut node = swiftide_core::indexing::TextNode::new(unit.content.as_str());
    for entry in unit.metadata.iter() {
        node.metadata.insert(entry.key.as_str(), entry.value.as_str());
    }
    node.as_embeddables().into_iter().map(|(_, text)| text).collect()
}

/// The texts that stand for the chunks of a list when they are embedded.
pub open spec fn embeddables_of(units: Seq<UnitView>) -> Seq<Seq<char>> {
    units.map_values(|u: UnitView| embeddable(u.content, u.metadata))
}

/// The texts of a batch, in order: what the embedding call is made with.
/// A chunk is embedded together with its metadata, so that a search finds
/// it by what was generated about it as well.
pub fn embedding_inputs(batch: &Vec<Unit>) -> (texts: Vec<String>)
    ensures
        texts_of(texts@) == embeddables_of(unit_views(batch@)),
{
    let mut texts: Vec<String> = Vec::new();
    let mut i: usize = 0;
    while i < batch.len()
        invariant
            i <= batch.len(),
            texts_of(texts@) == embeddables_of(unit_views(batch@)).take(i as int),
        decreases batch.len() - i,
    {
        let text = embeddable_text(&batch[i]);
        let ghost before = texts_of(texts@);
        texts.push(text);
        assert(texts_of(texts@) =~= before.push(text@));
        assert(embeddables_of(unit_views(batch@)).take(i + 1) =~= embeddables_of(
            unit_views(batch@),
        ).take(i as int).push(text@));
        i += 1;
    }
    assert(embeddables_of(unit_views(batch@)).take(batch.len() as int) =~= embeddables_of(
        unit_views(batch@),
    ));
    texts
}

} // verus!
