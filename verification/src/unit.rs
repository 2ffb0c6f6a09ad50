//! The items that flow through the indexing pipeline.
use crate::error::PipelineError;
use vstd::prelude::*;

verus! {

/// The two kinds of content that the engine indexes.
#[derive(Clone, Copy, Debug, PartialEq, Eq, Structural)]
pub enum ContentClass {
    Prose,
    Code,
}

/// One key of a unit's metadata with its value.
#[derive(Debug, PartialEq, Eq)]
pub struct MetadataEntry {
    pub key: String,
    pub value: String,
}

/// A file, or a chunk cut from one, on its way to the vector store.
#[derive(Debug, PartialEq, Eq)]
pub struct Unit {
    /// Identifier under which the unit is stored: a function of path and content.
    pub id: u128,
    /// Hash of the content alone, by which the cache recognises it.
    pub fingerprint: u128,
    /// Fingerprint of the file this unit was cut from; its own for a whole file.
    pub lineage: u128,
    pub path: String,
    pub content: String,
    pub class: ContentClass,
    /// Where the content starts in the file, counted in characters.
    pub start: usize,
    /// Where the content ends in the file, counted in characters.
    pub end: usize,
    /// Ordinal among the chunks of the same file.
    pub position: usize,
    /// Later entries override earlier ones with the same key.
    pub metadata: Vec<MetadataEntry>,
    /// The bit patterns of the single precision components of the vector.
    pub embedding: Option<Vec<u32>>,
    pub error: Option<PipelineError>,
}

/// What a unit is, with texts as character sequences and the metadata as a map.
pub struct UnitView {
    pub id: u128,
    pub fingerprint: u128,
    pub lineage: u128,
    pub path: Seq<char>,
    pub content: Seq<char>,
    pub class: ContentClass,
    pub start: nat,
    pub end: nat,
    pub position: nat,
    pub metadata: Map<Seq<char>, Seq<char>>,
    pub embedding: Option<Seq<u32>>,
    pub error: Option<PipelineError>,
}

/// The identifier that the indexing framework derives from a path and a text.
pub uninterp spec fn node_id(path: Seq<char>, content: Seq<char>) -> u128;

/// Calls `swiftide_core::indexing::Node::id` on a node with the given path
/// and chunk. The identifier is a version 3 UUID over the bytes of the path
/// followed by the bytes of the chunk, so it depends on these two alone; the
/// contract only names it.
#[verifier::external_body]
fn compute_node_id(path: &str, content: &str) -> (id: u128)
    ensures
        id == node_id(path@, content@),
{
    let mut node = swiftide_core::indexing::TextNode::new(content);
    node.path = path.into();
    node.id().as_u128()
}

/// The fingerprint of a text: its identifier under the empty path.
pub open spec fn fingerprint_of(content: Seq<char>) -> u128 {
    node_id(Seq::<char>::empty(), content)
}

/// Computes the content fingerprint by which a unit is found in the cache.
pub fn fingerprint(content: &str) -> (fp: u128)
    ensures
        fp == fingerprint_of(content@),
{
    let empty = String::new();
    compute_node_id(empty.as_str(), content)
}

/// The map that a list of entries stands for: the last entry of a key wins.
pub open spec fn metadata_map(entries: Seq<MetadataEntry>) -> Map<Seq<char>, Seq<char>>
    decreases entries.len(),
{
    if entries.len() == 0 {
        Map::empty()
    } else {
        metadata_map(entries.drop_last()).insert(entries.last().key@, entries.last().value@)
    }
}

/// A copy of a list of metadata entries.
pub fn clone_entries(entries: &Vec<MetadataEntry>) -> (copy: Vec<MetadataEntry>)
    ensures
        copy@ == entries@,
{
    let mut copy: Vec<MetadataEntry> = Vec::new();
    let mut i: usize = 0;
    while i < entries.len()
        invariant
            i <= entries.len(),
            copy@ == entries@.take(i as int),
        decreases entries.len() - i,
    {
        copy.push(MetadataEntry { key: entries[i].key.clone(), value: entries[i].value.clone() });
        assert(copy@ == entries@.take(i + 1));
        i += 1;
    }
    copy
}

/// A copy of the components of a vector.
pub fn clone_bits(bits: &Vec<u32>) -> (copy: Vec<u32>)
    ensures
        copy@ == bits@,
{
    let mut copy: Vec<u32> = Vec::new();
    let mut i: usize = 0;
    while i < bits.len()
        invariant
            i <= bits.len(),
            copy@ == bits@.take(i as int),
        decreases bits.len() - i,
    {
        copy.push(bits[i]);
        assert(copy@ == bits@.take(i + 1));
        i += 1;
    }
    copy
}

impl View for Unit {
    type V = UnitView;

    open spec fn view(&self) -> UnitView {
        UnitView {
            id: self.id,
            fingerprint: self.fingerprint,
            lineage: self.lineage,
            path: self.path@,
            content: self.content@,
            class: self.class,
            start: self.start as nat,
            end: self.end as nat,
            position: self.position as nat,
            metadata: metadata_map(self.metadata@),
            embedding: match self.embedding {
                Some(v) => Some(v@),
                None => None,
            },
            error: self.error,
        }
    }
}

impl UnitView {
    /// Identifier and fingerprint are those of the path and the content.
    pub open spec fn well_formed(self) -> bool {
        &&& self.id == node_id(self.path, self.content)
        &&& self.fingerprint == fingerprint_of(self.content)
        &&& self.start <= self.end
    }

    /// A unit as the loader hands it over: the whole file, nothing attached.
    pub open spec fn of_file(path: Seq<char>, content: Seq<char>, class: ContentClass, size: nat) -> UnitView {
        UnitView {
            id: node_id(path, content),
            fingerprint: fingerprint_of(content),
            lineage: fingerprint_of(content),
            path,
            content,
            class,
            start: 0,
            end: size,
            position: 0,
            metadata: Map::empty(),
            embedding: None,
            error: None,
        }
    }

    /// The chunk at `position` of this file that holds `content` at characters `start..end`.
    pub open spec fn chunk_at(self, content: Seq<char>, start: nat, end: nat, position: nat) -> UnitView {
        UnitView {
            id: node_id(self.path, content),
            fingerprint: fingerprint_of(content),
            lineage: self.fingerprint,
            path: self.path,
            content,
            class: self.class,
            start,
            end,
            position,
            metadata: self.metadata,
            embedding: None,
            error: None,
        }
    }
}

/// A unit marked with the error that took it out of the stream.
pub open spec fn with_error(unit: UnitView, error: PipelineError) -> UnitView {
    UnitView { error: Some(error), ..unit }
}

/// The units of a list, each marked with the error.
pub open spec fn marked(units: Seq<UnitView>, error: PipelineError) -> Seq<UnitView> {
    units.map_values(|u: UnitView| with_error(u, error))
}

/// The views of a list of units, in order.
pub open spec fn unit_views(units: Seq<Unit>) -> Seq<UnitView> {
    units.map_values(|u: Unit| u@)
}

impl Unit {
    /// The unit of a whole file of the given class.
    pub fn from_file(path: String, content: String, class: ContentClass) -> (unit: Unit)
        ensures
            unit@ == UnitView::of_file(path@, content@, class, content@.len()),
            unit@.well_formed(),
    {
        let id = compute_node_id(path.as_str(), content.as_str());
        let fp = fingerprint(content.as_str());
        let size = content.as_str().unicode_len();
        Unit {
            id,
            fingerprint: fp,
            lineage: fp,
            path,
            content,
            class,
            start: 0,
            end: size,
            position: 0,
            metadata: Vec::new(),
            embedding: None,
            error: None,
        }
    }

    /// The chunk of this unit that holds `content` at characters `start..end`.
    /// It inherits path, class and metadata, and names this unit as its origin.
    pub fn chunk(&self, content: String, start: usize, end: usize, position: usize) -> (chunk: Unit)
        ensures
            chunk@ == self@.chunk_at(content@, start as nat, end as nat, position as nat),
    {
        let id = compute_node_id(self.path.as_str(), content.as_str());
        let fp = fingerprint(content.as_str());
        Unit {
            id,
            fingerprint: fp,
            lineage: self.fingerprint,
            path: self.path.clone(),
            content,
            class: self.class,
            start,
            end,
            position,
            metadata: clone_entries(&self.metadata),
            embedding: None,
            error: None,
        }
    }

    /// A copy of this unit.
    pub fn duplicate(&self) -> (copy: Unit)
        ensures
            copy@ == self@,
    {
        Unit {
            id: self.id,
            fingerprint: self.fingerprint,
            lineage: self.lineage,
            path: self.path.clone(),
            content: self.content.clone(),
            class: self.class,
            start: self.start,
            end: self.end,
            position: self.position,
            metadata: clone_entries(&self.metadata),
            embedding: match &self.embedding {
                Some(bits) => Some(clone_bits(bits)),
                None => None,
            },
            error: self.error,
        }
    }

    /// Attaches a value under a key, replacing what the key held before.
    pub fn insert_metadata(&mut self, key: String, value: String)
        ensures
            final(self)@ == (UnitView {
                metadata: old(self)@.metadata.insert(key@, value@),
                ..old(self)@
            }),
    {
        self.metadata.push(MetadataEntry { key, value });
        assert(self.metadata@.drop_last() == old(self).metadata@);
    }
}

/// Marks every unit of a list with the error.
pub fn mark_all(units: Vec<Unit>, error: PipelineError) -> (out: Vec<Unit>)
    ensures
        unit_views(out@) == marked(unit_views(units@), error),
{
    let ghost all = unit_views(units@);
    let total = units.len();
    let mut out: Vec<Unit> = Vec::new();
    let mut i: usize = 0;
    for unit in it: units
        invariant
            unit_views(it.seq()) == all,
            it.seq().len() == total,
            i == it.index(),
            unit_views(out@) == marked(all, error).take(i as int),
    {
        let mut unit = unit;
        assert(all[i as int] == unit@);
        unit.error = Some(error);
        let ghost before = unit_views(out@);
        out.push(unit);
        assert(unit_views(out@) =~= before.push(unit@));
        assert(marked(all, error).take(i + 1) =~= marked(all, error).take(i as int).push(unit@));
        i += 1;
    }
    assert(marked(all, error).take(total as int) =~= marked(all, error));
    out
}

/// Copies of the units of a list, in order.
pub fn duplicate_all(units: &Vec<Unit>) -> (copies: Vec<Unit>)
    ensures
        unit_views(copies@) == unit_views(units@),
{
    let mut copies: Vec<Unit> = Vec::new();
    let mut i: usize = 0;
    while i < units.len()
        invariant
            i <= units.len(),
            unit_views(copies@) == unit_views(units@).take(i as int),
        decreases units.len() - i,
    {
        let copy = units[i].duplicate();
        let ghost before = unit_views(copies@);
        copies.push(copy);
        assert(unit_views(copies@) =~= before.push(units@[i as int]@));
        assert(unit_views(units@).take(i + 1) =~= unit_views(units@).take(i as int).push(
            units@[i as int]@,
        ));
        i += 1;
    }
    assert(unit_views(units@).take(units.len() as int) =~= unit_views(units@));
    copies
}

} // verus!
