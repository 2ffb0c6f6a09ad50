//! Cutting a unit into chunks of bounded length.
//!
//! Where to cut is decided by the splitters of the indexing framework, which
//! know the structure of markdown and of source code. What they return is
//! then placed in the unit. What a splitter left out between its pieces is
//! taken in as pieces of its own, and a piece that is longer than the range
//! allows is cut by position, at line breaks where they are in reach. A
//! piece becomes a chunk only if its length is within the range and it is
//! found in the unit's content behind the chunk before it.
use crate::outline::{outline_unit, outlined, rust_outline, wants_outline};
use crate::text::{chars_of, option_texts, texts_of};
use crate::batch::joined;
use crate::error::PipelineError;
use crate::unit::{unit_views, with_error, ContentClass, Unit, UnitView};
use futures::{FutureExt, TryStreamExt};
use swiftide_core::ChunkerTransformer;
use vstd::prelude::*;
use vstd::string::StringExecFns;

verus! {

/// The lengths, in characters, that a chunk may have.
#[derive(Clone, Copy, Debug, PartialEq, Eq, Structural)]
pub struct ChunkRange {
    pub min: usize,
    pub max: usize,
}

impl ChunkRange {
    /// A range that at least one text fits in.
    pub open spec fn spec_is_valid(&self) -> bool {
        1 <= self.max && self.min <= self.max
    }

    /// Whether a piece of `len` characters may become a chunk. Only the last
    /// piece of a unit may be shorter than the minimum.
    pub open spec fn admits(self, len: nat, last: bool) -> bool {
        1 <= len <= self.max && (self.min <= len || last)
    }

    #[verifier::when_used_as_spec(spec_is_valid)]
    pub fn is_valid(&self) -> (valid: bool)
        ensures
            valid == self.spec_is_valid(),
    {
        1 <= self.max && self.min <= self.max
    }
}

/// A size as it is used: at least one.
pub open spec fn at_least_one(size: usize) -> usize {
    if size == 0 {
        1
    } else {
        size
    }
}

/// The largest index from `low` to `high` that stands behind a line break
/// of `text`; `low - 1` if there is none.
pub open spec fn last_break(text: Seq<char>, low: int, high: int) -> int
    decreases high - low + 1,
{
    if high < low {
        low - 1
    } else if 1 <= high <= text.len() && text[high - 1] == '\n' {
        high
    } else {
        last_break(text, low, high - 1)
    }
}

/// Where the part of `text` that starts at `from` ends when more than `max`
/// characters are left: behind the last line break that makes the part no
/// shorter than `min` and no longer than `max`, and behind `max` characters
/// where no line break is in reach.
pub open spec fn part_end(text: Seq<char>, from: nat, range: ChunkRange) -> nat {
    let low = from + at_least_one(range.min);
    let high = from + range.max;
    let at = last_break(text, low as int, high as int);
    if low <= at <= high {
        at as nat
    } else {
        high as nat
    }
}

/// The parts that a text is cut into by position from `from` on. What is
/// left goes into one part if the range allows its length; otherwise the
/// next part ends at the nearest line break in reach.
pub open spec fn parts_from(text: Seq<char>, from: nat, range: ChunkRange) -> Seq<Seq<char>>
    decreases text.len() - from,
{
    if from >= text.len() || !range.is_valid() {
        Seq::empty()
    } else if text.len() - from <= range.max {
        seq![text.subrange(from as int, text.len() as int)]
    } else {
        seq![text.subrange(from as int, part_end(text, from, range) as int)] + parts_from(
            text,
            part_end(text, from, range),
            range,
        )
    }
}

/// The first `n` pieces, with every piece that is longer than the range
/// allows cut into parts by position.
pub open spec fn cut_long(pieces: Seq<Seq<char>>, range: ChunkRange, n: nat) -> Seq<Seq<char>>
    decreases n,
{
    if n == 0 {
        Seq::empty()
    } else if range.is_valid() && pieces[n - 1].len() > range.max {
        cut_long(pieces, range, (n - 1) as nat) + parts_from(pieces[n - 1], 0, range)
    } else {
        cut_long(pieces, range, (n - 1) as nat).push(pieces[n - 1])
    }
}

/// Cuts a text into parts by position: each part is as long as the range
/// allows and ends behind a line break where one is in reach. A range that
/// no text fits in gives no part.
pub fn cut_by_lines(text: &str, range: &ChunkRange) -> (parts: Vec<String>)
    ensures
        texts_of(parts@) == parts_from(text@, 0, *range),
{
    let chars = chars_of(text);
    let mut parts: Vec<String> = Vec::new();
    assert(texts_of(parts@) =~= Seq::<Seq<char>>::empty());
    if !range.is_valid() {
        return parts;
    }
    let least = if range.min == 0 {
        1
    } else {
        range.min
    };
    let mut from: usize = 0;
    while from < chars.len()
        invariant
            from <= chars.len(),
            chars@ == text@,
            range.is_valid(),
            least == at_least_one(range.min),
            texts_of(parts@) + parts_from(text@, from as nat, *range) == parts_from(
                text@,
                0,
                *range,
            ),
        decreases chars.len() - from,
    {
        let ghost before = texts_of(parts@);
        if chars.len() - from <= range.max {
            let part = String::from_str(text.substring_char(from, chars.len()));
            parts.push(part);
            assert(texts_of(parts@) =~= before.push(part@));
            assert(before.push(part@) =~= before + seq![part@]);
            assert(parts_from(text@, chars.len() as nat, *range) =~= Seq::<Seq<char>>::empty());
            from = chars.len();
        } else {
            let low = from + least;
            let high = from + range.max;
            let mut end = high;
            while end >= low && chars[end - 1] != '\n'
                invariant
                    low - 1 <= end <= high,
                    1 <= low,
                    high <= chars.len(),
                    last_break(chars@, low as int, high as int) == last_break(
                        chars@,
                        low as int,
                        end as int,
                    ),
                decreases end,
            {
                end -= 1;
            }
            if end < low {
                end = high;
            }
            assert(end == part_end(text@, from as nat, *range));
            let part = String::from_str(text.substring_char(from, end));
            parts.push(part);
            assert(texts_of(parts@) =~= before.push(part@));
            assert(before.push(part@) + parts_from(text@, end as nat, *range) =~= before + (seq![
                part@,
            ] + parts_from(text@, end as nat, *range)));
            from = end;
        }
    }
    assert(parts_from(text@, from as nat, *range) =~= Seq::<Seq<char>>::empty());
    assert(texts_of(parts@) + Seq::<Seq<char>>::empty() =~= texts_of(parts@));
    parts
}

/// Cuts every piece that is longer than the range allows into parts by
/// position and leaves the others as they are.
pub fn cut_long_pieces(pieces: &Vec<String>, range: &ChunkRange) -> (out: Vec<String>)
    ensures
        texts_of(out@) == cut_long(texts_of(pieces@), *range, pieces.len() as nat),
{
    let mut out: Vec<String> = Vec::new();
    let mut i: usize = 0;
    assert(texts_of(out@) =~= Seq::<Seq<char>>::empty());
    while i < pieces.len()
        invariant
            i <= pieces.len(),
            texts_of(out@) == cut_long(texts_of(pieces@), *range, i as nat),
        decreases pieces.len() - i,
    {
        let ghost before = texts_of(out@);
        assert(texts_of(pieces@)[i as int] == pieces@[i as int]@);
        if range.is_valid() && pieces[i].as_str().unicode_len() > range.max {
            let mut parts = cut_by_lines(pieces[i].as_str(), range);
            let ghost added = texts_of(parts@);
            out.append(&mut parts);
            assert(texts_of(out@) =~= before + added);
        } else {
            let piece = pieces[i].clone();
            out.push(piece);
            assert(texts_of(out@) =~= before.push(piece@));
        }
        i += 1;
    }
    out
}

/// Cutting by position loses nothing: the parts, put end to end, are the
/// text. Every part holds between one and `max` characters, and every part
/// but the last holds at least `min`.
pub proof fn law_parts_keep_the_text(text: Seq<char>, from: nat, range: ChunkRange)
    requires
        range.is_valid(),
        from <= text.len(),
    ensures
        joined(parts_from(text, from, range)) == text.subrange(from as int, text.len() as int),
        forall|i: int|
            0 <= i < parts_from(text, from, range).len() ==> 1 <= (#[trigger] parts_from(
                text,
                from,
                range,
            )[i]).len() <= range.max,
        forall|i: int|
            0 <= i < parts_from(text, from, range).len() - 1 ==> range.min <= (
            #[trigger] parts_from(text, from, range)[i]).len(),
    decreases text.len() - from,
{
    let parts = parts_from(text, from, range);
    if from >= text.len() {
        assert(joined(parts) =~= text.subrange(from as int, text.len() as int));
    } else if text.len() - from <= range.max {
        assert(parts.drop_first() =~= Seq::<Seq<char>>::empty());
        assert(joined(parts.drop_first()) =~= Seq::<char>::empty());
        assert(joined(parts) == parts[0] + joined(parts.drop_first()));
        assert(joined(parts) =~= text.subrange(from as int, text.len() as int));
    } else {
        let end = part_end(text, from, range);
        let rest = parts_from(text, end, range);
        law_parts_keep_the_text(text, end, range);
        assert(parts.drop_first() =~= rest);
        assert(text.subrange(from as int, end as int) + text.subrange(
            end as int,
            text.len() as int,
        ) =~= text.subrange(from as int, text.len() as int));
        assert forall|i: int| 0 <= i < parts.len() implies 1 <= (#[trigger] parts[i]).len()
            <= range.max by {
            if i > 0 {
                assert(parts[i] == rest[i - 1]);
            }
        }
        assert forall|i: int| 0 <= i < parts.len() - 1 implies range.min <= (
        #[trigger] parts[i]).len() by {
            if i > 0 {
                assert(parts[i] == rest[i - 1]);
            }
        }
    }
}

/// Whether `piece` stands in `text` at index `at`.
pub open spec fn occurs_at(text: Seq<char>, piece: Seq<char>, at: int) -> bool {
    0 <= at && at + piece.len() <= text.len() && text.subrange(at, at + piece.len()) == piece
}

/// The first index at or behind `from` where `piece` stands in `text`.
pub open spec fn first_occurrence(text: Seq<char>, piece: Seq<char>, from: nat) -> Option<nat>
    decreases text.len() + 1 - from,
{
    if from + piece.len() > text.len() {
        None
    } else if occurs_at(text, piece, from as int) {
        Some(from)
    } else {
        first_occurrence(text, piece, from + 1)
    }
}

/// What `first_occurrence` finds is an occurrence, and the first one.
pub proof fn lemma_first_occurrence(text: Seq<char>, piece: Seq<char>, from: nat)
    ensures
        match first_occurrence(text, piece, from) {
            Some(at) => from <= at && occurs_at(text, piece, at as int) && forall|j: int|
                from <= j < at ==> !occurs_at(text, piece, j),
            None => forall|j: int| from <= j ==> !occurs_at(text, piece, j),
        },
    decreases text.len() + 1 - from,
{
    if from + piece.len() <= text.len() && !occurs_at(text, piece, from as int) {
        lemma_first_occurrence(text, piece, from + 1);
    }
}

/// Whether the first `n` characters of `piece` stand in `text` at `at`.
spec fn prefix_matches(text: Seq<char>, piece: Seq<char>, at: int, n: int) -> bool {
    forall|j: int| 0 <= j < n ==> text[at + j] == piece[j]
}

/// Searches `text` for `piece`, starting at `from`.
pub fn find_from(text: &Vec<char>, piece: &Vec<char>, from: usize) -> (found: Option<usize>)
    ensures
        match found {
            Some(at) => first_occurrence(text@, piece@, from as nat) == Some(at as nat),
            None => first_occurrence(text@, piece@, from as nat).is_none(),
        },
{
    if piece.len() > text.len() || from > text.len() - piece.len() {
        return None;
    }
    let stop = text.len() - piece.len();
    let mut at = from;
    while at <= stop
        invariant
            from <= at <= stop + 1,
            stop == text.len() - piece.len(),
            first_occurrence(text@, piece@, from as nat) == first_occurrence(
                text@,
                piece@,
                at as nat,
            ),
        decreases stop + 1 - at,
    {
        let mut n: usize = 0;
        while n < piece.len() && text[at + n] == piece[n]
            invariant
                at <= stop,
                stop == text.len() - piece.len(),
                n <= piece.len(),
                prefix_matches(text@, piece@, at as int, n as int),
            decreases piece.len() - n,
        {
            n += 1;
        }
        if n == piece.len() {
            assert(text@.subrange(at as int, at + piece@.len()) =~= piece@);
            return Some(at);
        }
        assert(!occurs_at(text@, piece@, at as int)) by {
            if occurs_at(text@, piece@, at as int) {
                assert(text@.subrange(at as int, at + piece@.len())[n as int] == piece@[n as int]);
            }
        }
        at += 1;
    }
    None
}

/// Whether a character is white space.
pub open spec fn is_white(c: char) -> bool {
    c == ' ' || c == '\t' || c == '\r' || c == '\n'
}

/// The first index from `from` on that holds no white space; `end` if there
/// is none before it.
pub open spec fn ink_start(text: Seq<char>, from: nat, end: nat) -> nat
    decreases end - from,
{
    if from >= end || !is_white(text[from as int]) {
        from
    } else {
        ink_start(text, from + 1, end)
    }
}

/// The index behind the last character before `end` that is no white
/// space; `from` if there is none behind it.
pub open spec fn ink_end(text: Seq<char>, from: nat, end: nat) -> nat
    decreases end,
{
    if end <= from || !is_white(text[end - 1]) {
        end
    } else {
        ink_end(text, from, (end - 1) as nat)
    }
}

/// What stands in `text` from `from` to `to`, without the white space
/// around it, as a piece of its own; no piece where there is only white
/// space.
pub open spec fn gap_piece(text: Seq<char>, from: nat, to: nat) -> Seq<Seq<char>> {
    if ink_start(text, from, to) < to {
        seq![
            text.subrange(
                ink_start(text, from, to) as int,
                ink_end(text, ink_start(text, from, to), to) as int,
            ),
        ]
    } else {
        Seq::empty()
    }
}

/// The pieces from index `k` on, and between them what the splitter left
/// out of `text`: in front of every piece that is found behind `cursor`
/// stands what lies between `cursor` and the piece, and behind the last
/// piece what is left of the text.
pub open spec fn with_gaps(text: Seq<char>, pieces: Seq<Seq<char>>, k: nat, cursor: nat) -> Seq<
    Seq<char>,
>
    decreases pieces.len() - k,
{
    if k >= pieces.len() {
        gap_piece(text, cursor, text.len())
    } else {
        match first_occurrence(text, pieces[k as int], cursor) {
            Some(at) => gap_piece(text, cursor, at) + seq![pieces[k as int]] + with_gaps(
                text,
                pieces,
                k + 1,
                at + pieces[k as int].len(),
            ),
            None => seq![pieces[k as int]] + with_gaps(text, pieces, k + 1, cursor),
        }
    }
}

/// The pieces of a unit as they are placed: with what the splitter left
/// out between them, and with every piece that is longer than the range
/// allows cut into parts by position.
pub open spec fn made_ready(text: Seq<char>, pieces: Seq<Seq<char>>, range: ChunkRange) -> Seq<
    Seq<char>,
> {
    cut_long(with_gaps(text, pieces, 0, 0), range, with_gaps(text, pieces, 0, 0).len())
}

proof fn lemma_ink_start(text: Seq<char>, from: nat, end: nat)
    requires
        from <= end <= text.len(),
    ensures
        from <= ink_start(text, from, end) <= end,
        forall|i: int| from <= i < ink_start(text, from, end) ==> is_white(#[trigger] text[i]),
    decreases end - from,
{
    if from < end && is_white(text[from as int]) {
        lemma_ink_start(text, from + 1, end);
    }
}

proof fn lemma_ink_end(text: Seq<char>, from: nat, end: nat)
    requires
        from <= end <= text.len(),
    ensures
        from <= ink_end(text, from, end) <= end,
        forall|i: int| ink_end(text, from, end) <= i < end ==> is_white(#[trigger] text[i]),
    decreases end,
{
    if end > from && is_white(text[end - 1]) {
        lemma_ink_end(text, from, (end - 1) as nat);
    }
}

/// Taking in what lies between two pieces loses white space only: every
/// other character between `from` and `to` stands in the piece that is
/// made of them.
pub proof fn law_gap_loses_white_space_only(text: Seq<char>, from: nat, to: nat, i: int)
    requires
        from <= to <= text.len(),
        from <= i < to,
        !is_white(text[i]),
    ensures
        gap_piece(text, from, to).len() == 1,
        ink_start(text, from, to) <= i < ink_end(text, ink_start(text, from, to), to),
        gap_piece(text, from, to)[0][i - ink_start(text, from, to)] == text[i],
{
    lemma_ink_start(text, from, to);
    lemma_ink_end(text, ink_start(text, from, to), to);
}

/// Appends what stands between `from` and `to` to the pieces, if it is more
/// than white space.
fn push_gap(content: &str, text: &Vec<char>, from: usize, to: usize, out: &mut Vec<String>)
    requires
        text@ == content@,
        from <= to <= text.len(),
    ensures
        texts_of(final(out)@) == texts_of(old(out)@) + gap_piece(text@, from as nat, to as nat),
{
    let ghost before = texts_of(out@);
    let mut first = from;
    while first < to && (text[first] == ' ' || text[first] == '\t' || text[first] == '\r'
        || text[first] == '\n')
        invariant
            from <= first <= to <= text.len(),
            ink_start(text@, from as nat, to as nat) == ink_start(text@, first as nat, to as nat),
        decreases to - first,
    {
        first += 1;
    }
    if first < to {
        let mut last = to;
        while last > first && (text[last - 1] == ' ' || text[last - 1] == '\t' || text[last - 1]
            == '\r' || text[last - 1] == '\n')
            invariant
                first <= last <= to <= text.len(),
                ink_end(text@, first as nat, to as nat) == ink_end(
                    text@,
                    first as nat,
                    last as nat,
                ),
            decreases last,
        {
            last -= 1;
        }
        let piece = String::from_str(content.substring_char(first, last));
        out.push(piece);
        assert(texts_of(out@) =~= before.push(piece@));
        assert(before.push(piece@) =~= before + gap_piece(text@, from as nat, to as nat));
    } else {
        assert(before + gap_piece(text@, from as nat, to as nat) =~= before);
    }
}

/// Puts between the pieces what the splitter left out of the content, so
/// that nothing but white space is lost on the way to the chunks.
pub fn fill_gaps(content: &str, pieces: &Vec<String>) -> (out: Vec<String>)
    ensures
        texts_of(out@) == with_gaps(content@, texts_of(pieces@), 0, 0),
{
    let text = chars_of(content);
    let ghost all = texts_of(pieces@);
    let mut out: Vec<String> = Vec::new();
    let mut cursor: usize = 0;
    let mut k: usize = 0;
    assert(texts_of(out@) =~= Seq::<Seq<char>>::empty());
    while k < pieces.len()
        invariant
            k <= pieces.len(),
            cursor <= text.len(),
            text@ == content@,
            all == texts_of(pieces@),
            texts_of(out@) + with_gaps(text@, all, k as nat, cursor as nat) == with_gaps(
                text@,
                all,
                0,
                0,
            ),
        decreases pieces.len() - k,
    {
        let piece = chars_of(pieces[k].as_str());
        assert(piece@ == all[k as int]);
        let ghost before = texts_of(out@);
        match find_from(&text, &piece, cursor) {
            Some(at) => {
                proof {
                    lemma_first_occurrence(text@, piece@, cursor as nat);
                }
                push_gap(content, &text, cursor, at, &mut out);
                let ghost gapped = texts_of(out@);
                let copy = pieces[k].clone();
                out.push(copy);
                let end = at + piece.len();
                assert(texts_of(out@) =~= gapped.push(copy@));
                assert(gapped.push(copy@) + with_gaps(text@, all, (k + 1) as nat, end as nat)
                    =~= before + (gap_piece(text@, cursor as nat, at as nat) + seq![copy@]
                    + with_gaps(text@, all, (k + 1) as nat, end as nat)));
                cursor = end;
            },
            None => {
                let copy = pieces[k].clone();
                out.push(copy);
                assert(texts_of(out@) =~= before.push(copy@));
                assert(before.push(copy@) + with_gaps(text@, all, (k + 1) as nat, cursor as nat)
                    =~= before + (seq![copy@] + with_gaps(
                    text@,
                    all,
                    (k + 1) as nat,
                    cursor as nat,
                )));
            },
        }
        k += 1;
    }
    push_gap(content, &text, cursor, text.len(), &mut out);
    out
}

/// The chunks that the pieces from index `k` on give, when the chunk before
/// them ended at `cursor` and `position` chunks were made so far.
pub open spec fn placed_from(
    parent: UnitView,
    pieces: Seq<Seq<char>>,
    range: ChunkRange,
    k: nat,
    cursor: nat,
    position: nat,
) -> Seq<UnitView>
    decreases pieces.len() - k,
{
    if k >= pieces.len() {
        Seq::empty()
    } else {
        let piece = pieces[k as int];
        let spot = if range.admits(piece.len(), k + 1 == pieces.len()) {
            first_occurrence(parent.content, piece, cursor)
        } else {
            None
        };
        match spot {
            Some(at) => seq![parent.chunk_at(piece, at, at + piece.len(), position)] + placed_from(
                parent,
                pieces,
                range,
                k + 1,
                at + piece.len(),
                position + 1,
            ),
            None => placed_from(parent, pieces, range, k + 1, cursor, position),
        }
    }
}

/// The chunks of `parent` that a list of pieces gives.
pub open spec fn placed(parent: UnitView, pieces: Seq<Seq<char>>, range: ChunkRange) -> Seq<
    UnitView,
> {
    placed_from(parent, pieces, range, 0, 0, 0)
}

/// A piece that did not become a chunk, as it is reported: with the number
/// of the piece for its position, without a place in the unit, and marked
/// with a chunk error.
pub open spec fn turned_down(parent: UnitView, piece: Seq<char>, k: nat) -> UnitView {
    with_error(parent.chunk_at(piece, 0, 0, k), PipelineError::ChunkError)
}

/// The pieces from index `k` on that do not become chunks, when the chunk
/// before them ended at `cursor`.
pub open spec fn rejected_from(
    parent: UnitView,
    pieces: Seq<Seq<char>>,
    range: ChunkRange,
    k: nat,
    cursor: nat,
) -> Seq<UnitView>
    decreases pieces.len() - k,
{
    if k >= pieces.len() {
        Seq::empty()
    } else {
        let piece = pieces[k as int];
        let spot = if range.admits(piece.len(), k + 1 == pieces.len()) {
            first_occurrence(parent.content, piece, cursor)
        } else {
            None
        };
        match spot {
            Some(at) => rejected_from(parent, pieces, range, k + 1, at + piece.len()),
            None => seq![turned_down(parent, piece, k)] + rejected_from(
                parent,
                pieces,
                range,
                k + 1,
                cursor,
            ),
        }
    }
}

/// The pieces of a list that do not become chunks of `parent`.
pub open spec fn rejected(parent: UnitView, pieces: Seq<Seq<char>>, range: ChunkRange) -> Seq<
    UnitView,
> {
    rejected_from(parent, pieces, range, 0, 0)
}

/// What cutting gave.
#[derive(Debug, PartialEq, Eq)]
pub struct Chunked {
    /// The chunks, in the order of their place in the unit.
    pub chunks: Vec<Unit>,
    /// What was turned down, marked with a chunk error: the pieces that did
    /// not become chunks, or the unit itself if it could not be cut at all.
    pub rejected: Vec<Unit>,
}

/// Turns pieces into chunks of `parent`. A piece becomes a chunk if the range
/// admits its length and it occurs in the content behind the chunk before it;
/// the chunk then starts at the first such occurrence. Other pieces are
/// reported as rejected.
pub fn place_pieces(parent: &Unit, pieces: &Vec<String>, range: &ChunkRange) -> (out: Chunked)
    ensures
        unit_views(out.chunks@) == placed(parent@, texts_of(pieces@), *range),
        unit_views(out.rejected@) == rejected(parent@, texts_of(pieces@), *range),
        out.chunks.len() + out.rejected.len() == pieces.len(),
{
    let text = chars_of(parent.content.as_str());
    let mut chunks: Vec<Unit> = Vec::new();
    let mut lost: Vec<Unit> = Vec::new();
    let mut cursor: usize = 0;
    let mut k: usize = 0;
    let ghost all = texts_of(pieces@);
    assert(unit_views(chunks@) =~= Seq::<UnitView>::empty());
    assert(unit_views(lost@) =~= Seq::<UnitView>::empty());
    while k < pieces.len()
        invariant
            k <= pieces.len(),
            chunks.len() + lost.len() == k,
            cursor <= text.len(),
            text@ == parent@.content,
            all == texts_of(pieces@),
            unit_views(chunks@) + placed_from(
                parent@,
                all,
                *range,
                k as nat,
                cursor as nat,
                chunks.len() as nat,
            ) == placed(parent@, all, *range),
            unit_views(lost@) + rejected_from(parent@, all, *range, k as nat, cursor as nat)
                == rejected(parent@, all, *range),
        decreases pieces.len() - k,
    {
        let piece = chars_of(pieces[k].as_str());
        assert(piece@ == all[k as int]);
        let last = k + 1 == pieces.len();
        let fits = 1 <= piece.len() && piece.len() <= range.max && (range.min <= piece.len()
            || last);
        let spot = if fits {
            find_from(&text, &piece, cursor)
        } else {
            None
        };
        match spot {
            Some(at) => {
                proof {
                    lemma_first_occurrence(text@, piece@, cursor as nat);
                }
                let end = at + piece.len();
                let chunk = parent.chunk(pieces[k].clone(), at, end, chunks.len());
                let ghost before = unit_views(chunks@);
                chunks.push(chunk);
                assert(unit_views(chunks@) =~= before + seq![chunk@]);
                assert((before + seq![chunk@]) + placed_from(
                    parent@,
                    all,
                    *range,
                    (k + 1) as nat,
                    end as nat,
                    chunks.len() as nat,
                ) =~= before + (seq![chunk@] + placed_from(
                    parent@,
                    all,
                    *range,
                    (k + 1) as nat,
                    end as nat,
                    chunks.len() as nat,
                )));
                cursor = end;
            },
            None => {
                let mut piece_unit = parent.chunk(pieces[k].clone(), 0, 0, k);
                piece_unit.error = Some(PipelineError::ChunkError);
                let ghost before = unit_views(lost@);
                lost.push(piece_unit);
                assert(unit_views(lost@) =~= before + seq![piece_unit@]);
                assert((before + seq![piece_unit@]) + rejected_from(
                    parent@,
                    all,
                    *range,
                    (k + 1) as nat,
                    cursor as nat,
                ) =~= before + (seq![piece_unit@] + rejected_from(
                    parent@,
                    all,
                    *range,
                    (k + 1) as nat,
                    cursor as nat,
                )));
            },
        }
        k += 1;
    }
    assert(unit_views(chunks@) + Seq::<UnitView>::empty() =~= unit_views(chunks@));
    assert(unit_views(lost@) + Seq::<UnitView>::empty() =~= unit_views(lost@));
    Chunked { chunks, rejected: lost }
}

/// The pieces that the framework's markdown chunker cuts a text into for a
/// range of lengths from `min` up to, but not including, `max`; `None` where
/// it reports an error.
pub uninterp spec fn markdown_pieces(text: Seq<char>, min: usize, max: usize) -> Option<
    Seq<Seq<char>>,
>;

/// The pieces that the framework's code splitter cuts Rust source into for a
/// range of sizes from `min` to `max`; `None` where it reports an error.
pub uninterp spec fn rust_pieces(code: Seq<char>, min: usize, max: usize) -> Option<
    Seq<Seq<char>>,
>;

/// Polls `swiftide_indexing::transformers::ChunkMarkdown::transform_node`,
/// made with `from_chunk_range(min..max)`, on a node that holds `text`, and
/// returns the chunks of the nodes that come out, in order. The chunker
/// waits for nothing, so one poll of the call and one of its stream give
/// the result; no executor is entered. The chunker is a function of the
/// text and the range; the contract names its result and claims nothing of
/// the pieces. The range from nought to one is left out: the chunker takes
/// the upper end as exclusive, and with room for no character at all it
/// subtracts below nought.
#[verifier::external_body]
fn split_markdown(text: &str, min: usize, max: usize) -> (pieces: Option<Vec<String>>)
    requires
        min <= max,
        1 <= max,
        1 <= min || 2 <= max,
    ensures
        option_texts(pieces) == markdown_pieces(text@, min, max),
{
    let chunker = swiftide_indexing::transformers::ChunkMarkdown::from_chunk_range(min..max);
    let node = swiftide_core::indexing::TextNode::new(text);
    let stream = chunker.transform_node(node).now_or_never()?;
    let nodes = stream.try_collect::<Vec<_>>().now_or_never()?.ok()?;
    Some(nodes.into_iter().map(|node| node.chunk).collect())
}

/// Calls `swiftide_integrations::treesitter::CodeSplitter::split`, built for
/// the language "rust" and the chunk size `min..max`, on `code`. The splitter
/// parses the code and walks the syntax tree, so its result depends on the
/// code and the range alone; the contract names it and claims nothing of the
/// pieces.
#[verifier::external_body]
fn split_rust(code: &str, min: usize, max: usize) -> (pieces: Option<Vec<String>>)
    requires
        min <= max,
        1 <= max,
    ensures
        option_texts(pieces) == rust_pieces(code@, min, max),
{
    let splitter = swiftide_integrations::treesitter::CodeSplitter::builder()
        .try_language("rust")
        .ok()?
        .chunk_size(min..max)
        .build()
        .ok()?;
    splitter.split(code).ok()
}

/// Whether the markdown chunker is asked for a range: not where the range
/// has room for one character only and asks for none, which leaves the
/// chunker room for no character at all.
pub open spec fn spec_splits_markdown(range: ChunkRange) -> bool {
    1 <= range.min || 2 <= range.max
}

/// Says whether the markdown chunker is asked for a range.
#[verifier::when_used_as_spec(spec_splits_markdown)]
pub fn splits_markdown(range: ChunkRange) -> (asked: bool)
    ensures
        asked == spec_splits_markdown(range),
{
    1 <= range.min || 2 <= range.max
}

/// The pieces that the splitter for the unit's class gives for its content.
/// Where the markdown chunker is not asked there are no pieces, and the
/// text is cut by position alone.
pub open spec fn pieces_of(unit: UnitView, range: ChunkRange) -> Option<Seq<Seq<char>>> {
    match unit.class {
        ContentClass::Prose => if splits_markdown(range) {
            markdown_pieces(unit.content, range.min, range.max)
        } else {
            Some(Seq::empty())
        },
        ContentClass::Code => rust_pieces(unit.content, range.min, range.max),
    }
}

/// The chunks of a unit and what was turned down, given what the splitter
/// returned. What the splitter left out between its pieces is taken in as
/// pieces of its own, and a piece that is longer than the range allows is
/// cut by position, at line breaks where they are in reach. A unit that the
/// splitter fails on, or a range that no text fits in, gives no chunk, and
/// the unit itself is turned down.
pub open spec fn chunked(unit: UnitView, range: ChunkRange, pieces: Option<Seq<Seq<char>>>) -> (
    Seq<UnitView>,
    Seq<UnitView>,
) {
    match pieces {
        Some(list) if range.is_valid() => (
            placed(unit, made_ready(unit.content, list, range), range),
            rejected(unit, made_ready(unit.content, list, range), range),
        ),
        _ => (Seq::empty(), seq![with_error(unit, PipelineError::ChunkError)]),
    }
}

/// The unit itself, turned down because it could not be cut.
fn uncut(unit: &Unit) -> (out: Chunked)
    ensures
        unit_views(out.chunks@) == Seq::<UnitView>::empty(),
        unit_views(out.rejected@) == seq![with_error(unit@, PipelineError::ChunkError)],
{
    let mut whole = unit.duplicate();
    whole.error = Some(PipelineError::ChunkError);
    let mut rejected: Vec<Unit> = Vec::new();
    rejected.push(whole);
    let out = Chunked { chunks: Vec::new(), rejected };
    assert(unit_views(out.chunks@) =~= Seq::<UnitView>::empty());
    assert(unit_views(out.rejected@) =~= seq![with_error(unit@, PipelineError::ChunkError)]);
    out
}

/// Cuts a unit into chunks, given what the splitter returned for it.
pub fn chunk_with(unit: &Unit, range: &ChunkRange, pieces: Option<Vec<String>>) -> (out: Chunked)
    ensures
        (unit_views(out.chunks@), unit_views(out.rejected@)) == chunked(
            unit@,
            *range,
            option_texts(pieces),
        ),
{
    match pieces {
        Some(list) => {
            if range.is_valid() {
                let whole = fill_gaps(unit.content.as_str(), &list);
                let parts = cut_long_pieces(&whole, range);
                place_pieces(unit, &parts, range)
            } else {
                uncut(unit)
            }
        },
        None => uncut(unit),
    }
}

/// Cuts a unit into chunks along the boundaries that the splitter for its
/// class finds: markdown structure for prose, the syntax tree for code.
/// Prose with a range of at most one character is cut by position alone.
pub fn chunk_unit(unit: &Unit, range: &ChunkRange) -> (out: Chunked)
    ensures
        (unit_views(out.chunks@), unit_views(out.rejected@)) == chunked(
            unit@,
            *range,
            if range.is_valid() {
                pieces_of(unit@, *range)
            } else {
                None
            },
        ),
{
    if !range.is_valid() {
        return chunk_with(unit, range, None);
    }
    let pieces = match unit.class {
        ContentClass::Prose => if splits_markdown(*range) {
            split_markdown(unit.content.as_str(), range.min, range.max)
        } else {
            let none: Vec<String> = Vec::new();
            assert(texts_of(none@) =~= Seq::<Seq<char>>::empty());
            Some(none)
        },
        ContentClass::Code => split_rust(unit.content.as_str(), range.min, range.max),
    };
    chunk_with(unit, range, pieces)
}

/// The unit as it is cut: with its outline, where outlines are asked for
/// and the unit wants and gets one.
pub open spec fn prepared(unit: UnitView, outline_min: Option<usize>) -> UnitView {
    match outline_min {
        Some(min_size) => outlined(
            unit,
            min_size,
            if wants_outline(unit, min_size) {
                rust_outline(unit.content)
            } else {
                None
            },
        ),
        None => unit,
    }
}

/// The chunks of one unit and what was turned down.
pub open spec fn cut_one(unit: UnitView, range: ChunkRange, outline_min: Option<usize>) -> (
    Seq<UnitView>,
    Seq<UnitView>,
) {
    chunked(
        prepared(unit, outline_min),
        range,
        if range.is_valid() {
            pieces_of(prepared(unit, outline_min), range)
        } else {
            None
        },
    )
}

/// The chunks of the first `n` units, unit after unit, and what was turned down.
pub open spec fn cut_all(
    units: Seq<UnitView>,
    range: ChunkRange,
    outline_min: Option<usize>,
    n: nat,
) -> (Seq<UnitView>, Seq<UnitView>)
    decreases n,
{
    if n == 0 {
        (Seq::empty(), Seq::empty())
    } else {
        let before = cut_all(units, range, outline_min, (n - 1) as nat);
        let this = cut_one(units[n - 1], range, outline_min);
        (before.0 + this.0, before.1 + this.1)
    }
}

/// Cuts every unit into chunks. Where `outline_min` is set, a source file of
/// at least that many characters first gets its outline, which its chunks
/// inherit. The chunks come out unit after unit, in the order of the units.
pub fn chunk_all(units: Vec<Unit>, range: &ChunkRange, outline_min: Option<usize>) -> (out:
    Chunked)
    ensures
        (unit_views(out.chunks@), unit_views(out.rejected@)) == cut_all(
            unit_views(units@),
            *range,
            outline_min,
            units.len() as nat,
        ),
{
    let ghost all = unit_views(units@);
    let total = units.len();
    let mut chunks: Vec<Unit> = Vec::new();
    let mut rejected: Vec<Unit> = Vec::new();
    let mut i: usize = 0;
    assert(unit_views(chunks@) =~= Seq::<UnitView>::empty());
    assert(unit_views(rejected@) =~= Seq::<UnitView>::empty());
    for unit in it: units
        invariant
            unit_views(it.seq()) == all,
            it.seq().len() == total,
            i == it.index(),
            (unit_views(chunks@), unit_views(rejected@)) == cut_all(
                all,
                *range,
                outline_min,
                i as nat,
            ),
    {
        let mut unit = unit;
        assert(all[i as int] == unit@);
        match outline_min {
            Some(min_size) => {
                outline_unit(&mut unit, min_size);
            },
            None => {},
        }
        let mut cut = chunk_unit(&unit, range);
        let ghost before = unit_views(chunks@);
        let ghost added = unit_views(cut.chunks@);
        let ghost lost_before = unit_views(rejected@);
        let ghost lost = unit_views(cut.rejected@);
        chunks.append(&mut cut.chunks);
        rejected.append(&mut cut.rejected);
        assert(unit_views(chunks@) =~= before + added);
        assert(unit_views(rejected@) =~= lost_before + lost);
        i += 1;
    }
    Chunked { chunks, rejected }
}

/// Whether the chunk at index `j` lies in its unit as a chunk should: it is
/// the slice of the content that its offsets give, its length is within the
/// range unless it is the last, and the next chunk starts behind its end.
pub open spec fn chunk_in_place(
    parent: UnitView,
    chunks: Seq<UnitView>,
    range: ChunkRange,
    j: int,
) -> bool {
    let chunk = chunks[j];
    &&& chunk.start <= chunk.end <= parent.content.len()
    &&& chunk.content == parent.content.subrange(chunk.start as int, chunk.end as int)
    &&& 1 <= chunk.content.len() <= range.max
    &&& chunk.position == j
    &&& chunk.path == parent.path
    &&& chunk.class == parent.class
    &&& chunk.lineage == parent.fingerprint
    &&& chunk.well_formed()
    &&& j + 1 < chunks.len() ==> range.min <= chunk.content.len() && chunk.end <= chunks[j
        + 1].start
}

/// The same for chunks that follow `position` others, the last of which ended at `cursor`.
spec fn in_place_from(
    parent: UnitView,
    chunks: Seq<UnitView>,
    range: ChunkRange,
    cursor: nat,
    position: nat,
    j: int,
) -> bool {
    let chunk = chunks[j];
    &&& cursor <= chunk.start <= chunk.end <= parent.content.len()
    &&& chunk.content == parent.content.subrange(chunk.start as int, chunk.end as int)
    &&& 1 <= chunk.content.len() <= range.max
    &&& chunk.position == position + j
    &&& chunk.path == parent.path
    &&& chunk.class == parent.class
    &&& chunk.lineage == parent.fingerprint
    &&& chunk.well_formed()
    &&& j + 1 < chunks.len() ==> range.min <= chunk.content.len() && chunk.end <= chunks[j
        + 1].start
}

proof fn lemma_placed_from(
    parent: UnitView,
    pieces: Seq<Seq<char>>,
    range: ChunkRange,
    k: nat,
    cursor: nat,
    position: nat,
)
    ensures
        k <= pieces.len() ==> placed_from(parent, pieces, range, k, cursor, position).len()
            + rejected_from(parent, pieces, range, k, cursor).len() == pieces.len() - k,
        forall|j: int|
            0 <= j < placed_from(parent, pieces, range, k, cursor, position).len()
                ==> #[trigger] in_place_from(
                parent,
                placed_from(parent, pieces, range, k, cursor, position),
                range,
                cursor,
                position,
                j,
            ),
    decreases pieces.len() - k,
{
    if k < pieces.len() {
        let piece = pieces[k as int];
        let spot = if range.admits(piece.len(), k + 1 == pieces.len()) {
            first_occurrence(parent.content, piece, cursor)
        } else {
            None
        };
        match spot {
            Some(at) => {
                let end = at + piece.len();
                lemma_first_occurrence(parent.content, piece, cursor);
                lemma_placed_from(parent, pieces, range, k + 1, end, position + 1);
                let rest = placed_from(parent, pieces, range, k + 1, end, position + 1);
                let chunks = placed_from(parent, pieces, range, k, cursor, position);
                assert(chunks == seq![parent.chunk_at(piece, at, end, position)] + rest);
                assert forall|j: int| 0 <= j < chunks.len() implies #[trigger] in_place_from(
                    parent,
                    chunks,
                    range,
                    cursor,
                    position,
                    j,
                ) by {
                    if j > 0 {
                        assert(in_place_from(parent, rest, range, end, position + 1, j - 1));
                        assert(chunks[j] == rest[j - 1]);
                        if j + 1 < chunks.len() {
                            assert(chunks[j + 1] == rest[j]);
                        }
                    } else if j + 1 < chunks.len() {
                        assert(in_place_from(parent, rest, range, end, position + 1, 0));
                        assert(chunks[1] == rest[0]);
                    }
                }
            },
            None => {
                lemma_placed_from(parent, pieces, range, k + 1, cursor, position);
            },
        }
    }
}

/// Every chunk of a unit holds between one and `max` characters, and every
/// chunk but the last holds at least `min`. The chunks are slices of the
/// unit's content, in order and without overlap, and are numbered from zero.
/// Every piece is either a chunk or turned down.
pub proof fn law_chunk_bounds(parent: UnitView, pieces: Seq<Seq<char>>, range: ChunkRange)
    ensures
        placed(parent, pieces, range).len() + rejected(parent, pieces, range).len()
            == pieces.len(),
        forall|j: int|
            0 <= j < placed(parent, pieces, range).len() ==> #[trigger] chunk_in_place(
                parent,
                placed(parent, pieces, range),
                range,
                j,
            ),
{
    lemma_placed_from(parent, pieces, range, 0, 0, 0);
    assert forall|j: int| 0 <= j < placed(parent, pieces, range).len() implies #[trigger] chunk_in_place(
        parent,
        placed(parent, pieces, range),
        range,
        j,
    ) by {
        assert(in_place_from(parent, placed(parent, pieces, range), range, 0, 0, j));
    }
}

} // verus!
