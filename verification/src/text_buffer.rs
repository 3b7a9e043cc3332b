//! The text buffer: a document kept as a piece tree over append-only byte
//! arenas. Edits never move bytes that are already stored; text typed in
//! sequence extends the arena and the piece it was last appended to.

use crate::line_index::{count_lf, line_span, offset_of, position_of};
use crate::piece_tree::{
    arena, arenas_grown, clamp_to, content, cursor_of, fewest_pieces, info_of, piece_at,
    pieces_delete, pieces_insert, pieces_ok, sum_bytes, sum_line_feeds, window, BufferLocation,
    Cursor, Piece, PieceInfo, PieceTree, Position, StringBuffer, TreeStats,
};
use crate::strings::{lossy_string, utf8_lossy};
use vstd::prelude::*;

verus! {

/// `text` with `inserted` put in at `offset`, the offset clamped to the text.
pub open spec fn text_inserted(text: Seq<u8>, offset: int, inserted: Seq<u8>) -> Seq<u8> {
    let at = clamp_to(offset, text.len() as int);
    text.subrange(0, at) + inserted + text.subrange(at, text.len() as int)
}

/// `text` without the `len` bytes at `offset`, the range clamped to the text.
pub open spec fn text_deleted(text: Seq<u8>, offset: int, len: int) -> Seq<u8> {
    let from = clamp_to(offset, text.len() as int);
    let to = from + clamp_to(len, text.len() - from);
    text.subrange(0, from) + text.subrange(to, text.len() as int)
}

/// The `len` bytes of `text` at `offset`, the range clamped to the text.
pub open spec fn text_slice(text: Seq<u8>, offset: int, len: int) -> Seq<u8> {
    let from = clamp_to(offset, text.len() as int);
    let to = from + clamp_to(len, text.len() - from);
    text.subrange(from, to)
}

/// Whether text typed at `offset` can be appended to the piece before it:
/// the byte before `offset` is the last byte of a piece that lives in an
/// arena added by an edit and ends where that arena ends.
pub open spec fn can_coalesce(pieces: Seq<Piece>, buffers: Seq<StringBuffer>, offset: int) -> bool {
    &&& offset >= 1
    &&& piece_at(pieces, offset - 1) matches Some((piece, within))
    &&& within + 1 == piece.bytes
    &&& piece.location is Added
    &&& piece.location.id() < buffers.len()
    &&& piece.offset + piece.bytes == arena(buffers, piece.location.id()).len()
}

/// Whether a byte continues a UTF-8 code point: its high bits are `10`.
pub open spec fn is_continuation(byte: u8) -> bool {
    0x80 <= byte < 0xC0
}

/// The nearest code-point boundary at or before `at`: the nearest offset
/// that is zero or holds a byte that does not continue a code point.
pub open spec fn boundary_at_or_before(text: Seq<u8>, at: int) -> int
    decreases at,
{
    if at <= 0 {
        0
    } else if at < text.len() && is_continuation(text[at]) {
        boundary_at_or_before(text, at - 1)
    } else {
        at
    }
}

/// The nearest code-point boundary at or after `at`: the nearest offset
/// that is the end of the text or holds a byte that does not continue a
/// code point.
pub open spec fn boundary_at_or_after(text: Seq<u8>, at: int) -> int
    decreases text.len() - at,
{
    if at >= text.len() {
        text.len() as int
    } else if at >= 0 && is_continuation(text[at]) {
        boundary_at_or_after(text, at + 1)
    } else {
        at
    }
}

/// The largest code-point boundary before `offset`, the offset clamped to
/// the text; zero at the start of the text.
pub open spec fn prev_boundary(text: Seq<u8>, offset: int) -> int {
    let at = clamp_to(offset, text.len() as int);
    if at <= 0 {
        0
    } else {
        boundary_at_or_before(text, at - 1)
    }
}

/// The smallest code-point boundary after `offset`; the end of the text at
/// and past the end.
pub open spec fn next_boundary(text: Seq<u8>, offset: int) -> int {
    if offset >= text.len() {
        text.len() as int
    } else {
        boundary_at_or_after(text, offset + 1)
    }
}

/// The boundary before an offset is the largest one: it lies before the
/// offset, it is a boundary, and every byte between it and the offset
/// continues a code point.
pub proof fn lemma_prev_boundary(text: Seq<u8>, offset: int)
    requires
        0 < offset <= text.len(),
    ensures
        0 <= prev_boundary(text, offset) < offset,
        prev_boundary(text, offset) == 0 || !is_continuation(text[prev_boundary(text, offset)]),
        forall|j: int| prev_boundary(text, offset) < j < offset ==> is_continuation(#[trigger] text[j]),
{
    lemma_boundary_before(text, offset - 1);
}

/// What the boundary at or before an offset is.
pub proof fn lemma_boundary_before(text: Seq<u8>, at: int)
    requires
        0 <= at < text.len(),
    ensures
        0 <= boundary_at_or_before(text, at) <= at,
        boundary_at_or_before(text, at) == 0 || !is_continuation(
            text[boundary_at_or_before(text, at)],
        ),
        forall|j: int|
            boundary_at_or_before(text, at) < j <= at ==> is_continuation(#[trigger] text[j]),
    decreases at,
{
    if at > 0 && is_continuation(text[at]) {
        lemma_boundary_before(text, at - 1);
    }
}

/// The boundary after an offset is the smallest one: it lies after the
/// offset, it is a boundary, and every byte between the offset and it
/// continues a code point.
pub proof fn lemma_next_boundary(text: Seq<u8>, offset: int)
    requires
        0 <= offset < text.len(),
    ensures
        offset < next_boundary(text, offset) <= text.len(),
        next_boundary(text, offset) == text.len() || !is_continuation(
            text[next_boundary(text, offset)],
        ),
        forall|j: int| offset < j < next_boundary(text, offset) ==> is_continuation(#[trigger] text[j]),
{
    lemma_boundary_after(text, offset + 1);
}

/// What the boundary at or after an offset is.
pub proof fn lemma_boundary_after(text: Seq<u8>, at: int)
    requires
        0 <= at <= text.len(),
    ensures
        at <= boundary_at_or_after(text, at) <= text.len(),
        boundary_at_or_after(text, at) == text.len() || !is_continuation(
            text[boundary_at_or_after(text, at)],
        ),
        forall|j: int|
            at <= j < boundary_at_or_after(text, at) ==> is_continuation(#[trigger] text[j]),
    decreases text.len() - at,
{
    if at < text.len() && is_continuation(text[at]) {
        lemma_boundary_after(text, at + 1);
    }
}

/// An insertion lengthens the text by what is inserted.
pub proof fn lemma_inserted_length(text: Seq<u8>, offset: int, inserted: Seq<u8>)
    requires
        0 <= offset,
    ensures
        text_inserted(text, offset, inserted).len() == text.len() + inserted.len(),
{
}

/// A deletion shortens the text by the part of the range that lies in it.
pub proof fn lemma_deleted_length(text: Seq<u8>, offset: int, len: int)
    requires
        0 <= offset,
        0 <= len,
    ensures
        text_deleted(text, offset, len).len() == text.len() - clamp_to(
            len,
            text.len() - clamp_to(offset, text.len() as int),
        ),
{
}

/// A slice that lies within the text is that range of the text.
pub proof fn lemma_slice_in_range(text: Seq<u8>, offset: int, len: int)
    requires
        0 <= offset,
        0 <= len,
        offset + len <= text.len(),
    ensures
        text_slice(text, offset, len) == text.subrange(offset, offset + len),
{
}

/// Deleting what was just inserted gives the text back.
pub proof fn lemma_insert_then_delete(text: Seq<u8>, offset: int, inserted: Seq<u8>)
    requires
        0 <= offset <= text.len(),
    ensures
        text_deleted(text_inserted(text, offset, inserted), offset, inserted.len() as int) == text,
{
    assert(text_deleted(text_inserted(text, offset, inserted), offset, inserted.len() as int)
        =~= text);
}

/// The piece that holds the byte before `offset`.
pub open spec fn piece_before(pieces: Seq<Piece>, offset: int) -> Piece {
    match piece_at(pieces, offset - 1) {
        Some((piece, within)) => piece,
        None => vstd::pervasive::arbitrary(),
    }
}

/// The arena `id` has `text` at its end that it did not have before, and
/// nothing else about the arenas has changed.
pub open spec fn arena_appended(
    before: Seq<StringBuffer>,
    after: Seq<StringBuffer>,
    id: usize,
    text: Seq<u8>,
) -> bool {
    &&& after.len() == before.len()
    &&& id < before.len()
    &&& after[id as int].id == before[id as int].id
    &&& after[id as int].data@ == before[id as int].data@ + text
    &&& forall|i: int| 0 <= i < before.len() && i != id ==> #[trigger] after[i] == before[i]
}

/// There is one arena more, which holds `text` and has the next id, and
/// nothing about the arenas that were there has changed.
pub open spec fn arena_added(before: Seq<StringBuffer>, after: Seq<StringBuffer>, text: Seq<u8>) -> bool {
    &&& after.len() == before.len() + 1
    &&& after[before.len() as int].id == before.len()
    &&& after[before.len() as int].data@ == text
    &&& forall|i: int| 0 <= i < before.len() ==> #[trigger] after[i] == before[i]
}

/// The piece that an insertion of `text` at `offset` adds: a window at the
/// end of the arena it coalesces with, or the whole of a new arena.
pub open spec fn inserted_piece(
    pieces: Seq<Piece>,
    buffers: Seq<StringBuffer>,
    offset: int,
    text: Seq<u8>,
) -> Piece {
    if can_coalesce(pieces, buffers, offset) {
        let before = piece_before(pieces, offset);
        Piece {
            location: before.location,
            offset: (before.offset + before.bytes) as usize,
            bytes: text.len() as usize,
            line_feed_count: count_lf(text) as usize,
        }
    } else {
        Piece {
            location: BufferLocation::Added(buffers.len() as usize),
            offset: 0,
            bytes: text.len() as usize,
            line_feed_count: count_lf(text) as usize,
        }
    }
}

/// A document with line tracking, stored as pieces over byte arenas.
pub struct TextBuffer {
    piece_tree: PieceTree,
    buffers: Vec<StringBuffer>,
    next_buffer_id: usize,
}

impl View for TextBuffer {
    type V = Seq<u8>;

    /// The bytes of the document.
    closed spec fn view(&self) -> Seq<u8> {
        content(self.piece_tree.pieces(), self.buffers@)
    }
}

impl TextBuffer {
    /// The pieces of the document in order.
    pub closed spec fn pieces(&self) -> Seq<Piece> {
        self.piece_tree.pieces()
    }

    /// The byte arenas, by id.
    pub closed spec fn arenas(&self) -> Seq<StringBuffer> {
        self.buffers@
    }

    /// The number of levels of the piece tree.
    pub closed spec fn depth(&self) -> nat {
        self.piece_tree.depth()
    }

    /// The piece tree is balanced: the document has at least the fewest
    /// pieces that a balanced tree of that depth can have.
    pub proof fn lemma_depth(&self)
        requires
            self.wf(),
        ensures
            fewest_pieces(self.depth()) <= self.pieces().len(),
    {
        self.piece_tree.lemma_depth();
    }

    /// The piece tree is well formed over the arenas, and the arenas are
    /// numbered by their place.
    pub closed spec fn wf(&self) -> bool {
        &&& self.piece_tree.wf(self.buffers@)
        &&& self.next_buffer_id == self.buffers@.len()
        &&& self.buffers@.len() >= 1
        &&& forall|i: int| 0 <= i < self.buffers@.len() ==> (#[trigger] self.buffers@[i]).id == i
    }

    /// In a well-formed buffer the pieces are valid windows into the arenas
    /// and their windows in a row are the document.
    pub proof fn lemma_pieces(&self)
        requires
            self.wf(),
        ensures
            pieces_ok(self.pieces(), self.arenas()),
            self@ == content(self.pieces(), self.arenas()),
            self@.len() == sum_bytes(self.pieces()),
            count_lf(self@) == sum_line_feeds(self.pieces()),
            self@.len() < usize::MAX,
    {
        self.piece_tree.lemma_wf(self.buffers@);
    }

    /// A buffer holding `content`. The content is arena 0, the arena of
    /// what the buffer was opened with, and the document is one piece over
    /// all of it, or no piece where the content is empty.
    pub fn new(content: Vec<u8>) -> (buffer: TextBuffer)
        requires
            content@.len() < usize::MAX,
        ensures
            buffer.wf(),
            buffer@ == content@,
            buffer.arenas().len() == 1,
            buffer.arenas()[0].id == 0,
            buffer.arenas()[0].data@ == content@,
            buffer.pieces() == if content@.len() == 0 {
                Seq::<Piece>::empty()
            } else {
                seq![
                    Piece {
                        location: BufferLocation::Stored(0),
                        offset: 0,
                        bytes: content@.len() as usize,
                        line_feed_count: count_lf(content@) as usize,
                    },
                ]
            },
    {
        let bytes = content.len();
        let buffer = StringBuffer::new(0, content);
        let line_feed_cnt = buffer.line_feed_count();
        let ghost data = buffer.data@;
        proof {
            crate::line_index::lemma_count_lf_bound(data);
        }
        let piece_tree = if bytes > 0 {
            PieceTree::new(BufferLocation::Stored(0), 0, bytes, line_feed_cnt)
        } else {
            PieceTree::empty()
        };
        let mut buffers = Vec::new();
        buffers.push(buffer);
        proof {
            if bytes > 0 {
                let piece = Piece {
                    location: BufferLocation::Stored(0),
                    offset: 0,
                    bytes,
                    line_feed_count: line_feed_cnt,
                };
                assert(window(piece, buffers@) =~= data);
                crate::piece_tree::lemma_single(piece, buffers@);
            } else {
                assert(data =~= Seq::<u8>::empty());
            }
        }
        TextBuffer { piece_tree, buffers, next_buffer_id: 1 }
    }

    /// An empty buffer: arena 0 holds nothing and the document has no piece.
    pub fn empty() -> (buffer: TextBuffer)
        ensures
            buffer.wf(),
            buffer@ == Seq::<u8>::empty(),
            buffer.arenas().len() == 1,
            buffer.arenas()[0].id == 0,
            buffer.arenas()[0].data@ == Seq::<u8>::empty(),
            buffer.pieces() == Seq::<Piece>::empty(),
    {
        let mut buffers = Vec::new();
        buffers.push(StringBuffer::new(0, Vec::new()));
        TextBuffer { piece_tree: PieceTree::empty(), buffers, next_buffer_id: 1 }
    }

    /// The length of the document in bytes.
    pub fn total_bytes(&self) -> (total: usize)
        requires
            self.wf(),
        ensures
            total == self@.len(),
    {
        proof {
            self.lemma_pieces();
        }
        self.piece_tree.total_bytes()
    }

    /// The number of lines: one more than the line feeds in the document,
    /// so that an empty document has one line.
    pub fn line_count(&self) -> (lines: usize)
        requires
            self.wf(),
        ensures
            lines == count_lf(self@) + 1,
    {
        proof {
            self.lemma_pieces();
        }
        self.piece_tree.line_count()
    }

    /// The position of byte `offset`, the offset clamped to the document.
    pub fn offset_to_position(&self, offset: usize) -> (position: Position)
        requires
            self.wf(),
        ensures
            position.line == position_of(self@, offset as int).0,
            position.column == position_of(self@, offset as int).1,
    {
        let (line, column) = self.piece_tree.offset_to_position(offset, &self.buffers);
        Position { line, column }
    }

    /// The byte offset of a position, clamped to the document.
    pub fn position_to_offset(&self, position: Position) -> (offset: usize)
        requires
            self.wf(),
        ensures
            offset == offset_of(self@, position.line as nat, position.column as nat),
            offset <= self@.len(),
    {
        self.piece_tree.position_to_offset(position.line, position.column, &self.buffers)
    }

    /// Inserts `text` at byte `offset`, the offset clamped to the document,
    /// and returns the cursor at the insertion point. Text that directly
    /// follows the last bytes of an edit arena is appended to that arena and
    /// extends the piece before it; other text gets an arena and a piece of
    /// its own. Nothing changes for an empty `text`.
    pub fn insert_bytes(&mut self, offset: usize, text: Vec<u8>) -> (cursor: Cursor)
        requires
            old(self).wf(),
            old(self)@.len() + text@.len() < usize::MAX,
        ensures
            final(self).wf(),
            final(self)@ == text_inserted(old(self)@, offset as int, text@),
            arenas_grown(old(self).arenas(), final(self).arenas()),
            cursor == cursor_of(
                final(self).pieces(),
                clamp_to(offset as int, old(self)@.len() as int),
            ),
            cursor.piece_start + cursor.offset_in_piece == clamp_to(
                offset as int,
                old(self)@.len() as int,
            ),
            text@.len() == 0 ==> final(self).pieces() == old(self).pieces() && final(self).arenas()
                == old(self).arenas(),
            text@.len() > 0 ==> final(self).pieces() == pieces_insert(
                old(self).pieces(),
                clamp_to(offset as int, old(self)@.len() as int),
                inserted_piece(old(self).pieces(), old(self).arenas(), offset as int, text@),
                final(self).arenas(),
            ),
            text@.len() > 0 ==> if can_coalesce(
                old(self).pieces(),
                old(self).arenas(),
                offset as int,
            ) {
                &&& arena_appended(
                    old(self).arenas(),
                    final(self).arenas(),
                    piece_before(old(self).pieces(), offset as int).location.id(),
                    text@,
                )
                &&& final(self).pieces().len() == old(self).pieces().len()
            } else {
                arena_added(old(self).arenas(), final(self).arenas(), text@)
            },
    {
        proof {
            self.lemma_pieces();
            crate::piece_tree::lemma_grown_same(self.buffers@);
        }
        if text.len() == 0 {
            proof {
                assert(text_inserted(self@, offset as int, text@) =~= self@);
                crate::piece_tree::lemma_piece_at_bounds(self.pieces(), offset as int);
                crate::piece_tree::lemma_piece_at_bounds(
                    self.pieces(),
                    clamp_to(offset as int, self@.len() as int),
                );
            }
            return self.piece_tree.cursor_at_offset(offset);
        }
        let ghost before = self.buffers@;
        let ghost pieces = self.piece_tree.pieces();
        let ghost document = self@;
        let ghost inserted = text@;
        let line_feed_cnt = crate::line_index::count_line_feeds(text.as_slice(), 0, text.len());
        proof {
            assert(text@.subrange(0, text@.len() as int) =~= text@);
            crate::line_index::lemma_count_lf_bound(text@);
        }
        let (buffer_location, buffer_offset, text_len) =
            match self.try_append_to_existing_buffer(offset, text.as_slice()) {
            Some(append_info) => append_info,
            None => {
                let buffer_id = self.next_buffer_id;
                let length = text.len();
                let buffer = StringBuffer::new(buffer_id, text);
                self.buffers.push(buffer);
                self.next_buffer_id = self.buffers.len();
                (BufferLocation::Added(buffer_id), 0, length)
            },
        };
        let ghost piece = Piece {
            location: buffer_location,
            offset: buffer_offset,
            bytes: text_len,
            line_feed_count: line_feed_cnt,
        };
        proof {
            self.piece_tree.lemma_wf_grown(before, self.buffers@);
            crate::piece_tree::lemma_grown(pieces, before, self.buffers@);
            assert(window(piece, self.buffers@) =~= inserted);
            self.piece_tree.lemma_wf(self.buffers@);
            crate::piece_tree::lemma_insert_content(
                pieces,
                clamp_to(offset as int, document.len() as int),
                piece,
                self.buffers@,
            );
            if can_coalesce(pieces, before, offset as int) {
                crate::piece_tree::lemma_piece_at_bounds(pieces, offset - 1);
                crate::piece_tree::lemma_insert_extends(pieces, offset as int, piece, self.buffers@);
            }
        }
        self.piece_tree.insert(
            offset,
            buffer_location,
            buffer_offset,
            text_len,
            line_feed_cnt,
            &self.buffers,
        )
    }

    /// Appends `text` to the arena of the piece that ends at `offset`, if
    /// that piece lives in an edit arena and ends where the arena ends.
    /// Returns the arena, the offset at which the text now lies in it, and
    /// the length of the text; `None`, with nothing changed, otherwise.
    pub fn try_append_to_existing_buffer(&mut self, offset: usize, text: &[u8]) -> (appended:
        Option<(BufferLocation, usize, usize)>)
        requires
            old(self).wf(),
        ensures
            final(self).wf(),
            final(self)@ == old(self)@,
            final(self).pieces() == old(self).pieces(),
            arenas_grown(old(self).arenas(), final(self).arenas()),
            final(self).arenas().len() == old(self).arenas().len(),
            appended is Some <==> text@.len() > 0 && can_coalesce(
                old(self).pieces(),
                old(self).arenas(),
                offset as int,
            ),
            appended is None ==> final(self).arenas() == old(self).arenas(),
            appended matches Some((location, at, len)) ==> {
                let before = piece_before(old(self).pieces(), offset as int);
                &&& location == before.location
                &&& at == before.offset + before.bytes
                &&& len == text@.len()
                &&& at + len <= usize::MAX
                &&& arena_appended(
                    old(self).arenas(),
                    final(self).arenas(),
                    location.id(),
                    text@,
                )
            },
    {
        proof {
            self.lemma_pieces();
            crate::piece_tree::lemma_grown_same(self.buffers@);
        }
        if text.len() == 0 || offset == 0 {
            return None;
        }
        let piece_info = match self.piece_tree.find_by_offset(offset - 1) {
            Some(info) => info,
            None => {
                return None;
            },
        };
        let offset_in_piece = match piece_info.offset_in_piece {
            Some(within) => within,
            None => {
                return None;
            },
        };
        proof {
            crate::piece_tree::lemma_piece_at_content(
                self.piece_tree.pieces(),
                offset - 1,
                self.buffers@,
            );
        }
        if offset_in_piece + 1 != piece_info.bytes {
            return None;
        }
        if !piece_info.location.is_added() {
            return None;
        }
        let buffer_id = piece_info.location.buffer_id();
        if buffer_id >= self.buffers.len() {
            return None;
        }
        if piece_info.offset + piece_info.bytes != self.buffers[buffer_id].data.len() {
            return None;
        }
        let ghost before = self.buffers@;
        let append_offset = self.buffers[buffer_id].append(text);
        proof {
            assert(arenas_grown(before, self.buffers@)) by {
                assert forall|i: int| 0 <= i < before.len() implies (#[trigger] before[i]).data@.len()
                    <= self.buffers@[i].data@.len() && self.buffers@[i].data@.subrange(
                    0,
                    before[i].data@.len() as int,
                ) == before[i].data@ by {
                    assert(self.buffers@[i].data@.subrange(0, before[i].data@.len() as int)
                        =~= before[i].data@);
                }
            }
            self.piece_tree.lemma_wf_grown(before, self.buffers@);
            assert(self.buffers@[buffer_id as int].data.len()
                == self.buffers@[buffer_id as int].data@.len());
        }
        Some((piece_info.location, append_offset, text.len()))
    }

    /// Inserts `text` at a (line, column) position.
    pub fn insert_at_position(&mut self, position: Position, text: Vec<u8>) -> (cursor: Cursor)
        requires
            old(self).wf(),
            old(self)@.len() + text@.len() < usize::MAX,
        ensures
            final(self).wf(),
            final(self)@ == text_inserted(
                old(self)@,
                offset_of(old(self)@, position.line as nat, position.column as nat),
                text@,
            ),
            cursor.piece_start + cursor.offset_in_piece == offset_of(
                old(self)@,
                position.line as nat,
                position.column as nat,
            ),
    {
        let offset = self.position_to_offset(position);
        self.insert_bytes(offset, text)
    }

    /// Deletes `bytes` bytes at byte `offset`. The range is clamped to the
    /// document; nothing changes if it is empty or starts at or past the end.
    pub fn delete_bytes(&mut self, offset: usize, bytes: usize)
        requires
            old(self).wf(),
        ensures
            final(self).wf(),
            final(self)@ == text_deleted(old(self)@, offset as int, bytes as int),
            final(self).arenas() == old(self).arenas(),
            final(self).pieces() == if bytes == 0 || offset >= old(self)@.len() {
                old(self).pieces()
            } else {
                pieces_delete(
                    old(self).pieces(),
                    offset as int,
                    clamp_to(bytes as int, old(self)@.len() - offset),
                    old(self).arenas(),
                )
            },
    {
        proof {
            self.lemma_pieces();
            let total = self@.len() as int;
            let from = clamp_to(offset as int, total);
            let len = clamp_to(bytes as int, total - from);
            crate::piece_tree::lemma_delete_content(self.pieces(), from, len, self.buffers@);
            if bytes == 0 || offset >= total {
                assert(text_deleted(self@, offset as int, bytes as int) =~= self@);
            }
        }
        if bytes == 0 || offset >= self.total_bytes() {
            return ;
        }
        self.piece_tree.delete(offset, bytes, &self.buffers);
    }

    /// Deletes the text between two positions, if `end` lies after `start`.
    pub fn delete_range(&mut self, start: Position, end: Position)
        requires
            old(self).wf(),
        ensures
            final(self).wf(),
            ({
                let from = offset_of(old(self)@, start.line as nat, start.column as nat);
                let to = offset_of(old(self)@, end.line as nat, end.column as nat);
                final(self)@ == if to > from {
                    text_deleted(old(self)@, from, to - from)
                } else {
                    old(self)@
                }
            }),
    {
        let start_offset = self.position_to_offset(start);
        let end_offset = self.position_to_offset(end);
        if end_offset > start_offset {
            self.delete_bytes(start_offset, end_offset - start_offset);
        }
    }

    /// The `bytes` bytes at byte `offset`, the range clamped to the document.
    pub fn get_text_range(&self, offset: usize, bytes: usize) -> (text: Vec<u8>)
        requires
            self.wf(),
        ensures
            text@ == text_slice(self@, offset as int, bytes as int),
    {
        proof {
            self.lemma_pieces();
        }
        let mut result = Vec::new();
        let total = self.total_bytes();
        if offset >= total {
            proof {
                assert(text_slice(self@, offset as int, bytes as int) =~= Seq::<u8>::empty());
            }
            return result;
        }
        let end = if bytes < total - offset {
            offset + bytes
        } else {
            total
        };
        let mut current_offset = offset;
        proof {
            assert(self@.subrange(offset as int, offset as int) =~= Seq::<u8>::empty());
        }
        while current_offset < end
            invariant
                self.wf(),
                offset <= current_offset <= end <= self@.len(),
                result@ == self@.subrange(offset as int, current_offset as int),
            decreases end - current_offset,
        {
            proof {
                self.lemma_pieces();
                crate::piece_tree::lemma_piece_at_bounds(self.pieces(), current_offset as int);
                crate::piece_tree::lemma_piece_at_content(
                    self.pieces(),
                    current_offset as int,
                    self.buffers@,
                );
            }
            let piece_info = match self.piece_tree.find_by_offset(current_offset) {
                Some(info) => info,
                None => {
                    return result;
                },
            };
            let start_in_piece = match piece_info.offset_in_piece {
                Some(within) => within,
                None => 0,
            };
            let buffer = self.buffers[piece_info.location.buffer_id()].data.as_slice();
            let available_in_piece = piece_info.bytes - start_in_piece;
            let to_read = if end - current_offset < available_in_piece {
                end - current_offset
            } else {
                available_in_piece
            };
            let buffer_start = piece_info.offset + start_in_piece;
            let buffer_end = buffer_start + to_read;
            let ghost read_before = result@;
            result.extend_from_slice(vstd::slice::slice_subrange(buffer, buffer_start, buffer_end));
            proof {
                let piece_start = current_offset - start_in_piece;
                let whole = self@.subrange(piece_start, piece_start + piece_info.bytes);
                assert(buffer@.subrange(buffer_start as int, buffer_end as int) =~= whole.subrange(
                    start_in_piece as int,
                    start_in_piece + to_read,
                ));
                assert(read_before + whole.subrange(
                    start_in_piece as int,
                    start_in_piece + to_read,
                ) =~= self@.subrange(offset as int, current_offset + to_read));
            }
            current_offset += to_read;
        }
        result
    }

    /// The whole document.
    pub fn get_all_text(&self) -> (text: Vec<u8>)
        requires
            self.wf(),
        ensures
            text@ == self@,
    {
        proof {
            assert(text_slice(self@, 0, self@.len() as int) =~= self@);
        }
        self.get_text_range(0, self.total_bytes())
    }

    /// The whole document as a string, ill-formed UTF-8 replaced by U+FFFD.
    pub fn get_all_text_string(&self) -> (text: String)
        requires
            self.wf(),
        ensures
            text@ == utf8_lossy(self@),
            vstd::utf8::valid_utf8(self@) ==> text@ == vstd::utf8::decode_utf8(self@),
    {
        let bytes = self.get_all_text();
        lossy_string(bytes.as_slice())
    }

    /// The bytes of line `line`, its line feed included, or `None` if the
    /// document has no such line.
    pub fn get_line(&self, line: usize) -> (text: Option<Vec<u8>>)
        requires
            self.wf(),
        ensures
            match line_span(self@, line as nat) {
                Some((start, Some(end))) => text matches Some(bytes) && bytes@ == self@.subrange(
                    start,
                    end,
                ),
                Some((start, None)) => text matches Some(bytes) && bytes@ == self@.subrange(
                    start,
                    self@.len() as int,
                ),
                None => text is None,
            },
    {
        proof {
            crate::line_index::lemma_line_start_bound(self@, line as nat);
            crate::line_index::lemma_line_start_bound(self@, (line + 1) as nat);
            crate::line_index::lemma_line_start_monotone(self@, line as nat, (line + 1) as nat);
        }
        let (start, end) = match self.piece_tree.line_range(line, &self.buffers) {
            Some(range) => range,
            None => {
                return None;
            },
        };
        let bytes = match end {
            Some(end_offset) => end_offset - start,
            None => self.total_bytes() - start,
        };
        let text = self.get_text_range(start, bytes);
        Some(text)
    }

    /// The byte offset at which line `line` starts, or `None` if the
    /// document has no such line.
    pub fn line_start_offset(&self, line: usize) -> (start: Option<usize>)
        requires
            self.wf(),
        ensures
            match line_span(self@, line as nat) {
                Some((offset, _)) => start == Some(offset as usize),
                None => start is None,
            },
            start matches Some(offset) ==> offset == crate::line_index::line_start(
                self@,
                line as nat,
            ),
    {
        match self.piece_tree.line_range(line, &self.buffers) {
            Some((start, _)) => Some(start),
            None => None,
        }
    }

    /// The piece that holds byte `offset`, or `None` at and past the end.
    pub fn piece_info_at_offset(&self, offset: usize) -> (found: Option<PieceInfo>)
        requires
            self.wf(),
        ensures
            found == match piece_at(self.pieces(), offset as int) {
                Some((piece, within)) => Some(info_of(piece, within)),
                None => None,
            },
            found is Some <==> offset < self@.len(),
    {
        proof {
            self.lemma_pieces();
        }
        self.piece_tree.find_by_offset(offset)
    }

    /// Figures about the piece tree, for diagnostics.
    pub fn stats(&self) -> (stats: TreeStats)
        requires
            self.wf(),
        ensures
            stats.total_bytes == self@.len(),
            stats.line_feed_count == count_lf(self@),
            stats.piece_count == self.pieces().len(),
            stats.depth == self.depth(),
    {
        proof {
            self.lemma_pieces();
        }
        self.piece_tree.stats()
    }

    /// The byte at `offset`, or `None` at and past the end.
    pub fn byte_at(&self, offset: usize) -> (byte: Option<u8>)
        requires
            self.wf(),
        ensures
            byte == if offset < self@.len() {
                Some(self@[offset as int])
            } else {
                None
            },
    {
        let bytes = self.get_text_range(offset, 1);
        if bytes.len() == 1 {
            Some(bytes[0])
        } else {
            None
        }
    }

    /// The largest code-point boundary before `offset`, the offset clamped
    /// to the document; zero at the start.
    pub fn prev_char_boundary(&self, offset: usize) -> (boundary: usize)
        requires
            self.wf(),
        ensures
            boundary == prev_boundary(self@, offset as int),
            boundary <= self@.len(),
            boundary <= offset,
    {
        let total = self.total_bytes();
        let at = if offset < total {
            offset
        } else {
            total
        };
        if at == 0 {
            return 0;
        }
        let mut boundary = at - 1;
        while boundary > 0
            invariant
                self.wf(),
                boundary < at <= self@.len(),
                at <= offset,
                at == clamp_to(offset as int, self@.len() as int),
                boundary_at_or_before(self@, at - 1) == boundary_at_or_before(
                    self@,
                    boundary as int,
                ),
            decreases boundary,
        {
            let continues = match self.byte_at(boundary) {
                Some(byte) => byte >= 0x80 && byte < 0xC0,
                None => false,
            };
            if !continues {
                return boundary;
            }
            boundary -= 1;
        }
        boundary
    }

    /// The smallest code-point boundary after `offset`; the end of the
    /// document at and past the end.
    pub fn next_char_boundary(&self, offset: usize) -> (boundary: usize)
        requires
            self.wf(),
        ensures
            boundary == next_boundary(self@, offset as int),
            boundary <= self@.len(),
    {
        proof {
            self.lemma_pieces();
        }
        let total = self.total_bytes();
        if offset >= total {
            return total;
        }
        let mut boundary = offset + 1;
        while boundary < total
            invariant
                self.wf(),
                total == self@.len(),
                offset < boundary <= total,
                boundary_at_or_after(self@, offset + 1) == boundary_at_or_after(
                    self@,
                    boundary as int,
                ),
            decreases total - boundary,
        {
            let continues = match self.byte_at(boundary) {
                Some(byte) => byte >= 0x80 && byte < 0xC0,
                None => false,
            };
            if !continues {
                return boundary;
            }
            boundary += 1;
        }
        boundary
    }

    /// Deletes the code point that ends at `offset`: the bytes from the
    /// boundary before the offset up to the offset. Returns that boundary,
    /// which is where a cursor at `offset` now stands.
    pub fn delete_backward(&mut self, offset: usize) -> (boundary: usize)
        requires
            old(self).wf(),
        ensures
            final(self).wf(),
            boundary == prev_boundary(old(self)@, offset as int),
            final(self)@ == text_deleted(
                old(self)@,
                boundary as int,
                clamp_to(offset as int, old(self)@.len() as int) - boundary,
            ),
    {
        let total = self.total_bytes();
        let at = if offset < total {
            offset
        } else {
            total
        };
        let boundary = self.prev_char_boundary(offset);
        proof {
            if at > 0 {
                lemma_prev_boundary(self@, at as int);
            }
        }
        self.delete_bytes(boundary, at - boundary);
        boundary
    }

    /// Deletes the code point that starts at `offset`: the bytes from the
    /// offset up to the boundary after it. Nothing changes at and past the
    /// end of the document.
    pub fn delete_forward(&mut self, offset: usize)
        requires
            old(self).wf(),
        ensures
            final(self).wf(),
            final(self)@ == if offset >= old(self)@.len() {
                old(self)@
            } else {
                text_deleted(
                    old(self)@,
                    offset as int,
                    next_boundary(old(self)@, offset as int) - offset,
                )
            },
    {
        let total = self.total_bytes();
        if offset >= total {
            return ;
        }
        let boundary = self.next_char_boundary(offset);
        proof {
            lemma_next_boundary(self@, offset as int);
        }
        self.delete_bytes(offset, boundary - offset);
    }
}

} // verus!
