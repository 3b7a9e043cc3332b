//! The piece tree: an ordered sequence of pieces, each a window into one of
//! the buffer's byte arenas, kept in a height-balanced persistent tree that
//! caches byte and line-feed totals for logarithmic navigation.

use crate::line_index::{count_lf, count_line_feeds, find_line_start, line_start};
use crate::sharing::share;
use std::sync::Arc;
use vstd::prelude::*;

verus! {

/// Which arena a piece reads from: the one holding the content the buffer
/// was opened with, or one added by an edit. Both carry the arena's id.
#[derive(Clone, Copy, Debug, PartialEq, Eq, Structural)]
pub enum BufferLocation {
    Stored(usize),
    Added(usize),
}

impl BufferLocation {
    /// The id of the arena, whichever kind it is.
    pub open spec fn id(self) -> usize {
        match self {
            BufferLocation::Stored(id) => id,
            BufferLocation::Added(id) => id,
        }
    }

    /// The id of the arena, whichever kind it is.
    pub fn buffer_id(&self) -> (id: usize)
        ensures
            id == self.id(),
    {
        match self {
            BufferLocation::Stored(id) => *id,
            BufferLocation::Added(id) => *id,
        }
    }

    /// Whether the arena was added by an edit.
    pub fn is_added(&self) -> (added: bool)
        ensures
            added == (*self is Added),
    {
        match self {
            BufferLocation::Stored(_) => false,
            BufferLocation::Added(_) => true,
        }
    }
}

/// A byte arena: an id and bytes that only ever grow at the end.
#[derive(Debug)]
pub struct StringBuffer {
    pub id: usize,
    pub data: Vec<u8>,
}

impl StringBuffer {
    /// An arena holding `data`.
    pub fn new(id: usize, data: Vec<u8>) -> (buffer: StringBuffer)
        ensures
            buffer.id == id,
            buffer.data == data,
    {
        StringBuffer { id, data }
    }

    /// The number of line feeds in the arena.
    pub fn line_feed_count(&self) -> (count: usize)
        ensures
            count == count_lf(self.data@),
    {
        proof {
            assert(self.data@.subrange(0, self.data@.len() as int) =~= self.data@);
        }
        count_line_feeds(self.data.as_slice(), 0, self.data.len())
    }

    /// Appends `text` and returns the offset at which it begins. The bytes
    /// that were there stay where they were.
    pub fn append(&mut self, text: &[u8]) -> (offset: usize)
        ensures
            offset == old(self).data@.len(),
            final(self).data@ == old(self).data@ + text@,
            final(self).id == old(self).id,
    {
        let offset = self.data.len();
        self.data.extend_from_slice(text);
        offset
    }
}

/// A zero-indexed line and a column, the column a byte offset from the
/// start of the line.
#[derive(Clone, Copy, Debug, PartialEq, Eq, Structural)]
pub struct Position {
    pub line: usize,
    pub column: usize,
}

/// A window of `bytes` bytes at `offset` in the arena `location`, with the
/// number of line feeds inside it.
#[derive(Clone, Copy, Debug, PartialEq, Eq, Structural)]
pub struct Piece {
    pub location: BufferLocation,
    pub offset: usize,
    pub bytes: usize,
    pub line_feed_count: usize,
}

/// What a lookup by offset finds: the piece's window, and how far into the
/// piece the offset lies.
#[derive(Clone, Copy, Debug, PartialEq, Eq)]
pub struct PieceInfo {
    pub location: BufferLocation,
    pub offset: usize,
    pub bytes: usize,
    pub offset_in_piece: Option<usize>,
}

/// A place in the document: the offset at which a piece starts and a
/// distance into that piece. At the end of the document the piece is the
/// empty one that would start there. A cursor is stale after the next edit.
#[derive(Clone, Copy, Debug, PartialEq, Eq)]
pub struct Cursor {
    pub piece_start: usize,
    pub offset_in_piece: usize,
}

/// Figures about a tree, for diagnostics.
#[derive(Clone, Copy, Debug, PartialEq, Eq)]
pub struct TreeStats {
    pub total_bytes: usize,
    pub line_feed_count: usize,
    pub piece_count: usize,
    pub depth: usize,
}

/// The bytes of the arena with the given id.
pub open spec fn arena(buffers: Seq<StringBuffer>, id: usize) -> Seq<u8> {
    buffers[id as int].data@
}

/// The bytes a piece stands for.
pub open spec fn window(piece: Piece, buffers: Seq<StringBuffer>) -> Seq<u8> {
    arena(buffers, piece.location.id()).subrange(
        piece.offset as int,
        piece.offset + piece.bytes,
    )
}

/// A piece is valid if it is not empty, lies within its arena and within
/// what the machine can address, and carries the line-feed count of its
/// window.
pub open spec fn piece_ok(piece: Piece, buffers: Seq<StringBuffer>) -> bool {
    &&& piece.location.id() < buffers.len()
    &&& piece.bytes >= 1
    &&& piece.offset + piece.bytes <= arena(buffers, piece.location.id()).len()
    &&& piece.offset + piece.bytes <= usize::MAX
    &&& piece.line_feed_count == count_lf(window(piece, buffers))
}

/// Every piece of the sequence is valid.
pub open spec fn pieces_ok(pieces: Seq<Piece>, buffers: Seq<StringBuffer>) -> bool {
    forall|i: int| 0 <= i < pieces.len() ==> piece_ok(#[trigger] pieces[i], buffers)
}

/// The document a sequence of pieces stands for: their windows in a row.
pub open spec fn content(pieces: Seq<Piece>, buffers: Seq<StringBuffer>) -> Seq<u8>
    decreases pieces.len(),
{
    if pieces.len() == 0 {
        Seq::empty()
    } else {
        window(pieces[0], buffers) + content(pieces.drop_first(), buffers)
    }
}

/// The sum of the pieces' lengths.
pub open spec fn sum_bytes(pieces: Seq<Piece>) -> nat
    decreases pieces.len(),
{
    if pieces.len() == 0 {
        0
    } else {
        pieces[0].bytes as nat + sum_bytes(pieces.drop_first())
    }
}

/// The sum of the pieces' line-feed counts.
pub open spec fn sum_line_feeds(pieces: Seq<Piece>) -> nat
    decreases pieces.len(),
{
    if pieces.len() == 0 {
        0
    } else {
        pieces[0].line_feed_count as nat + sum_line_feeds(pieces.drop_first())
    }
}

/// The first `n` bytes of a piece, as a piece.
pub open spec fn piece_head(piece: Piece, n: int, buffers: Seq<StringBuffer>) -> Piece {
    Piece {
        location: piece.location,
        offset: piece.offset,
        bytes: n as usize,
        line_feed_count: count_lf(window(piece, buffers).subrange(0, n)) as usize,
    }
}

/// A piece without its first `n` bytes, as a piece.
pub open spec fn piece_tail(piece: Piece, n: int, buffers: Seq<StringBuffer>) -> Piece {
    Piece {
        location: piece.location,
        offset: (piece.offset + n) as usize,
        bytes: (piece.bytes - n) as usize,
        line_feed_count: count_lf(
            window(piece, buffers).subrange(n, piece.bytes as int),
        ) as usize,
    }
}

/// The pieces that stand for the first `n` bytes: the pieces that end at or
/// before `n`, then the head of the piece that straddles `n`, if one does.
pub open spec fn pieces_take(pieces: Seq<Piece>, n: int, buffers: Seq<StringBuffer>) -> Seq<Piece>
    decreases pieces.len(),
{
    if pieces.len() == 0 || n <= 0 {
        Seq::empty()
    } else if n >= pieces[0].bytes {
        seq![pieces[0]] + pieces_take(pieces.drop_first(), n - pieces[0].bytes, buffers)
    } else {
        seq![piece_head(pieces[0], n, buffers)]
    }
}

/// The pieces that stand for the bytes from `n` on: the tail of the piece
/// that straddles `n`, if one does, then the pieces that start at or after `n`.
pub open spec fn pieces_skip(pieces: Seq<Piece>, n: int, buffers: Seq<StringBuffer>) -> Seq<Piece>
    decreases pieces.len(),
{
    if pieces.len() == 0 {
        Seq::empty()
    } else if n <= 0 {
        pieces
    } else if n >= pieces[0].bytes {
        pieces_skip(pieces.drop_first(), n - pieces[0].bytes, buffers)
    } else {
        seq![piece_tail(pieces[0], n, buffers)] + pieces.drop_first()
    }
}

/// Whether `next` continues `piece` in the same arena, so that the two
/// windows together are one window.
pub open spec fn continues(piece: Piece, next: Piece) -> bool {
    &&& piece.location == next.location
    &&& piece.offset + piece.bytes == next.offset
}

/// Two pieces of which the second continues the first, as one piece.
pub open spec fn piece_joined(piece: Piece, next: Piece) -> Piece {
    Piece {
        location: piece.location,
        offset: piece.offset,
        bytes: (piece.bytes + next.bytes) as usize,
        line_feed_count: (piece.line_feed_count + next.line_feed_count) as usize,
    }
}

/// `pieces` with `piece` at the end: joined to the last piece where it
/// continues that one, else as a piece of its own.
pub open spec fn pieces_append(pieces: Seq<Piece>, piece: Piece) -> Seq<Piece> {
    if pieces.len() > 0 && continues(pieces.last(), piece) {
        pieces.drop_last().push(piece_joined(pieces.last(), piece))
    } else {
        pieces.push(piece)
    }
}

/// The pieces after inserting `piece` at byte `offset`, the offset clamped
/// to the document.
pub open spec fn pieces_insert(
    pieces: Seq<Piece>,
    offset: int,
    piece: Piece,
    buffers: Seq<StringBuffer>,
) -> Seq<Piece> {
    pieces_append(pieces_take(pieces, offset, buffers), piece) + pieces_skip(
        pieces,
        offset,
        buffers,
    )
}

/// The pieces after deleting `len` bytes at byte `offset`.
pub open spec fn pieces_delete(
    pieces: Seq<Piece>,
    offset: int,
    len: int,
    buffers: Seq<StringBuffer>,
) -> Seq<Piece> {
    pieces_take(pieces, offset, buffers) + pieces_skip(pieces, offset + len, buffers)
}

/// The document of two runs of pieces is the two documents in a row.
pub proof fn lemma_content_concat(a: Seq<Piece>, b: Seq<Piece>, buffers: Seq<StringBuffer>)
    ensures
        content(a + b, buffers) == content(a, buffers) + content(b, buffers),
    decreases a.len(),
{
    if a.len() == 0 {
        assert(a + b =~= b);
        assert(content(a, buffers) + content(b, buffers) =~= content(b, buffers));
    } else {
        assert((a + b).drop_first() =~= a.drop_first() + b);
        lemma_content_concat(a.drop_first(), b, buffers);
        assert(content(a + b, buffers) =~= content(a, buffers) + content(b, buffers));
    }
}

/// Lengths and line-feed counts add up over two runs of pieces.
pub proof fn lemma_sums_concat(a: Seq<Piece>, b: Seq<Piece>)
    ensures
        sum_bytes(a + b) == sum_bytes(a) + sum_bytes(b),
        sum_line_feeds(a + b) == sum_line_feeds(a) + sum_line_feeds(b),
    decreases a.len(),
{
    if a.len() == 0 {
        assert(a + b =~= b);
    } else {
        assert((a + b).drop_first() =~= a.drop_first() + b);
        lemma_sums_concat(a.drop_first(), b);
    }
}

/// A single piece stands for its window.
pub proof fn lemma_single(piece: Piece, buffers: Seq<StringBuffer>)
    ensures
        content(seq![piece], buffers) == window(piece, buffers),
        sum_bytes(seq![piece]) == piece.bytes,
        sum_line_feeds(seq![piece]) == piece.line_feed_count,
{
    let one = seq![piece];
    assert(one.drop_first() =~= Seq::<Piece>::empty());
    assert(content(one.drop_first(), buffers) =~= Seq::<u8>::empty());
    assert(sum_bytes(one.drop_first()) == 0);
    assert(sum_line_feeds(one.drop_first()) == 0);
    assert(content(one, buffers) =~= window(piece, buffers));
}

/// Two runs of valid pieces are a run of valid pieces.
pub proof fn lemma_ok_concat(a: Seq<Piece>, b: Seq<Piece>, buffers: Seq<StringBuffer>)
    requires
        pieces_ok(a, buffers),
        pieces_ok(b, buffers),
    ensures
        pieces_ok(a + b, buffers),
{
}

/// Valid pieces sum up to the length and the line feeds of their document.
pub proof fn lemma_content_sums(pieces: Seq<Piece>, buffers: Seq<StringBuffer>)
    requires
        pieces_ok(pieces, buffers),
    ensures
        content(pieces, buffers).len() == sum_bytes(pieces),
        count_lf(content(pieces, buffers)) == sum_line_feeds(pieces),
        pieces.len() <= sum_bytes(pieces),
    decreases pieces.len(),
{
    if pieces.len() > 0 {
        assert(piece_ok(pieces[0], buffers));
        assert(pieces_ok(pieces.drop_first(), buffers)) by {
            assert forall|i: int| 0 <= i < pieces.drop_first().len() implies piece_ok(
                #[trigger] pieces.drop_first()[i],
                buffers,
            ) by {
                assert(pieces.drop_first()[i] == pieces[i + 1]);
            }
        }
        lemma_content_sums(pieces.drop_first(), buffers);
        crate::line_index::lemma_count_lf_concat(
            window(pieces[0], buffers),
            content(pieces.drop_first(), buffers),
        );
    }
}

/// The head and the tail of a valid piece cut strictly inside it are valid
/// pieces, and their windows are the two parts of its window.
pub proof fn lemma_piece_cut(piece: Piece, n: int, buffers: Seq<StringBuffer>)
    requires
        piece_ok(piece, buffers),
        0 < n < piece.bytes,
    ensures
        piece_ok(piece_head(piece, n, buffers), buffers),
        piece_ok(piece_tail(piece, n, buffers), buffers),
        window(piece_head(piece, n, buffers), buffers) == window(piece, buffers).subrange(0, n),
        window(piece_tail(piece, n, buffers), buffers) == window(piece, buffers).subrange(
            n,
            piece.bytes as int,
        ),
        piece_head(piece, n, buffers).line_feed_count + piece_tail(
            piece,
            n,
            buffers,
        ).line_feed_count == piece.line_feed_count,
        continues(piece_head(piece, n, buffers), piece_tail(piece, n, buffers)),
{
    let w = window(piece, buffers);
    crate::line_index::lemma_count_lf_bound(w.subrange(0, n));
    crate::line_index::lemma_count_lf_bound(w.subrange(n, piece.bytes as int));
    crate::line_index::lemma_count_lf_split(w, n);
    assert(window(piece_head(piece, n, buffers), buffers) =~= w.subrange(0, n));
    assert(window(piece_tail(piece, n, buffers), buffers) =~= w.subrange(n, piece.bytes as int));
}

/// The rest of a run of valid pieces is a run of valid pieces.
pub proof fn lemma_ok_drop_first(pieces: Seq<Piece>, buffers: Seq<StringBuffer>)
    requires
        pieces_ok(pieces, buffers),
        pieces.len() > 0,
    ensures
        pieces_ok(pieces.drop_first(), buffers),
        piece_ok(pieces[0], buffers),
{
    assert forall|i: int| 0 <= i < pieces.drop_first().len() implies piece_ok(
        #[trigger] pieces.drop_first()[i],
        buffers,
    ) by {
        assert(pieces.drop_first()[i] == pieces[i + 1]);
    }
}

/// Taking and skipping `n` bytes of valid pieces gives valid pieces that
/// stand for the first `n` bytes of the document and for the rest of it.
pub proof fn lemma_take_skip(pieces: Seq<Piece>, n: int, buffers: Seq<StringBuffer>)
    requires
        pieces_ok(pieces, buffers),
        0 <= n <= sum_bytes(pieces),
    ensures
        pieces_ok(pieces_take(pieces, n, buffers), buffers),
        pieces_ok(pieces_skip(pieces, n, buffers), buffers),
        content(pieces_take(pieces, n, buffers), buffers) == content(pieces, buffers).subrange(
            0,
            n,
        ),
        content(pieces_skip(pieces, n, buffers), buffers) == content(pieces, buffers).subrange(
            n,
            content(pieces, buffers).len() as int,
        ),
        sum_bytes(pieces_take(pieces, n, buffers)) == n,
        sum_bytes(pieces_skip(pieces, n, buffers)) == sum_bytes(pieces) - n,
        n == sum_bytes(pieces) ==> pieces_take(pieces, n, buffers) == pieces && pieces_skip(
            pieces,
            n,
            buffers,
        ) == Seq::<Piece>::empty(),
        n == 0 ==> pieces_take(pieces, n, buffers) == Seq::<Piece>::empty() && pieces_skip(
            pieces,
            n,
            buffers,
        ) == pieces,
    decreases pieces.len(),
{
    lemma_content_sums(pieces, buffers);
    let all = content(pieces, buffers);
    if pieces.len() == 0 {
        assert(all.subrange(0, n) =~= Seq::<u8>::empty());
        assert(all.subrange(n, all.len() as int) =~= Seq::<u8>::empty());
    } else if n == 0 {
        assert(all.subrange(0, n) =~= Seq::<u8>::empty());
        assert(all.subrange(n, all.len() as int) =~= all);
    } else {
        let first = pieces[0];
        let rest = pieces.drop_first();
        lemma_ok_drop_first(pieces, buffers);
        lemma_content_sums(rest, buffers);
        let w = window(first, buffers);
        if n >= first.bytes {
            let m = n - first.bytes;
            lemma_take_skip(rest, m, buffers);
            let taken = pieces_take(rest, m, buffers);
            lemma_content_concat(seq![first], taken, buffers);
            lemma_sums_concat(seq![first], taken);
            lemma_single(first, buffers);
            assert(content(pieces_take(pieces, n, buffers), buffers) =~= all.subrange(0, n));
            assert(content(pieces_skip(pieces, n, buffers), buffers) =~= all.subrange(
                n,
                all.len() as int,
            ));
            if n == sum_bytes(pieces) {
                assert(seq![first] + rest =~= pieces);
            }
        } else {
            lemma_piece_cut(first, n, buffers);
            let head = piece_head(first, n, buffers);
            let tail = piece_tail(first, n, buffers);
            lemma_single(head, buffers);
            lemma_single(tail, buffers);
            lemma_content_concat(seq![tail], rest, buffers);
            lemma_sums_concat(seq![tail], rest);
            assert(content(pieces_take(pieces, n, buffers), buffers) =~= all.subrange(0, n));
            assert(content(pieces_skip(pieces, n, buffers), buffers) =~= all.subrange(
                n,
                all.len() as int,
            ));
        }
    }
}

/// Taking from two runs of pieces takes from the first, and from the second
/// only once the first is used up; skipping likewise.
pub proof fn lemma_take_skip_concat(
    a: Seq<Piece>,
    b: Seq<Piece>,
    n: int,
    buffers: Seq<StringBuffer>,
)
    requires
        pieces_ok(a, buffers),
    ensures
        pieces_take(a + b, n, buffers) == if n <= sum_bytes(a) {
            pieces_take(a, n, buffers)
        } else {
            a + pieces_take(b, n - sum_bytes(a), buffers)
        },
        pieces_skip(a + b, n, buffers) == if n < sum_bytes(a) {
            pieces_skip(a, n, buffers) + b
        } else {
            pieces_skip(b, n - sum_bytes(a), buffers)
        },
    decreases a.len(),
{
    if a.len() == 0 {
        assert(a + b =~= b);
        assert(a + pieces_take(b, n, buffers) =~= pieces_take(b, n, buffers));
    } else {
        let first = a[0];
        let rest = a.drop_first();
        lemma_ok_drop_first(a, buffers);
        assert((a + b).drop_first() =~= rest + b);
        assert((a + b)[0] == first);
        lemma_take_skip_concat(rest, b, n - first.bytes, buffers);
        if n <= 0 {
            assert(pieces_skip(a, n, buffers) + b =~= a + b);
        } else if n >= first.bytes {
            if n <= sum_bytes(a) {
            } else {
                assert(seq![first] + (rest + pieces_take(b, n - sum_bytes(a), buffers)) =~= a
                    + pieces_take(b, n - sum_bytes(a), buffers));
            }
        } else {
            assert(seq![piece_tail(first, n, buffers)] + (rest + b) =~= (seq![
                piece_tail(first, n, buffers),
            ] + rest) + b);
        }
    }
}

/// Appending a valid piece to valid pieces gives valid pieces that stand for
/// the document with the piece's window at its end.
pub proof fn lemma_append(pieces: Seq<Piece>, piece: Piece, buffers: Seq<StringBuffer>)
    requires
        pieces_ok(pieces, buffers),
        piece_ok(piece, buffers),
    ensures
        pieces_ok(pieces_append(pieces, piece), buffers),
        content(pieces_append(pieces, piece), buffers) == content(pieces, buffers) + window(
            piece,
            buffers,
        ),
        sum_bytes(pieces_append(pieces, piece)) == sum_bytes(pieces) + piece.bytes,
{
    lemma_single(piece, buffers);
    if pieces.len() > 0 && continues(pieces.last(), piece) {
        let last = pieces.last();
        let init = pieces.drop_last();
        let joined = piece_joined(last, piece);
        assert(piece_ok(last, buffers));
        assert(pieces =~= init.push(last));
        assert(init.push(last) =~= init + seq![last]);
        assert(init.push(joined) =~= init + seq![joined]);
        crate::line_index::lemma_count_lf_concat(window(last, buffers), window(piece, buffers));
        crate::line_index::lemma_count_lf_bound(window(last, buffers));
        crate::line_index::lemma_count_lf_bound(window(piece, buffers));
        assert(window(joined, buffers) =~= window(last, buffers) + window(piece, buffers));
        lemma_single(last, buffers);
        lemma_single(joined, buffers);
        lemma_content_concat(init, seq![last], buffers);
        lemma_content_concat(init, seq![joined], buffers);
        lemma_sums_concat(init, seq![last]);
        lemma_sums_concat(init, seq![joined]);
        assert(content(init, buffers) + (window(last, buffers) + window(piece, buffers))
            =~= content(init, buffers) + window(last, buffers) + window(piece, buffers));
        assert(pieces_ok(init.push(joined), buffers)) by {
            assert forall|i: int| 0 <= i < init.push(joined).len() implies piece_ok(
                #[trigger] init.push(joined)[i],
                buffers,
            ) by {
                if i < init.len() {
                    assert(init.push(joined)[i] == pieces[i]);
                }
            }
        }
    } else {
        assert(pieces.push(piece) =~= pieces + seq![piece]);
        lemma_content_concat(pieces, seq![piece], buffers);
        lemma_sums_concat(pieces, seq![piece]);
    }
}

/// Arenas only grow: `after` has every arena of `before`, each with the
/// bytes it had, and possibly more arenas and more bytes at the ends.
pub open spec fn arenas_grown(before: Seq<StringBuffer>, after: Seq<StringBuffer>) -> bool {
    &&& before.len() <= after.len()
    &&& forall|i: int|
        0 <= i < before.len() ==> (#[trigger] before[i]).data@.len() <= after[i].data@.len()
            && after[i].data@.subrange(0, before[i].data@.len() as int) == before[i].data@
}

/// Arenas that have not changed have grown, by nothing.
pub proof fn lemma_grown_same(buffers: Seq<StringBuffer>)
    ensures
        arenas_grown(buffers, buffers),
{
    assert forall|i: int| 0 <= i < buffers.len() implies (#[trigger] buffers[i]).data@.len()
        <= buffers[i].data@.len() && buffers[i].data@.subrange(0, buffers[i].data@.len() as int)
        == buffers[i].data@ by {
        assert(buffers[i].data@.subrange(0, buffers[i].data@.len() as int) =~= buffers[i].data@);
    }
}

/// A valid piece stands for the same bytes after its arena has grown.
pub proof fn lemma_grown_piece(piece: Piece, before: Seq<StringBuffer>, after: Seq<StringBuffer>)
    requires
        piece_ok(piece, before),
        arenas_grown(before, after),
    ensures
        piece_ok(piece, after),
        window(piece, after) == window(piece, before),
{
    let id = piece.location.id() as int;
    assert(before[id].data@.len() <= after[id].data@.len());
    assert(after[id].data@.subrange(0, before[id].data@.len() as int) == before[id].data@);
    assert(window(piece, after) =~= window(piece, before)) by {
        assert forall|k: int| 0 <= k < piece.bytes implies window(piece, after)[k] == window(
            piece,
            before,
        )[k] by {
            assert(after[id].data@.subrange(0, before[id].data@.len() as int)[piece.offset + k]
                == after[id].data@[piece.offset + k]);
        }
    }
}

/// Valid pieces stand for the same document after arenas have grown, and
/// are cut in the same places.
pub proof fn lemma_grown(pieces: Seq<Piece>, before: Seq<StringBuffer>, after: Seq<StringBuffer>)
    requires
        pieces_ok(pieces, before),
        arenas_grown(before, after),
    ensures
        pieces_ok(pieces, after),
        content(pieces, after) == content(pieces, before),
        forall|n: int| #[trigger]
            pieces_take(pieces, n, after) == pieces_take(pieces, n, before),
        forall|n: int| #[trigger]
            pieces_skip(pieces, n, after) == pieces_skip(pieces, n, before),
    decreases pieces.len(),
{
    assert forall|i: int| 0 <= i < pieces.len() implies piece_ok(#[trigger] pieces[i], after) by {
        lemma_grown_piece(pieces[i], before, after);
    }
    if pieces.len() > 0 {
        let first = pieces[0];
        let rest = pieces.drop_first();
        lemma_ok_drop_first(pieces, before);
        lemma_grown(rest, before, after);
        lemma_grown_piece(first, before, after);
        assert forall|n: int| #[trigger]
            pieces_take(pieces, n, after) == pieces_take(pieces, n, before) by {
            let m = n - first.bytes;
            assert(pieces_take(rest, m, after) == pieces_take(rest, m, before));
        }
        assert forall|n: int| #[trigger]
            pieces_skip(pieces, n, after) == pieces_skip(pieces, n, before) by {
            let m = n - first.bytes;
            assert(pieces_skip(rest, m, after) == pieces_skip(rest, m, before));
        }
    }
}

/// The fewest pieces that a balanced tree of the given depth can have:
/// none for no level, one for one level, and for more levels the root
/// piece and the fewest of a tree one level and of a tree two levels lower.
pub open spec fn fewest_pieces(depth: nat) -> nat
    decreases depth,
{
    if depth == 0 {
        0
    } else if depth == 1 {
        1
    } else {
        1 + fewest_pieces((depth - 1) as nat) + fewest_pieces((depth - 2) as nat)
    }
}

/// A deeper tree has no fewer pieces at the least.
pub proof fn lemma_fewest_pieces_grows(depth: nat, deeper: nat)
    requires
        depth <= deeper,
    ensures
        fewest_pieces(depth) <= fewest_pieces(deeper),
    decreases deeper,
{
    if depth < deeper {
        lemma_fewest_pieces_grows(depth, (deeper - 1) as nat);
    }
}

/// Two more levels at least double the fewest pieces, so that the depth of
/// a balanced tree grows with the logarithm of the number of its pieces.
pub proof fn lemma_fewest_pieces_doubles(depth: nat)
    ensures
        fewest_pieces(depth + 2) + 1 >= 2 * (fewest_pieces(depth) + 1),
{
    lemma_fewest_pieces_grows(depth, depth + 1);
}

/// A node of the tree. A branch holds one piece between two subtrees and
/// caches the byte total, the line-feed total and the height of its subtree.
#[derive(Debug)]
enum PieceNode {
    Nil,
    Branch {
        left: Arc<PieceNode>,
        piece: Piece,
        right: Arc<PieceNode>,
        bytes: usize,
        line_feeds: usize,
        height: usize,
    },
}

impl PieceNode {
    /// The pieces of the subtree in document order.
    spec fn pieces(&self) -> Seq<Piece>
        decreases self,
    {
        match self {
            PieceNode::Nil => Seq::empty(),
            PieceNode::Branch { left, piece, right, .. } => left.pieces() + seq![*piece]
                + right.pieces(),
        }
    }

    /// The cached byte total.
    spec fn spec_bytes(&self) -> nat {
        match self {
            PieceNode::Nil => 0,
            PieceNode::Branch { bytes, .. } => *bytes as nat,
        }
    }

    /// The cached line-feed total.
    spec fn spec_line_feeds(&self) -> nat {
        match self {
            PieceNode::Nil => 0,
            PieceNode::Branch { line_feeds, .. } => *line_feeds as nat,
        }
    }

    /// The cached height.
    spec fn spec_height(&self) -> nat {
        match self {
            PieceNode::Nil => 0,
            PieceNode::Branch { height, .. } => *height as nat,
        }
    }

    /// The cached totals are the sums over the two subtrees and the piece,
    /// no piece is empty or claims more line feeds than bytes, and the
    /// cached height is one more than that of the taller subtree.
    spec fn wf(&self) -> bool
        decreases self,
    {
        match self {
            PieceNode::Nil => true,
            PieceNode::Branch { left, piece, right, bytes, line_feeds, height } => {
                &&& left.wf()
                &&& right.wf()
                &&& piece.bytes >= 1
                &&& piece.line_feed_count <= piece.bytes
                &&& *bytes == left.spec_bytes() + piece.bytes + right.spec_bytes()
                &&& *line_feeds == left.spec_line_feeds() + piece.line_feed_count
                    + right.spec_line_feeds()
                &&& *height == 1 + if left.spec_height() > right.spec_height() {
                    left.spec_height()
                } else {
                    right.spec_height()
                }
                &&& *height <= *bytes
                &&& *line_feeds <= *bytes
            },
        }
    }

    /// At every branch the heights of the two subtrees differ by at most one.
    spec fn balanced(&self) -> bool
        decreases self,
    {
        match self {
            PieceNode::Nil => true,
            PieceNode::Branch { left, right, .. } => {
                &&& left.balanced()
                &&& right.balanced()
                &&& left.spec_height() <= right.spec_height() + 1
                &&& right.spec_height() <= left.spec_height() + 1
            },
        }
    }

    /// The right subtree is the taller one.
    spec fn right_heavy(&self) -> bool {
        match self {
            PieceNode::Nil => false,
            PieceNode::Branch { left, right, .. } => right.spec_height() > left.spec_height(),
        }
    }

    /// The left subtree is the taller one.
    spec fn left_heavy(&self) -> bool {
        match self {
            PieceNode::Nil => false,
            PieceNode::Branch { left, right, .. } => left.spec_height() > right.spec_height(),
        }
    }

    /// A balanced subtree of some height has at least the fewest pieces
    /// that a balanced tree of that height can have.
    proof fn lemma_depth(&self)
        requires
            self.wf(),
            self.balanced(),
        ensures
            self.pieces().len() >= fewest_pieces(self.spec_height()),
        decreases self,
    {
        match self {
            PieceNode::Nil => {},
            PieceNode::Branch { left, right, .. } => {
                left.lemma_depth();
                right.lemma_depth();
                let h = self.spec_height();
                if h >= 2 {
                    lemma_fewest_pieces_grows((h - 2) as nat, left.spec_height());
                    lemma_fewest_pieces_grows((h - 2) as nat, right.spec_height());
                }
            },
        }
    }

    /// In a well-formed subtree the cached totals are the sums over its pieces.
    proof fn lemma_totals(&self)
        requires
            self.wf(),
        ensures
            self.spec_bytes() == sum_bytes(self.pieces()),
            self.spec_line_feeds() == sum_line_feeds(self.pieces()),
            self.spec_line_feeds() <= self.spec_bytes(),
            self.spec_height() <= self.spec_bytes(),
        decreases self,
    {
        match self {
            PieceNode::Nil => {},
            PieceNode::Branch { left, piece, right, .. } => {
                left.lemma_totals();
                right.lemma_totals();
                lemma_single(*piece, Seq::empty());
                lemma_sums_concat(left.pieces(), seq![*piece]);
                lemma_sums_concat(left.pieces() + seq![*piece], right.pieces());
            },
        }
    }

    fn bytes(&self) -> (bytes: usize)
        ensures
            bytes == self.spec_bytes(),
    {
        match self {
            PieceNode::Nil => 0,
            PieceNode::Branch { bytes, .. } => *bytes,
        }
    }

    fn line_feeds(&self) -> (line_feeds: usize)
        ensures
            line_feeds == self.spec_line_feeds(),
    {
        match self {
            PieceNode::Nil => 0,
            PieceNode::Branch { line_feeds, .. } => *line_feeds,
        }
    }

    fn height(&self) -> (height: usize)
        ensures
            height == self.spec_height(),
    {
        match self {
            PieceNode::Nil => 0,
            PieceNode::Branch { height, .. } => *height,
        }
    }

    /// The empty subtree.
    fn nil() -> (node: Arc<PieceNode>)
        ensures
            node.wf(),
            node.balanced(),
            node.pieces() == Seq::<Piece>::empty(),
            node.spec_bytes() == 0,
            node.spec_height() == 0,
    {
        Arc::new(PieceNode::Nil)
    }

    /// A branch over two subtrees and a piece, with its totals computed.
    fn make(left: Arc<PieceNode>, piece: Piece, right: Arc<PieceNode>) -> (node: Arc<PieceNode>)
        requires
            left.wf(),
            right.wf(),
            piece.bytes >= 1,
            piece.line_feed_count <= piece.bytes,
            left.spec_bytes() + piece.bytes + right.spec_bytes() <= usize::MAX,
        ensures
            node.wf(),
            node.pieces() == left.pieces() + seq![piece] + right.pieces(),
            node.spec_bytes() == left.spec_bytes() + piece.bytes + right.spec_bytes(),
            node.spec_height() == 1 + if left.spec_height() > right.spec_height() {
                left.spec_height()
            } else {
                right.spec_height()
            },
            node.right_heavy() == (right.spec_height() > left.spec_height()),
            node.left_heavy() == (left.spec_height() > right.spec_height()),
            left.balanced() && right.balanced() && left.spec_height() <= right.spec_height() + 1
                && right.spec_height() <= left.spec_height() + 1 ==> node.balanced(),
    {
        proof {
            left.lemma_totals();
            right.lemma_totals();
        }
        let bytes = left.bytes() + piece.bytes + right.bytes();
        let line_feeds = left.line_feeds() + piece.line_feed_count + right.line_feeds();
        let height = 1 + if left.height() > right.height() {
            left.height()
        } else {
            right.height()
        };
        Arc::new(PieceNode::Branch { left, piece, right, bytes, line_feeds, height })
    }

    /// Puts a subtree that has grown back under its parent on the right.
    /// Where it has become two taller than its sibling, the subtree is
    /// turned to the left about the parent, so that its root becomes the
    /// root of the two.
    fn attach_right(low: &Arc<PieceNode>, top: Piece, grown: Arc<PieceNode>) -> (node: Arc<
        PieceNode,
    >)
        requires
            low.wf(),
            grown.wf(),
            low.balanced(),
            grown.balanced(),
            low.spec_height() <= grown.spec_height() + 1,
            grown.spec_height() <= low.spec_height() + 2,
            grown.spec_height() == low.spec_height() + 2 ==> grown.right_heavy(),
            top.bytes >= 1,
            top.line_feed_count <= top.bytes,
            low.spec_bytes() + top.bytes + grown.spec_bytes() <= usize::MAX,
        ensures
            node.wf(),
            node.balanced(),
            node.pieces() == low.pieces() + seq![top] + grown.pieces(),
            node.spec_bytes() == low.spec_bytes() + top.bytes + grown.spec_bytes(),
            node.spec_height() == if grown.spec_height() == low.spec_height() + 2 {
                grown.spec_height()
            } else if grown.spec_height() > low.spec_height() {
                grown.spec_height() + 1
            } else {
                low.spec_height() + 1
            },
            grown.spec_height() == low.spec_height() + 1 ==> node.right_heavy(),
    {
        proof {
            reveal_with_fuel(PieceNode::wf, 2);
            reveal_with_fuel(PieceNode::pieces, 2);
            reveal_with_fuel(PieceNode::balanced, 2);
            low.lemma_totals();
            grown.lemma_totals();
        }
        if grown.height() <= low.height() + 1 {
            Self::make(share(low), top, grown)
        } else {
            match &*grown {
                PieceNode::Nil => vstd::pervasive::unreached(),
                PieceNode::Branch { left: near, piece: pivot, right: far, .. } => {
                    proof {
                        near.lemma_totals();
                        far.lemma_totals();
                    }
                    let before = Self::make(share(low), top, share(near));
                    proof {
                        assert(before.pieces() + seq![*pivot] + far.pieces() =~= low.pieces()
                            + seq![top] + grown.pieces());
                    }
                    Self::make(before, *pivot, share(far))
                },
            }
        }
    }

    /// Puts a subtree that has grown back under its parent on the left: the
    /// mirror image of `attach_right`.
    fn attach_left(grown: Arc<PieceNode>, top: Piece, low: &Arc<PieceNode>) -> (node: Arc<
        PieceNode,
    >)
        requires
            low.wf(),
            grown.wf(),
            low.balanced(),
            grown.balanced(),
            low.spec_height() <= grown.spec_height() + 1,
            grown.spec_height() <= low.spec_height() + 2,
            grown.spec_height() == low.spec_height() + 2 ==> grown.left_heavy(),
            top.bytes >= 1,
            top.line_feed_count <= top.bytes,
            low.spec_bytes() + top.bytes + grown.spec_bytes() <= usize::MAX,
        ensures
            node.wf(),
            node.balanced(),
            node.pieces() == grown.pieces() + seq![top] + low.pieces(),
            node.spec_bytes() == low.spec_bytes() + top.bytes + grown.spec_bytes(),
            node.spec_height() == if grown.spec_height() == low.spec_height() + 2 {
                grown.spec_height()
            } else if grown.spec_height() > low.spec_height() {
                grown.spec_height() + 1
            } else {
                low.spec_height() + 1
            },
            grown.spec_height() == low.spec_height() + 1 ==> node.left_heavy(),
    {
        proof {
            reveal_with_fuel(PieceNode::wf, 2);
            reveal_with_fuel(PieceNode::pieces, 2);
            reveal_with_fuel(PieceNode::balanced, 2);
            low.lemma_totals();
            grown.lemma_totals();
        }
        if grown.height() <= low.height() + 1 {
            Self::make(grown, top, share(low))
        } else {
            match &*grown {
                PieceNode::Nil => vstd::pervasive::unreached(),
                PieceNode::Branch { left: far, piece: pivot, right: near, .. } => {
                    proof {
                        near.lemma_totals();
                        far.lemma_totals();
                    }
                    let after = Self::make(share(near), top, share(low));
                    proof {
                        assert(far.pieces() + seq![*pivot] + after.pieces() =~= grown.pieces()
                            + seq![top] + low.pieces());
                    }
                    Self::make(share(far), *pivot, after)
                },
            }
        }
    }

    /// Joins, from left to right, `low`, `top`, `inner`, `piece` and
    /// `right`, where `inner` is one taller than `low` and than `right`: the
    /// root of `inner` becomes the root, with `low` and the left part of
    /// `inner` on its left and the right part of `inner` and `right` on its
    /// right.
    fn join_raised(
        low: &Arc<PieceNode>,
        top: Piece,
        inner: &Arc<PieceNode>,
        piece: Piece,
        right: &Arc<PieceNode>,
    ) -> (node: Arc<PieceNode>)
        requires
            low.wf(),
            inner.wf(),
            right.wf(),
            low.balanced(),
            inner.balanced(),
            right.balanced(),
            inner.spec_height() == low.spec_height() + 1,
            inner.spec_height() == right.spec_height() + 1,
            top.bytes >= 1,
            top.line_feed_count <= top.bytes,
            piece.bytes >= 1,
            piece.line_feed_count <= piece.bytes,
            low.spec_bytes() + top.bytes + inner.spec_bytes() + piece.bytes + right.spec_bytes()
                <= usize::MAX,
        ensures
            node.wf(),
            node.balanced(),
            node.pieces() == low.pieces() + seq![top] + inner.pieces() + seq![piece]
                + right.pieces(),
            node.spec_bytes() == low.spec_bytes() + top.bytes + inner.spec_bytes() + piece.bytes
                + right.spec_bytes(),
            node.spec_height() == inner.spec_height() + 1,
    {
        proof {
            reveal_with_fuel(PieceNode::wf, 2);
            reveal_with_fuel(PieceNode::pieces, 2);
            reveal_with_fuel(PieceNode::balanced, 2);
            low.lemma_totals();
            inner.lemma_totals();
            right.lemma_totals();
        }
        match &**inner {
            PieceNode::Nil => vstd::pervasive::unreached(),
            PieceNode::Branch { left: near, piece: pivot, right: far, .. } => {
                proof {
                    near.lemma_totals();
                    far.lemma_totals();
                }
                let before = Self::make(share(low), top, share(near));
                let after = Self::make(share(far), piece, share(right));
                proof {
                    assert(before.pieces() + seq![*pivot] + after.pieces() =~= low.pieces()
                        + seq![top] + inner.pieces() + seq![piece] + right.pieces());
                }
                Self::make(before, *pivot, after)
            },
        }
    }

    /// Joins a left subtree that is taller by more than one, a piece and a
    /// right subtree: descends the right spine of the left subtree to where
    /// the heights meet, joins there, and restores the balance on the way
    /// back. The result is as tall as the left subtree or one taller; where
    /// it is taller, its right side is the taller one.
    fn join_right(left: &Arc<PieceNode>, piece: Piece, right: &Arc<PieceNode>) -> (node: Arc<
        PieceNode,
    >)
        requires
            left.wf(),
            right.wf(),
            left.balanced(),
            right.balanced(),
            left.spec_height() > right.spec_height() + 1,
            piece.bytes >= 1,
            piece.line_feed_count <= piece.bytes,
            left.spec_bytes() + piece.bytes + right.spec_bytes() <= usize::MAX,
        ensures
            node.wf(),
            node.balanced(),
            node.pieces() == left.pieces() + seq![piece] + right.pieces(),
            node.spec_bytes() == left.spec_bytes() + piece.bytes + right.spec_bytes(),
            left.spec_height() <= node.spec_height() <= left.spec_height() + 1,
            node.spec_height() == left.spec_height() + 1 ==> node.right_heavy(),
        decreases left,
    {
        proof {
            left.lemma_totals();
            right.lemma_totals();
        }
        match &**left {
            PieceNode::Nil => vstd::pervasive::unreached(),
            PieceNode::Branch { left: low, piece: top, right: inner, .. } => {
                proof {
                    low.lemma_totals();
                    inner.lemma_totals();
                }
                if inner.height() > right.height() + 1 {
                    let joined = Self::join_right(inner, piece, right);
                    proof {
                        assert(low.pieces() + seq![*top] + joined.pieces() =~= left.pieces()
                            + seq![piece] + right.pieces());
                    }
                    Self::attach_right(low, *top, joined)
                } else if inner.height() <= low.height() {
                    let joined = Self::make(share(inner), piece, share(right));
                    proof {
                        assert(low.pieces() + seq![*top] + joined.pieces() =~= left.pieces()
                            + seq![piece] + right.pieces());
                    }
                    Self::make(share(low), *top, joined)
                } else {
                    Self::join_raised(low, *top, inner, piece, right)
                }
            },
        }
    }

    /// Joins a left subtree, a piece and a right subtree that is taller by
    /// more than one: the mirror image of `join_right`. The result is as
    /// tall as the right subtree or one taller; where it is taller, its left
    /// side is the taller one.
    fn join_left(left: &Arc<PieceNode>, piece: Piece, right: &Arc<PieceNode>) -> (node: Arc<
        PieceNode,
    >)
        requires
            left.wf(),
            right.wf(),
            left.balanced(),
            right.balanced(),
            right.spec_height() > left.spec_height() + 1,
            piece.bytes >= 1,
            piece.line_feed_count <= piece.bytes,
            left.spec_bytes() + piece.bytes + right.spec_bytes() <= usize::MAX,
        ensures
            node.wf(),
            node.balanced(),
            node.pieces() == left.pieces() + seq![piece] + right.pieces(),
            node.spec_bytes() == left.spec_bytes() + piece.bytes + right.spec_bytes(),
            right.spec_height() <= node.spec_height() <= right.spec_height() + 1,
            node.spec_height() == right.spec_height() + 1 ==> node.left_heavy(),
        decreases right,
    {
        proof {
            left.lemma_totals();
            right.lemma_totals();
        }
        match &**right {
            PieceNode::Nil => vstd::pervasive::unreached(),
            PieceNode::Branch { left: inner, piece: top, right: low, .. } => {
                proof {
                    low.lemma_totals();
                    inner.lemma_totals();
                }
                if inner.height() > left.height() + 1 {
                    let joined = Self::join_left(left, piece, inner);
                    proof {
                        assert(joined.pieces() + seq![*top] + low.pieces() =~= left.pieces()
                            + seq![piece] + right.pieces());
                    }
                    Self::attach_left(joined, *top, low)
                } else if inner.height() <= low.height() {
                    let joined = Self::make(share(left), piece, share(inner));
                    proof {
                        assert(joined.pieces() + seq![*top] + low.pieces() =~= left.pieces()
                            + seq![piece] + right.pieces());
                    }
                    Self::make(joined, *top, share(low))
                } else {
                    Self::join_raised(left, piece, inner, *top, low)
                }
            },
        }
    }

    /// Joins two balanced subtrees around a piece into one balanced
    /// subtree, which is at most one taller than the taller of the two.
    fn join(left: &Arc<PieceNode>, piece: Piece, right: &Arc<PieceNode>) -> (node: Arc<PieceNode>)
        requires
            left.wf(),
            right.wf(),
            left.balanced(),
            right.balanced(),
            piece.bytes >= 1,
            piece.line_feed_count <= piece.bytes,
            left.spec_bytes() + piece.bytes + right.spec_bytes() <= usize::MAX,
        ensures
            node.wf(),
            node.balanced(),
            node.pieces() == left.pieces() + seq![piece] + right.pieces(),
            node.spec_bytes() == left.spec_bytes() + piece.bytes + right.spec_bytes(),
            node.spec_height() <= 1 + left.spec_height() || node.spec_height() <= 1
                + right.spec_height(),
    {
        proof {
            left.lemma_totals();
            right.lemma_totals();
        }
        if left.height() > right.height() + 1 {
            Self::join_right(left, piece, right)
        } else if right.height() > left.height() + 1 {
            Self::join_left(left, piece, right)
        } else {
            Self::make(share(left), piece, share(right))
        }
    }

    /// Takes the last piece off a subtree that has one.
    fn split_last(node: &Arc<PieceNode>) -> (parts: (Arc<PieceNode>, Piece))
        requires
            node.balanced(),
            node.wf(),
            node.pieces().len() > 0,
        ensures
            parts.0.balanced(),
            parts.0.wf(),
            parts.0.pieces() == node.pieces().drop_last(),
            parts.1 == node.pieces().last(),
            parts.0.spec_bytes() + parts.1.bytes == node.spec_bytes(),
            parts.1.bytes >= 1,
            parts.1.line_feed_count <= parts.1.bytes,
        decreases node,
    {
        proof {
            reveal_with_fuel(PieceNode::wf, 2);
            reveal_with_fuel(PieceNode::pieces, 2);
            reveal_with_fuel(PieceNode::balanced, 2);
        }
        match &**node {
            PieceNode::Nil => vstd::pervasive::unreached(),
            PieceNode::Branch { left, piece, right, .. } => match &**right {
                PieceNode::Nil => {
                    proof {
                        assert(node.pieces() =~= left.pieces().push(*piece));
                        assert(node.pieces().drop_last() =~= left.pieces());
                    }
                    (share(left), *piece)
                },
                PieceNode::Branch { .. } => {
                    let (rest, last) = Self::split_last(right);
                    let joined = Self::join(left, *piece, &rest);
                    proof {
                        assert(joined.pieces() =~= node.pieces().drop_last());
                    }
                    (joined, last)
                },
            },
        }
    }

    /// The last piece of the subtree, if it has one.
    fn last_piece(node: &Arc<PieceNode>) -> (last: Option<Piece>)
        requires
            node.wf(),
        ensures
            last == if node.pieces().len() > 0 {
                Some(node.pieces().last())
            } else {
                None
            },
        decreases node,
    {
        proof {
            reveal_with_fuel(PieceNode::wf, 2);
            reveal_with_fuel(PieceNode::pieces, 2);
        }
        match &**node {
            PieceNode::Nil => None,
            PieceNode::Branch { left, piece, right, .. } => match &**right {
                PieceNode::Nil => {
                    proof {
                        assert(node.pieces() =~= left.pieces().push(*piece));
                    }
                    Some(*piece)
                },
                PieceNode::Branch { .. } => Self::last_piece(right),
            },
        }
    }

    /// Joins two subtrees with nothing between them.
    fn concat(left: &Arc<PieceNode>, right: &Arc<PieceNode>) -> (node: Arc<PieceNode>)
        requires
            left.balanced(),
            right.balanced(),
            left.wf(),
            right.wf(),
            left.spec_bytes() + right.spec_bytes() <= usize::MAX,
        ensures
            node.balanced(),
            node.wf(),
            node.pieces() == left.pieces() + right.pieces(),
            node.spec_bytes() == left.spec_bytes() + right.spec_bytes(),
    {
        match &**left {
            PieceNode::Nil => {
                proof {
                    assert(left.pieces() + right.pieces() =~= right.pieces());
                }
                share(right)
            },
            PieceNode::Branch { .. } => {
                let (rest, last) = Self::split_last(left);
                proof {
                    assert(rest.pieces() + seq![last] + right.pieces() =~= left.pieces()
                        + right.pieces());
                }
                Self::join(&rest, last, right)
            },
        }
    }
}

/// The piece that holds byte `n` of the document, with how far into the
/// piece that byte lies. `None` at and past the end of the document.
pub open spec fn piece_at(pieces: Seq<Piece>, n: int) -> Option<(Piece, int)>
    decreases pieces.len(),
{
    if pieces.len() == 0 || n < 0 {
        None
    } else if n < pieces[0].bytes {
        Some((pieces[0], n))
    } else {
        piece_at(pieces.drop_first(), n - pieces[0].bytes)
    }
}

/// The cursor at byte `n`: the start of the piece that holds the byte and
/// the distance into it, or the end of the document where no piece does.
pub open spec fn cursor_of(pieces: Seq<Piece>, n: int) -> Cursor {
    match piece_at(pieces, n) {
        Some((piece, within)) => Cursor {
            piece_start: (n - within) as usize,
            offset_in_piece: within as usize,
        },
        None => Cursor { piece_start: sum_bytes(pieces) as usize, offset_in_piece: 0 },
    }
}

/// A byte of two runs of pieces lies in the first run if that is long
/// enough, else in the second.
pub proof fn lemma_piece_at_concat(a: Seq<Piece>, b: Seq<Piece>, n: int)
    requires
        0 <= n,
    ensures
        piece_at(a + b, n) == if n < sum_bytes(a) {
            piece_at(a, n)
        } else {
            piece_at(b, n - sum_bytes(a))
        },
    decreases a.len(),
{
    if a.len() == 0 {
        assert(a + b =~= b);
    } else {
        assert((a + b).drop_first() =~= a.drop_first() + b);
        if n >= a[0].bytes {
            lemma_piece_at_concat(a.drop_first(), b, n - a[0].bytes);
        }
    }
}

/// The piece found at a byte has the byte inside it; past the end of the
/// document no piece is found.
pub proof fn lemma_piece_at_bounds(pieces: Seq<Piece>, n: int)
    requires
        0 <= n,
    ensures
        piece_at(pieces, n) matches Some((piece, within)) ==> 0 <= within < piece.bytes && within
            <= n,
        piece_at(pieces, n) is None <==> n >= sum_bytes(pieces),
    decreases pieces.len(),
{
    if pieces.len() > 0 && n >= pieces[0].bytes {
        lemma_piece_at_bounds(pieces.drop_first(), n - pieces[0].bytes);
    }
}

/// The parts of a run of valid pieces around one of its pieces are valid.
pub proof fn lemma_ok_parts(l: Seq<Piece>, k: Piece, r: Seq<Piece>, buffers: Seq<StringBuffer>)
    requires
        pieces_ok(l + seq![k] + r, buffers),
    ensures
        pieces_ok(l, buffers),
        piece_ok(k, buffers),
        pieces_ok(r, buffers),
        pieces_ok(seq![k], buffers),
        pieces_ok(l + seq![k], buffers),
{
    let all = l + seq![k] + r;
    assert forall|i: int| 0 <= i < l.len() implies piece_ok(#[trigger] l[i], buffers) by {
        assert(all[i] == l[i]);
    }
    assert(all[l.len() as int] == k);
    assert forall|i: int| 0 <= i < r.len() implies piece_ok(#[trigger] r[i], buffers) by {
        assert(all[l.len() + 1 + i] == r[i]);
    }
}

/// Taking and skipping in a run of pieces laid out around one of its
/// pieces: the cut falls in the part before the piece, inside the piece, or
/// in the part after it.
pub proof fn lemma_take_skip_around(
    l: Seq<Piece>,
    k: Piece,
    r: Seq<Piece>,
    n: int,
    buffers: Seq<StringBuffer>,
)
    requires
        pieces_ok(l + seq![k] + r, buffers),
        0 <= n,
    ensures
        n <= sum_bytes(l) ==> pieces_take(l + seq![k] + r, n, buffers) == pieces_take(
            l,
            n,
            buffers,
        ) && pieces_skip(l + seq![k] + r, n, buffers) == pieces_skip(l, n, buffers) + seq![k] + r,
        sum_bytes(l) < n < sum_bytes(l) + k.bytes ==> pieces_take(l + seq![k] + r, n, buffers)
            == l + seq![piece_head(k, n - sum_bytes(l), buffers)] && pieces_skip(
            l + seq![k] + r,
            n,
            buffers,
        ) == seq![piece_tail(k, n - sum_bytes(l), buffers)] + r,
        n >= sum_bytes(l) + k.bytes ==> pieces_take(l + seq![k] + r, n, buffers) == l + seq![k]
            + pieces_take(r, n - sum_bytes(l) - k.bytes, buffers) && pieces_skip(
            l + seq![k] + r,
            n,
            buffers,
        ) == pieces_skip(r, n - sum_bytes(l) - k.bytes, buffers),
{
    lemma_ok_parts(l, k, r, buffers);
    let one = seq![k];
    let lk = l + one;
    lemma_single(k, buffers);
    lemma_sums_concat(l, one);
    lemma_take_skip_concat(lk, r, n, buffers);
    lemma_take_skip_concat(l, one, n, buffers);
    let m = n - sum_bytes(l);
    assert(one.drop_first() =~= Seq::<Piece>::empty());
    assert(one[0] == k);
    if n <= sum_bytes(l) {
        if n == sum_bytes(l) {
            lemma_take_skip(l, n, buffers);
            assert(pieces_skip(one, 0, buffers) == one);
            assert(pieces_skip(l, n, buffers) + one =~= one);
        }
    } else if m < k.bytes {
        assert(pieces_take(one, m, buffers) =~= seq![piece_head(k, m, buffers)]);
        assert(pieces_skip(one, m, buffers) =~= seq![piece_tail(k, m, buffers)]);
    } else {
        assert(pieces_take(one.drop_first(), m - k.bytes, buffers) =~= Seq::<Piece>::empty());
        assert(pieces_take(one, m, buffers) =~= one);
        assert(pieces_skip(one.drop_first(), m - k.bytes, buffers) =~= Seq::<Piece>::empty());
        assert(pieces_skip(one, m, buffers) =~= Seq::<Piece>::empty());
        if n == sum_bytes(lk) {
            assert(pieces_take(r, 0, buffers) =~= Seq::<Piece>::empty());
            assert(lk + pieces_take(r, 0, buffers) =~= lk);
        }
    }
}

/// At the end of a piece nothing is cut: the pieces taken and the pieces
/// skipped are the pieces themselves, and the last piece taken is the piece
/// that ends there.
pub proof fn lemma_cut_at_piece_end(pieces: Seq<Piece>, n: int, buffers: Seq<StringBuffer>)
    requires
        pieces_ok(pieces, buffers),
        n >= 1,
        piece_at(pieces, n - 1) matches Some((piece, within)) && within + 1 == piece.bytes,
    ensures
        pieces_take(pieces, n, buffers) + pieces_skip(pieces, n, buffers) == pieces,
        pieces_take(pieces, n, buffers).len() > 0,
        piece_at(pieces, n - 1) matches Some((piece, within)) && pieces_take(
            pieces,
            n,
            buffers,
        ).last() == piece,
    decreases pieces.len(),
{
    let first = pieces[0];
    let rest = pieces.drop_first();
    lemma_ok_drop_first(pieces, buffers);
    if n - 1 < first.bytes {
        assert(pieces_take(rest, 0, buffers) =~= Seq::<Piece>::empty());
        assert(pieces_take(pieces, n, buffers) =~= seq![first]);
        assert(pieces_skip(rest, 0, buffers) =~= rest);
        assert(seq![first] + rest =~= pieces);
    } else {
        lemma_cut_at_piece_end(rest, n - first.bytes, buffers);
        let taken = pieces_take(rest, n - first.bytes, buffers);
        assert((seq![first] + taken) + pieces_skip(rest, n - first.bytes, buffers) =~= seq![first]
            + (taken + pieces_skip(rest, n - first.bytes, buffers)));
        assert(seq![first] + rest =~= pieces);
        assert((seq![first] + taken).last() == taken.last());
    }
}

/// Inserting a piece that continues the piece that ends at the insertion
/// point adds no piece: the piece before is extended.
pub proof fn lemma_insert_extends(
    pieces: Seq<Piece>,
    offset: int,
    piece: Piece,
    buffers: Seq<StringBuffer>,
)
    requires
        pieces_ok(pieces, buffers),
        offset >= 1,
        piece_at(pieces, offset - 1) matches Some((before, within)) && within + 1 == before.bytes
            && continues(before, piece),
    ensures
        pieces_insert(pieces, offset, piece, buffers).len() == pieces.len(),
{
    lemma_cut_at_piece_end(pieces, offset, buffers);
    let taken = pieces_take(pieces, offset, buffers);
    let skipped = pieces_skip(pieces, offset, buffers);
    assert(pieces.len() == taken.len() + skipped.len()) by {
        assert((taken + skipped).len() == taken.len() + skipped.len());
    }
}

/// Inserting a valid piece into valid pieces gives valid pieces that stand
/// for the document with the piece's window spliced in.
pub proof fn lemma_insert_content(
    pieces: Seq<Piece>,
    offset: int,
    piece: Piece,
    buffers: Seq<StringBuffer>,
)
    requires
        pieces_ok(pieces, buffers),
        piece_ok(piece, buffers),
        0 <= offset <= sum_bytes(pieces),
    ensures
        pieces_ok(pieces_insert(pieces, offset, piece, buffers), buffers),
        content(pieces_insert(pieces, offset, piece, buffers), buffers) == content(
            pieces,
            buffers,
        ).subrange(0, offset) + window(piece, buffers) + content(pieces, buffers).subrange(
            offset,
            content(pieces, buffers).len() as int,
        ),
        sum_bytes(pieces_insert(pieces, offset, piece, buffers)) == sum_bytes(pieces)
            + piece.bytes,
{
    lemma_take_skip(pieces, offset, buffers);
    let taken = pieces_take(pieces, offset, buffers);
    let skipped = pieces_skip(pieces, offset, buffers);
    lemma_append(taken, piece, buffers);
    lemma_content_concat(pieces_append(taken, piece), skipped, buffers);
    lemma_sums_concat(pieces_append(taken, piece), skipped);
    lemma_ok_concat(pieces_append(taken, piece), skipped, buffers);
}

/// Deleting from valid pieces gives valid pieces that stand for the
/// document without the deleted bytes.
pub proof fn lemma_delete_content(
    pieces: Seq<Piece>,
    offset: int,
    len: int,
    buffers: Seq<StringBuffer>,
)
    requires
        pieces_ok(pieces, buffers),
        0 <= offset,
        0 <= len,
        offset + len <= sum_bytes(pieces),
    ensures
        pieces_ok(pieces_delete(pieces, offset, len, buffers), buffers),
        content(pieces_delete(pieces, offset, len, buffers), buffers) == content(
            pieces,
            buffers,
        ).subrange(0, offset) + content(pieces, buffers).subrange(
            offset + len,
            content(pieces, buffers).len() as int,
        ),
        sum_bytes(pieces_delete(pieces, offset, len, buffers)) == sum_bytes(pieces) - len,
{
    lemma_take_skip(pieces, offset, buffers);
    lemma_take_skip(pieces, offset + len, buffers);
    let taken = pieces_take(pieces, offset, buffers);
    let skipped = pieces_skip(pieces, offset + len, buffers);
    lemma_content_concat(taken, skipped, buffers);
    lemma_sums_concat(taken, skipped);
    lemma_ok_concat(taken, skipped, buffers);
}

/// The first `n` bytes of three texts in a row, by where `n` falls.
pub proof fn lemma_prefix_around(a: Seq<u8>, w: Seq<u8>, b: Seq<u8>, n: int)
    requires
        0 <= n <= a.len() + w.len() + b.len(),
    ensures
        n <= a.len() ==> (a + w + b).subrange(0, n) == a.subrange(0, n),
        a.len() <= n <= a.len() + w.len() ==> (a + w + b).subrange(0, n) == a + w.subrange(
            0,
            n - a.len(),
        ),
        n >= a.len() + w.len() ==> (a + w + b).subrange(0, n) == a + w + b.subrange(
            0,
            n - a.len() - w.len(),
        ),
{
    if n <= a.len() {
        assert((a + w + b).subrange(0, n) =~= a.subrange(0, n));
    }
    if a.len() <= n <= a.len() + w.len() {
        assert((a + w + b).subrange(0, n) =~= a + w.subrange(0, n - a.len()));
    }
    if n >= a.len() + w.len() {
        assert((a + w + b).subrange(0, n) =~= a + w + b.subrange(0, n - a.len() - w.len()));
    }
}

impl PieceNode {
    /// The document of a branch is the documents of its left subtree, its
    /// piece and its right subtree in a row, and each part is valid.
    proof fn lemma_branch_content(&self, buffers: Seq<StringBuffer>)
        requires
            self.wf(),
            self is Branch,
            pieces_ok(self.pieces(), buffers),
        ensures
            pieces_ok(self->left.pieces(), buffers),
            piece_ok(self->piece, buffers),
            pieces_ok(self->right.pieces(), buffers),
            content(self.pieces(), buffers) == content(self->left.pieces(), buffers) + window(
                self->piece,
                buffers,
            ) + content(self->right.pieces(), buffers),
            content(self->left.pieces(), buffers).len() == self->left.spec_bytes(),
            content(self->right.pieces(), buffers).len() == self->right.spec_bytes(),
            count_lf(content(self->left.pieces(), buffers)) == self->left.spec_line_feeds(),
            count_lf(content(self->right.pieces(), buffers)) == self->right.spec_line_feeds(),
            sum_bytes(self->left.pieces()) == self->left.spec_bytes(),
            sum_bytes(self->right.pieces()) == self->right.spec_bytes(),
            self.spec_bytes() == sum_bytes(self.pieces()),
    {
        let l = self->left.pieces();
        let k = self->piece;
        let r = self->right.pieces();
        lemma_ok_parts(l, k, r, buffers);
        lemma_single(k, buffers);
        lemma_content_concat(l, seq![k], buffers);
        lemma_content_concat(l + seq![k], r, buffers);
        lemma_content_sums(l, buffers);
        lemma_content_sums(r, buffers);
        self->left.lemma_totals();
        self->right.lemma_totals();
        self.lemma_totals();
    }

    /// Splits the subtree at byte `offset`, cutting the piece that the
    /// offset falls inside in two.
    fn split(node: &Arc<PieceNode>, offset: usize, buffers: &Vec<StringBuffer>) -> (parts: (
        Arc<PieceNode>,
        Arc<PieceNode>,
    ))
        requires
            node.balanced(),
            node.wf(),
            pieces_ok(node.pieces(), buffers@),
            offset <= node.spec_bytes(),
        ensures
            parts.0.balanced(),
            parts.1.balanced(),
            parts.0.wf(),
            parts.1.wf(),
            parts.0.pieces() == pieces_take(node.pieces(), offset as int, buffers@),
            parts.1.pieces() == pieces_skip(node.pieces(), offset as int, buffers@),
            parts.0.spec_bytes() == offset,
            parts.1.spec_bytes() == node.spec_bytes() - offset,
        decreases node,
    {
        match &**node {
            PieceNode::Nil => (Self::nil(), Self::nil()),
            PieceNode::Branch { left, piece, right, .. } => {
                proof {
                    node.lemma_branch_content(buffers@);
                    lemma_take_skip_around(
                        left.pieces(),
                        *piece,
                        right.pieces(),
                        offset as int,
                        buffers@,
                    );
                }
                let left_bytes = left.bytes();
                if offset <= left_bytes {
                    let (before, after) = Self::split(left, offset, buffers);
                    (before, Self::join(&after, *piece, right))
                } else if offset - left_bytes < piece.bytes {
                    let cut = offset - left_bytes;
                    let data = buffers[piece.location.buffer_id()].data.as_slice();
                    let head_feeds = count_line_feeds(data, piece.offset, piece.offset + cut);
                    proof {
                        lemma_piece_cut(*piece, cut as int, buffers@);
                        assert(data@.subrange(piece.offset as int, piece.offset + cut) =~= window(
                            *piece,
                            buffers@,
                        ).subrange(0, cut as int));
                        crate::line_index::lemma_count_lf_bound(
                            window(piece_head(*piece, cut as int, buffers@), buffers@),
                        );
                        crate::line_index::lemma_count_lf_bound(
                            window(piece_tail(*piece, cut as int, buffers@), buffers@),
                        );
                    }
                    let head = Piece {
                        location: piece.location,
                        offset: piece.offset,
                        bytes: cut,
                        line_feed_count: head_feeds,
                    };
                    let tail = Piece {
                        location: piece.location,
                        offset: piece.offset + cut,
                        bytes: piece.bytes - cut,
                        line_feed_count: piece.line_feed_count - head_feeds,
                    };
                    let none = Self::nil();
                    let before = Self::join(left, head, &none);
                    let after = Self::join(&none, tail, right);
                    proof {
                        assert(before.pieces() =~= left.pieces() + seq![head]);
                        assert(after.pieces() =~= seq![tail] + right.pieces());
                    }
                    (before, after)
                } else {
                    let (before, after) = Self::split(
                        right,
                        offset - left_bytes - piece.bytes,
                        buffers,
                    );
                    (Self::join(left, *piece, &before), after)
                }
            },
        }
    }

    /// Finds the piece that holds byte `offset`.
    fn find(node: &Arc<PieceNode>, offset: usize) -> (found: Option<(Piece, usize)>)
        requires
            node.wf(),
        ensures
            match found {
                Some((piece, within)) => piece_at(node.pieces(), offset as int) == Some(
                    (piece, within as int),
                ),
                None => piece_at(node.pieces(), offset as int) is None,
            },
        decreases node,
    {
        match &**node {
            PieceNode::Nil => None,
            PieceNode::Branch { left, piece, right, .. } => {
                proof {
                    left.lemma_totals();
                    right.lemma_totals();
                    let one = seq![*piece];
                    lemma_single(*piece, Seq::empty());
                    lemma_sums_concat(left.pieces(), one);
                    lemma_piece_at_concat(left.pieces() + one, right.pieces(), offset as int);
                    lemma_piece_at_concat(left.pieces(), one, offset as int);
                    assert(one.drop_first() =~= Seq::<Piece>::empty());
                    assert(one[0] == *piece);
                    assert(piece_at(one.drop_first(), offset - left.spec_bytes() - piece.bytes)
                        is None);
                }
                let left_bytes = left.bytes();
                if offset < left_bytes {
                    Self::find(left, offset)
                } else if offset - left_bytes < piece.bytes {
                    Some((*piece, offset - left_bytes))
                } else {
                    Self::find(right, offset - left_bytes - piece.bytes)
                }
            },
        }
    }

    /// Counts the line feeds in the first `offset` bytes of the subtree.
    fn line_feeds_before(node: &Arc<PieceNode>, offset: usize, buffers: &Vec<StringBuffer>) -> (count:
        usize)
        requires
            node.wf(),
            pieces_ok(node.pieces(), buffers@),
            offset <= node.spec_bytes(),
        ensures
            count == count_lf(content(node.pieces(), buffers@).subrange(0, offset as int)),
            count <= node.spec_line_feeds(),
        decreases node,
    {
        match &**node {
            PieceNode::Nil => {
                proof {
                    assert(content(node.pieces(), buffers@).subrange(0, offset as int)
                        =~= Seq::<u8>::empty());
                }
                0
            },
            PieceNode::Branch { left, piece, right, .. } => {
                let ghost a = content(left.pieces(), buffers@);
                let ghost w = window(*piece, buffers@);
                let ghost b = content(right.pieces(), buffers@);
                proof {
                    node.lemma_branch_content(buffers@);
                    lemma_prefix_around(a, w, b, offset as int);
                }
                let left_bytes = left.bytes();
                if offset <= left_bytes {
                    Self::line_feeds_before(left, offset, buffers)
                } else if offset - left_bytes < piece.bytes {
                    let cut = offset - left_bytes;
                    let data = buffers[piece.location.buffer_id()].data.as_slice();
                    let inside = count_line_feeds(data, piece.offset, piece.offset + cut);
                    proof {
                        assert(data@.subrange(piece.offset as int, piece.offset + cut)
                            =~= w.subrange(0, cut as int));
                        crate::line_index::lemma_count_lf_concat(a, w.subrange(0, cut as int));
                        crate::line_index::lemma_count_lf_split(w, cut as int);
                    }
                    left.line_feeds() + inside
                } else {
                    let rest = Self::line_feeds_before(
                        right,
                        offset - left_bytes - piece.bytes,
                        buffers,
                    );
                    proof {
                        let tail = b.subrange(0, offset - left_bytes - piece.bytes);
                        crate::line_index::lemma_count_lf_concat(a, w);
                        crate::line_index::lemma_count_lf_concat(a + w, tail);
                    }
                    left.line_feeds() + piece.line_feed_count + rest
                }
            },
        }
    }

    /// Finds the offset at which line `line` of the subtree starts, for a
    /// line beyond the first that the subtree has.
    fn line_start_offset(node: &Arc<PieceNode>, line: usize, buffers: &Vec<StringBuffer>) -> (start:
        usize)
        requires
            node.wf(),
            pieces_ok(node.pieces(), buffers@),
            1 <= line <= node.spec_line_feeds(),
        ensures
            start == line_start(content(node.pieces(), buffers@), line as nat),
            start <= node.spec_bytes(),
        decreases node,
    {
        match &**node {
            PieceNode::Nil => 0,
            PieceNode::Branch { left, piece, right, .. } => {
                let ghost a = content(left.pieces(), buffers@);
                let ghost w = window(*piece, buffers@);
                let ghost b = content(right.pieces(), buffers@);
                proof {
                    node.lemma_branch_content(buffers@);
                    crate::line_index::lemma_line_start_concat(a + w, b, line as nat);
                    crate::line_index::lemma_line_start_concat(a, w, line as nat);
                    crate::line_index::lemma_count_lf_concat(a, w);
                }
                let left_feeds = left.line_feeds();
                if line <= left_feeds {
                    Self::line_start_offset(left, line, buffers)
                } else if line - left_feeds <= piece.line_feed_count {
                    let data = buffers[piece.location.buffer_id()].data.as_slice();
                    let inside = find_line_start(
                        data,
                        piece.offset,
                        piece.offset + piece.bytes,
                        line - left_feeds,
                    );
                    left.bytes() + inside
                } else {
                    let rest = Self::line_start_offset(
                        right,
                        line - left_feeds - piece.line_feed_count,
                        buffers,
                    );
                    left.bytes() + piece.bytes + rest
                }
            },
        }
    }

    /// Counts the pieces of the subtree.
    fn count(node: &Arc<PieceNode>) -> (count: usize)
        requires
            node.wf(),
        ensures
            count == node.pieces().len(),
            count <= node.spec_bytes(),
        decreases node,
    {
        match &**node {
            PieceNode::Nil => 0,
            PieceNode::Branch { left, piece, right, .. } => {
                let before = Self::count(left);
                let after = Self::count(right);
                before + 1 + after
            },
        }
    }
}

/// The piece found at a byte of valid pieces is valid, lies within the
/// document, and its window is the document's bytes at the piece's place.
pub proof fn lemma_piece_at_content(pieces: Seq<Piece>, n: int, buffers: Seq<StringBuffer>)
    requires
        pieces_ok(pieces, buffers),
        0 <= n,
        piece_at(pieces, n) is Some,
    ensures
        ({
            let (piece, within) = piece_at(pieces, n)->0;
            &&& piece_ok(piece, buffers)
            &&& 0 <= within < piece.bytes
            &&& within <= n
            &&& n - within + piece.bytes <= content(pieces, buffers).len()
            &&& content(pieces, buffers).subrange(n - within, n - within + piece.bytes) == window(
                piece,
                buffers,
            )
        }),
    decreases pieces.len(),
{
    lemma_content_sums(pieces, buffers);
    let first = pieces[0];
    let rest = pieces.drop_first();
    lemma_ok_drop_first(pieces, buffers);
    lemma_content_sums(rest, buffers);
    let all = content(pieces, buffers);
    if n < first.bytes {
        assert(all.subrange(0, first.bytes as int) =~= window(first, buffers));
    } else {
        lemma_piece_at_content(rest, n - first.bytes, buffers);
        let (piece, within) = piece_at(rest, n - first.bytes)->0;
        let from = n - first.bytes - within;
        assert(all.subrange(n - within, n - within + piece.bytes) =~= content(
            rest,
            buffers,
        ).subrange(from, from + piece.bytes));
    }
}

/// What a lookup reports of a piece and a distance into it.
pub open spec fn info_of(piece: Piece, within: int) -> PieceInfo {
    PieceInfo {
        location: piece.location,
        offset: piece.offset,
        bytes: piece.bytes,
        offset_in_piece: Some(within as usize),
    }
}

/// The smaller of `offset` and `total`.
pub open spec fn clamp_to(offset: int, total: int) -> int {
    if offset < total {
        offset
    } else {
        total
    }
}

/// An ordered sequence of pieces with its byte and line-feed totals.
#[derive(Debug)]
pub struct PieceTree {
    root: Arc<PieceNode>,
}

impl PieceTree {
    /// The pieces in document order.
    pub closed spec fn pieces(&self) -> Seq<Piece> {
        self.root.pieces()
    }

    /// The document the tree stands for, over the given arenas.
    pub open spec fn text(&self, buffers: Seq<StringBuffer>) -> Seq<u8> {
        content(self.pieces(), buffers)
    }

    /// The cached totals are right, the tree is balanced, and the document
    /// is shorter than the largest `usize`.
    pub closed spec fn sound(&self) -> bool {
        &&& self.root.wf()
        &&& self.root.balanced()
        &&& self.root.spec_bytes() < usize::MAX
    }

    /// The number of levels of the tree.
    pub closed spec fn depth(&self) -> nat {
        self.root.spec_height()
    }

    /// The tree is balanced: it has at least the fewest pieces that a
    /// balanced tree of its depth can have.
    pub proof fn lemma_depth(&self)
        requires
            self.sound(),
        ensures
            fewest_pieces(self.depth()) <= self.pieces().len(),
    {
        self.root.lemma_depth();
    }

    /// The tree is sound and every piece is valid for the given arenas.
    pub open spec fn wf(&self, buffers: Seq<StringBuffer>) -> bool {
        &&& self.sound()
        &&& pieces_ok(self.pieces(), buffers)
    }

    /// What well-formedness gives about the pieces and the document.
    pub proof fn lemma_wf(&self, buffers: Seq<StringBuffer>)
        requires
            self.wf(buffers),
        ensures
            self.text(buffers).len() == sum_bytes(self.pieces()),
            count_lf(self.text(buffers)) == sum_line_feeds(self.pieces()),
            sum_bytes(self.pieces()) < usize::MAX,
            self.pieces().len() <= sum_bytes(self.pieces()),
    {
        self.root.lemma_totals();
        lemma_content_sums(self.pieces(), buffers);
    }

    /// A well-formed tree stays well formed, and stands for the same
    /// document, when arenas grow.
    pub proof fn lemma_wf_grown(&self, before: Seq<StringBuffer>, after: Seq<StringBuffer>)
        requires
            self.wf(before),
            arenas_grown(before, after),
        ensures
            self.wf(after),
            self.text(after) == self.text(before),
    {
        lemma_grown(self.pieces(), before, after);
    }

    /// A tree of one piece, or of none if `bytes` is zero.
    pub fn new(location: BufferLocation, offset: usize, bytes: usize, line_feed_cnt: usize) -> (tree:
        PieceTree)
        requires
            bytes < usize::MAX,
            line_feed_cnt <= bytes,
        ensures
            tree.sound(),
            tree.pieces() == if bytes == 0 {
                Seq::<Piece>::empty()
            } else {
                seq![Piece { location, offset, bytes, line_feed_count: line_feed_cnt }]
            },
    {
        if bytes == 0 {
            return PieceTree { root: PieceNode::nil() };
        }
        let piece = Piece { location, offset, bytes, line_feed_count: line_feed_cnt };
        let none = PieceNode::nil();
        let root = PieceNode::make(share(&none), piece, none);
        proof {
            assert(root.pieces() =~= seq![piece]);
        }
        PieceTree { root }
    }

    /// A tree of no pieces.
    pub fn empty() -> (tree: PieceTree)
        ensures
            tree.sound(),
            tree.pieces() == Seq::<Piece>::empty(),
    {
        PieceTree { root: PieceNode::nil() }
    }

    /// The length of the document in bytes.
    pub fn total_bytes(&self) -> (total: usize)
        requires
            self.sound(),
        ensures
            total == sum_bytes(self.pieces()),
            total < usize::MAX,
    {
        proof {
            self.root.lemma_totals();
        }
        self.root.bytes()
    }

    /// The number of lines: one more than the line feeds of the document.
    pub fn line_count(&self) -> (lines: usize)
        requires
            self.sound(),
        ensures
            lines == sum_line_feeds(self.pieces()) + 1,
    {
        proof {
            self.root.lemma_totals();
        }
        self.root.line_feeds() + 1
    }

    /// The piece that holds byte `offset`, with how far into the piece the
    /// byte lies, or `None` at and past the end of the document.
    pub fn find_by_offset(&self, offset: usize) -> (found: Option<PieceInfo>)
        requires
            self.sound(),
        ensures
            found == match piece_at(self.pieces(), offset as int) {
                Some((piece, within)) => Some(info_of(piece, within)),
                None => None,
            },
            found is Some <==> offset < sum_bytes(self.pieces()),
    {
        proof {
            lemma_piece_at_bounds(self.pieces(), offset as int);
        }
        match PieceNode::find(&self.root, offset) {
            Some((piece, within)) => Some(
                PieceInfo {
                    location: piece.location,
                    offset: piece.offset,
                    bytes: piece.bytes,
                    offset_in_piece: Some(within),
                },
            ),
            None => None,
        }
    }

    /// The cursor at byte `offset`, the offset clamped to the document.
    pub fn cursor_at_offset(&self, offset: usize) -> (cursor: Cursor)
        requires
            self.sound(),
        ensures
            cursor == cursor_of(self.pieces(), offset as int),
            cursor.piece_start + cursor.offset_in_piece == clamp_to(
                offset as int,
                sum_bytes(self.pieces()) as int,
            ),
    {
        proof {
            self.root.lemma_totals();
            lemma_piece_at_bounds(self.pieces(), offset as int);
        }
        match PieceNode::find(&self.root, offset) {
            Some((_, within)) => Cursor { piece_start: offset - within, offset_in_piece: within },
            None => Cursor { piece_start: self.root.bytes(), offset_in_piece: 0 },
        }
    }

    /// Inserts a piece at byte `offset`, the offset clamped to the document.
    /// The piece that the offset falls inside is cut in two. A piece that
    /// continues the one before it in the same arena extends that one.
    /// Returns the cursor at the insertion point.
    pub fn insert(
        &mut self,
        offset: usize,
        location: BufferLocation,
        buffer_offset: usize,
        bytes: usize,
        line_feed_cnt: usize,
        buffers: &Vec<StringBuffer>,
    ) -> (cursor: Cursor)
        requires
            old(self).wf(buffers@),
            piece_ok(
                Piece { location, offset: buffer_offset, bytes, line_feed_count: line_feed_cnt },
                buffers@,
            ),
            old(self).text(buffers@).len() + bytes < usize::MAX,
        ensures
            final(self).wf(buffers@),
            final(self).pieces() == pieces_insert(
                old(self).pieces(),
                clamp_to(offset as int, old(self).text(buffers@).len() as int),
                Piece { location, offset: buffer_offset, bytes, line_feed_count: line_feed_cnt },
                buffers@,
            ),
            cursor == cursor_of(
                final(self).pieces(),
                clamp_to(offset as int, old(self).text(buffers@).len() as int),
            ),
            cursor.piece_start + cursor.offset_in_piece == clamp_to(
                offset as int,
                old(self).text(buffers@).len() as int,
            ),
    {
        let piece = Piece { location, offset: buffer_offset, bytes, line_feed_count: line_feed_cnt };
        proof {
            self.lemma_wf(buffers@);
            self.root.lemma_totals();
            crate::line_index::lemma_count_lf_bound(window(piece, buffers@));
        }
        let total = self.root.bytes();
        let at = if offset < total {
            offset
        } else {
            total
        };
        proof {
            lemma_insert_content(self.pieces(), at as int, piece, buffers@);
            lemma_take_skip(self.pieces(), at as int, buffers@);
        }
        let (before, after) = PieceNode::split(&self.root, at, buffers);
        let root = match PieceNode::last_piece(&before) {
            Some(last) if last.location == piece.location && last.offset + last.bytes
                == piece.offset => {
                let (rest, _) = PieceNode::split_last(&before);
                let joined = Piece {
                    location: last.location,
                    offset: last.offset,
                    bytes: last.bytes + piece.bytes,
                    line_feed_count: last.line_feed_count + piece.line_feed_count,
                };
                proof {
                    assert(rest.pieces() + seq![joined] =~= pieces_append(before.pieces(), piece));
                }
                PieceNode::join(&rest, joined, &after)
            },
            _ => {
                proof {
                    assert(before.pieces() + seq![piece] =~= pieces_append(before.pieces(), piece));
                }
                PieceNode::join(&before, piece, &after)
            },
        };
        self.root = root;
        proof {
            self.root.lemma_totals();
        }
        self.cursor_at_offset(at)
    }

    /// Deletes `bytes` bytes at byte `offset`, the range clamped to the
    /// document. Pieces that lie inside the range go; the pieces at its two
    /// ends are trimmed.
    pub fn delete(&mut self, offset: usize, bytes: usize, buffers: &Vec<StringBuffer>)
        requires
            old(self).wf(buffers@),
        ensures
            final(self).wf(buffers@),
            final(self).pieces() == pieces_delete(
                old(self).pieces(),
                clamp_to(offset as int, old(self).text(buffers@).len() as int),
                clamp_to(
                    bytes as int,
                    old(self).text(buffers@).len() - clamp_to(
                        offset as int,
                        old(self).text(buffers@).len() as int,
                    ),
                ),
                buffers@,
            ),
    {
        proof {
            self.lemma_wf(buffers@);
            self.root.lemma_totals();
        }
        let total = self.root.bytes();
        let start = if offset < total {
            offset
        } else {
            total
        };
        let len = if bytes < total - start {
            bytes
        } else {
            total - start
        };
        proof {
            lemma_delete_content(self.pieces(), start as int, len as int, buffers@);
        }
        let (before, _) = PieceNode::split(&self.root, start, buffers);
        let (_, after) = PieceNode::split(&self.root, start + len, buffers);
        self.root = PieceNode::concat(&before, &after);
        proof {
            self.root.lemma_totals();
        }
    }

    /// The (line, column) of byte `offset`, the offset clamped to the document.
    pub fn offset_to_position(&self, offset: usize, buffers: &Vec<StringBuffer>) -> (position: (
        usize,
        usize,
    ))
        requires
            self.wf(buffers@),
        ensures
            position.0 == crate::line_index::position_of(self.text(buffers@), offset as int).0,
            position.1 == crate::line_index::position_of(self.text(buffers@), offset as int).1,
    {
        proof {
            self.lemma_wf(buffers@);
            self.root.lemma_totals();
        }
        let total = self.root.bytes();
        let at = if offset < total {
            offset
        } else {
            total
        };
        let ghost text = self.text(buffers@);
        proof {
            assert(crate::line_index::prefix(text, offset as int) =~= text.subrange(0, at as int));
            crate::line_index::lemma_line_of_offset(text, at as int);
        }
        let line = PieceNode::line_feeds_before(&self.root, at, buffers);
        let start = if line == 0 {
            0
        } else {
            PieceNode::line_start_offset(&self.root, line, buffers)
        };
        (line, at - start)
    }

    /// The byte offset of a (line, column) position, clamped to the document.
    pub fn position_to_offset(&self, line: usize, column: usize, buffers: &Vec<StringBuffer>) -> (offset:
        usize)
        requires
            self.wf(buffers@),
        ensures
            offset == crate::line_index::offset_of(
                self.text(buffers@),
                line as nat,
                column as nat,
            ),
            offset <= self.text(buffers@).len(),
    {
        proof {
            self.lemma_wf(buffers@);
            self.root.lemma_totals();
        }
        let total = self.root.bytes();
        if line > self.root.line_feeds() {
            return total;
        }
        let start = if line == 0 {
            0
        } else {
            PieceNode::line_start_offset(&self.root, line, buffers)
        };
        if column < total - start {
            start + column
        } else {
            total
        }
    }

    /// The byte range of line `line`: its start, and the start of the next
    /// line if there is one. `None` for a line the document does not have.
    pub fn line_range(&self, line: usize, buffers: &Vec<StringBuffer>) -> (range: Option<
        (usize, Option<usize>),
    >)
        requires
            self.wf(buffers@),
        ensures
            match range {
                Some((start, end)) => crate::line_index::line_span(
                    self.text(buffers@),
                    line as nat,
                ) matches Some((s, e)) && start == s && match end {
                    Some(next) => e == Some(next as int),
                    None => e is None,
                },
                None => crate::line_index::line_span(self.text(buffers@), line as nat) is None,
            },
    {
        proof {
            self.lemma_wf(buffers@);
            self.root.lemma_totals();
        }
        let feeds = self.root.line_feeds();
        if line > feeds {
            return None;
        }
        let start = if line == 0 {
            0
        } else {
            PieceNode::line_start_offset(&self.root, line, buffers)
        };
        if line < feeds {
            Some((start, Some(PieceNode::line_start_offset(&self.root, line + 1, buffers))))
        } else {
            Some((start, None))
        }
    }

    /// Figures about the tree: its totals, the number of its pieces and its depth.
    pub fn stats(&self) -> (stats: TreeStats)
        requires
            self.sound(),
        ensures
            stats.total_bytes == sum_bytes(self.pieces()),
            stats.line_feed_count == sum_line_feeds(self.pieces()),
            stats.piece_count == self.pieces().len(),
            stats.depth == self.depth(),
    {
        proof {
            self.root.lemma_totals();
        }
        TreeStats {
            total_bytes: self.root.bytes(),
            line_feed_count: self.root.line_feeds(),
            piece_count: PieceNode::count(&self.root),
            depth: self.root.height(),
        }
    }
}

} // verus!
