//! The content of a chunk tree: a sequence of cells, each a stored byte or
//! a gap cell, and what splicing, removing and collecting do to it.

use vstd::prelude::*;

verus! {

/// The cells of a run of stored bytes.
pub open spec fn data_cells(bytes: Seq<u8>) -> Seq<Option<u8>> {
    Seq::new(bytes.len(), |i: int| Some(bytes[i]))
}

/// The cells of a gap of `size` positions.
pub open spec fn gap_cells(size: nat) -> Seq<Option<u8>> {
    Seq::new(size, |i: int| None::<u8>)
}

/// The bytes that `cells` collect to when every gap cell is filled with `gap_value`.
pub open spec fn fill(cells: Seq<Option<u8>>, gap_value: u8) -> Seq<u8> {
    Seq::new(
        cells.len(),
        |i: int|
            match cells[i] {
                Some(b) => b,
                None => gap_value,
            },
    )
}

/// `cells` with `inserted` spliced in at `index`. Past the end, the distance
/// between the old end and `index` becomes gap cells.
pub open spec fn spliced(cells: Seq<Option<u8>>, index: int, inserted: Seq<Option<u8>>) -> Seq<
    Option<u8>,
> {
    if index <= cells.len() {
        cells.subrange(0, index) + inserted + cells.subrange(index, cells.len() as int)
    } else {
        cells + gap_cells((index - cells.len()) as nat) + inserted
    }
}

/// `cells` without the positions `start..end`, the range clamped to the sequence.
pub open spec fn removed(cells: Seq<Option<u8>>, start: int, end: int) -> Seq<Option<u8>> {
    let s = if start < cells.len() {
        start
    } else {
        cells.len() as int
    };
    let e = if end < s {
        s
    } else if end < cells.len() {
        end
    } else {
        cells.len() as int
    };
    cells.subrange(0, s) + cells.subrange(e, cells.len() as int)
}

/// Filling distributes over concatenation.
pub proof fn lemma_fill_concat(a: Seq<Option<u8>>, b: Seq<Option<u8>>, gap_value: u8)
    ensures
        fill(a + b, gap_value) == fill(a, gap_value) + fill(b, gap_value),
{
    assert(fill(a + b, gap_value) =~= fill(a, gap_value) + fill(b, gap_value));
}

/// Removing from a concatenation removes from each part, the range shifted
/// into the second part's coordinates.
pub proof fn lemma_removed_concat(a: Seq<Option<u8>>, b: Seq<Option<u8>>, start: int, end: int)
    requires
        0 <= start <= end,
    ensures
        removed(a + b, start, end) == removed(a, start, end) + removed(
            b,
            shifted_left(start, a.len() as int),
            shifted_left(end, a.len() as int),
        ),
{
    assert(removed(a + b, start, end) =~= removed(a, start, end) + removed(
        b,
        shifted_left(start, a.len() as int),
        shifted_left(end, a.len() as int),
    ));
}

/// The cells of a run of bytes are those of its two halves in a row.
pub proof fn lemma_data_cells_split(bytes: Seq<u8>, index: int)
    requires
        0 <= index <= bytes.len(),
    ensures
        data_cells(bytes) == data_cells(bytes.subrange(0, index)) + data_cells(
            bytes.subrange(index, bytes.len() as int),
        ),
{
    assert(data_cells(bytes) =~= data_cells(bytes.subrange(0, index)) + data_cells(
        bytes.subrange(index, bytes.len() as int),
    ));
}

/// Splicing at the seam of two parts puts the insertion between them.
pub proof fn lemma_spliced_seam(a: Seq<Option<u8>>, b: Seq<Option<u8>>, inserted: Seq<Option<u8>>)
    ensures
        spliced(a + b, a.len() as int, inserted) == a + inserted + b,
{
    assert(spliced(a + b, a.len() as int, inserted) =~= a + inserted + b);
}

/// Splicing within the first of two parts leaves the second alone.
pub proof fn lemma_spliced_first(
    a: Seq<Option<u8>>,
    b: Seq<Option<u8>>,
    index: int,
    inserted: Seq<Option<u8>>,
)
    requires
        0 <= index <= a.len(),
    ensures
        spliced(a + b, index, inserted) == spliced(a, index, inserted) + b,
{
    assert(spliced(a + b, index, inserted) =~= spliced(a, index, inserted) + b);
}

/// Splicing within the second of two parts leaves the first alone.
pub proof fn lemma_spliced_second(
    a: Seq<Option<u8>>,
    b: Seq<Option<u8>>,
    index: int,
    inserted: Seq<Option<u8>>,
)
    requires
        a.len() <= index <= a.len() + b.len(),
    ensures
        spliced(a + b, index, inserted) == a + spliced(b, index - a.len(), inserted),
{
    assert(spliced(a + b, index, inserted) =~= a + spliced(b, index - a.len(), inserted));
}

/// Removing a range from a run of bytes keeps the bytes before and after it.
pub proof fn lemma_removed_data(bytes: Seq<u8>, start: int, end: int)
    requires
        0 <= start <= end <= bytes.len(),
    ensures
        removed(data_cells(bytes), start, end) == data_cells(bytes.subrange(0, start))
            + gap_cells(0) + data_cells(bytes.subrange(end, bytes.len() as int)),
{
    assert(removed(data_cells(bytes), start, end) =~= data_cells(bytes.subrange(0, start))
        + gap_cells(0) + data_cells(bytes.subrange(end, bytes.len() as int)));
}

/// Removing a range from a gap shrinks the gap by the range's length.
pub proof fn lemma_removed_gap(size: nat, start: int, end: int)
    requires
        0 <= start <= end <= size,
    ensures
        removed(gap_cells(size), start, end) == gap_cells((size - (end - start)) as nat),
{
    assert(removed(gap_cells(size), start, end) =~= gap_cells((size - (end - start)) as nat));
}

/// Splicing into a gap splits the gap around the insertion.
pub proof fn lemma_spliced_gap(size: nat, index: int, inserted: Seq<Option<u8>>)
    requires
        0 <= index <= size,
    ensures
        spliced(gap_cells(size), index, inserted) == gap_cells(index as nat) + inserted
            + gap_cells((size - index) as nat),
{
    assert(spliced(gap_cells(size), index, inserted) =~= gap_cells(index as nat) + inserted
        + gap_cells((size - index) as nat));
}

/// Removing from three parts in a row removes from each of them.
pub proof fn lemma_removed_three(
    l: Seq<Option<u8>>,
    m: Seq<Option<u8>>,
    r: Seq<Option<u8>>,
    start: int,
    end: int,
)
    requires
        0 <= start <= end,
    ensures
        removed(l + m + r, start, end) == removed(l, start, end) + removed(
            m,
            shifted_left(start, l.len() as int),
            shifted_left(end, l.len() as int),
        ) + removed(
            r,
            shifted_left(start, (l.len() + m.len()) as int),
            shifted_left(end, (l.len() + m.len()) as int),
        ),
{
    lemma_removed_concat(l + m, r, start, end);
    lemma_removed_concat(l, m, start, end);
}

/// Capping a range at the length, or starting it at or past the end, does
/// not change what is removed.
pub proof fn lemma_removed_capped(cells: Seq<Option<u8>>, start: int, end: int)
    requires
        0 <= start,
        0 <= end,
    ensures
        removed(cells, capped(start, cells.len() as int), capped(end, cells.len() as int))
            == removed(cells, start, end),
        start >= cells.len() || end <= start ==> removed(cells, start, end) == cells,
{
    assert(removed(cells, capped(start, cells.len() as int), capped(end, cells.len() as int))
        =~= removed(cells, start, end));
    if start >= cells.len() || end <= start {
        assert(removed(cells, start, end) =~= cells);
    }
}

/// The start of a range clamped to a sequence of `len` positions.
pub open spec fn clamped_start(len: int, start: int) -> int {
    if start < len {
        start
    } else {
        len
    }
}

/// The end of a range clamped to a sequence of `len` positions, and to no
/// less than the clamped start.
pub open spec fn clamped_end(len: int, start: int, end: int) -> int {
    if end < clamped_start(len, start) {
        clamped_start(len, start)
    } else if end < len {
        end
    } else {
        len
    }
}

/// Removing a range is removing the range clamped to the sequence.
pub proof fn lemma_removed_clamped(cells: Seq<Option<u8>>, start: int, end: int)
    requires
        0 <= start,
        0 <= end,
    ensures
        removed(cells, start, end) == removed(
            cells,
            clamped_start(cells.len() as int, start),
            clamped_end(cells.len() as int, start, end),
        ),
{
}

/// Removing shortens a sequence, by no more than the length of the range.
pub proof fn lemma_removed_length(cells: Seq<Option<u8>>, start: int, end: int)
    requires
        0 <= start <= end,
    ensures
        removed(cells, start, end).len() <= cells.len(),
        removed(cells, start, end).len() >= cells.len() - (end - start),
{
}

/// `position - amount`, or zero where that would be negative.
pub open spec fn shifted_left(position: int, amount: int) -> int {
    if position >= amount {
        position - amount
    } else {
        0
    }
}

/// The smaller of `position` and `max`.
pub open spec fn capped(position: int, max: int) -> int {
    if position <= max {
        position
    } else {
        max
    }
}

} // verus!
