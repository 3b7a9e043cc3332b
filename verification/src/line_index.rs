//! Line arithmetic on byte sequences: how many line feeds a text holds, where
//! each line starts, and the two conversions between a byte offset and a
//! (line, column) position.

use vstd::prelude::*;

verus! {

/// The line-feed byte.
pub const LINE_FEED: u8 = 10;

/// The number of line feeds in `text`.
pub open spec fn count_lf(text: Seq<u8>) -> nat
    decreases text.len(),
{
    if text.len() == 0 {
        0
    } else {
        count_lf(text.drop_last()) + if text.last() == LINE_FEED {
            1nat
        } else {
            0nat
        }
    }
}

/// The offset at which line `line` starts: zero for the first line, else the
/// offset just past the `line`-th line feed. For a line that `text` does not
/// have this is the length of `text`.
pub open spec fn line_start(text: Seq<u8>, line: nat) -> int
    decreases text.len(),
{
    if line == 0 || text.len() == 0 {
        0
    } else if line <= count_lf(text.drop_last()) {
        line_start(text.drop_last(), line)
    } else {
        text.len() as int
    }
}

/// The number of lines of `text`: one more than its line feeds.
pub open spec fn line_count(text: Seq<u8>) -> nat {
    count_lf(text) + 1
}

/// The first `offset` bytes of `text`, the offset clamped to the text.
pub open spec fn prefix(text: Seq<u8>, offset: int) -> Seq<u8> {
    if offset <= 0 {
        Seq::empty()
    } else if offset < text.len() {
        text.subrange(0, offset)
    } else {
        text
    }
}

/// The (line, column) of a byte offset, the offset clamped to the text. The
/// line is the number of line feeds before the offset, the column the
/// distance from the start of that line.
pub open spec fn position_of(text: Seq<u8>, offset: int) -> (nat, nat) {
    let before = prefix(text, offset);
    let line = count_lf(before);
    (line, (before.len() - line_start(text, line)) as nat)
}

/// The byte offset of a (line, column) position: the start of the line plus
/// the column, clamped to the length of the text. A line past the last one
/// gives the length of the text.
pub open spec fn offset_of(text: Seq<u8>, line: nat, column: nat) -> int {
    if line > count_lf(text) {
        text.len() as int
    } else if line_start(text, line) + column < text.len() {
        line_start(text, line) + column
    } else {
        text.len() as int
    }
}

/// The byte range of line `line`: its start, and the start of the next line
/// if there is one. `None` for a line that `text` does not have.
pub open spec fn line_span(text: Seq<u8>, line: nat) -> Option<(int, Option<int>)> {
    if line > count_lf(text) {
        None
    } else if line < count_lf(text) {
        Some((line_start(text, line), Some(line_start(text, line + 1))))
    } else {
        Some((line_start(text, line), None))
    }
}

/// Line feeds add up over concatenation.
pub proof fn lemma_count_lf_concat(a: Seq<u8>, b: Seq<u8>)
    ensures
        count_lf(a + b) == count_lf(a) + count_lf(b),
    decreases b.len(),
{
    if b.len() == 0 {
        assert(a + b =~= a);
    } else {
        assert((a + b).drop_last() =~= a + b.drop_last());
        lemma_count_lf_concat(a, b.drop_last());
    }
}

/// A text has no more line feeds than bytes.
pub proof fn lemma_count_lf_bound(text: Seq<u8>)
    ensures
        count_lf(text) <= text.len(),
    decreases text.len(),
{
    if text.len() > 0 {
        lemma_count_lf_bound(text.drop_last());
    }
}

/// A text split in two has the line feeds of both parts.
pub proof fn lemma_count_lf_split(text: Seq<u8>, at: int)
    requires
        0 <= at <= text.len(),
    ensures
        count_lf(text) == count_lf(text.subrange(0, at)) + count_lf(
            text.subrange(at, text.len() as int),
        ),
{
    assert(text =~= text.subrange(0, at) + text.subrange(at, text.len() as int));
    lemma_count_lf_concat(text.subrange(0, at), text.subrange(at, text.len() as int));
}

/// A line starts within the text.
pub proof fn lemma_line_start_bound(text: Seq<u8>, line: nat)
    ensures
        0 <= line_start(text, line) <= text.len(),
    decreases text.len(),
{
    if line != 0 && text.len() != 0 && line <= count_lf(text.drop_last()) {
        lemma_line_start_bound(text.drop_last(), line);
    }
}

/// The start of a line of a concatenation lies in the first part if that
/// part has enough line feeds, else in the second.
pub proof fn lemma_line_start_concat(a: Seq<u8>, b: Seq<u8>, line: nat)
    ensures
        line_start(a + b, line) == if line <= count_lf(a) {
            line_start(a, line)
        } else {
            a.len() + line_start(b, (line - count_lf(a)) as nat)
        },
    decreases b.len(),
{
    if b.len() == 0 {
        assert(a + b =~= a);
        if line > count_lf(a) {
            lemma_line_start_past(a, line);
        }
    } else {
        let ab = a + b;
        assert(ab.drop_last() =~= a + b.drop_last());
        lemma_count_lf_concat(a, b.drop_last());
        lemma_line_start_concat(a, b.drop_last(), line);
        if line == 0 {
        } else if line <= count_lf(ab.drop_last()) {
        } else {
        }
    }
}

/// A line past the last one starts at the end of the text.
pub proof fn lemma_line_start_past(text: Seq<u8>, line: nat)
    requires
        line > count_lf(text),
    ensures
        line_start(text, line) == text.len(),
{
}

/// What a line start is: for a line the text has beyond the first, the byte
/// before the start is the line feed that ends the line before, and exactly
/// `line` line feeds lie before the start.
pub proof fn lemma_line_start_is_after_lf(text: Seq<u8>, line: nat)
    requires
        1 <= line <= count_lf(text),
    ensures
        1 <= line_start(text, line) <= text.len(),
        text[line_start(text, line) - 1] == LINE_FEED,
        count_lf(text.subrange(0, line_start(text, line))) == line,
    decreases text.len(),
{
    if line <= count_lf(text.drop_last()) {
        lemma_line_start_is_after_lf(text.drop_last(), line);
        let p = line_start(text.drop_last(), line);
        assert(text.drop_last().subrange(0, p) =~= text.subrange(0, p));
    } else {
        assert(text.subrange(0, text.len() as int) =~= text);
    }
}

/// The line that an offset lies on starts at or before the offset, and the
/// text has that line.
pub proof fn lemma_line_of_offset(text: Seq<u8>, offset: int)
    requires
        0 <= offset <= text.len(),
    ensures
        count_lf(text.subrange(0, offset)) <= count_lf(text),
        line_start(text, count_lf(text.subrange(0, offset))) <= offset,
        line_start(text, count_lf(text.subrange(0, offset))) == line_start(
            text.subrange(0, offset),
            count_lf(text.subrange(0, offset)),
        ),
{
    let a = text.subrange(0, offset);
    let b = text.subrange(offset, text.len() as int);
    assert(text =~= a + b);
    lemma_count_lf_concat(a, b);
    lemma_line_start_concat(a, b, count_lf(a));
    lemma_line_start_bound(a, count_lf(a));
}

/// Converting an offset within the text to a position and back gives the
/// offset again.
pub proof fn lemma_offset_position_round_trip(text: Seq<u8>, offset: int)
    requires
        0 <= offset <= text.len(),
    ensures
        offset_of(text, position_of(text, offset).0, position_of(text, offset).1) == offset,
{
    assert(prefix(text, offset) =~= text.subrange(0, offset));
    lemma_line_of_offset(text, offset);
}

/// Lines start in order: a later line does not start before an earlier one.
pub proof fn lemma_line_start_monotone(text: Seq<u8>, line: nat, later: nat)
    requires
        line <= later,
    ensures
        line_start(text, line) <= line_start(text, later),
    decreases text.len(),
{
    if line == 0 || text.len() == 0 {
        lemma_line_start_bound(text, later);
    } else if later <= count_lf(text.drop_last()) {
        lemma_line_start_monotone(text.drop_last(), line, later);
    } else {
        lemma_line_start_bound(text, line);
    }
}

/// Counts the line feeds in `data[start..end]`.
pub fn count_line_feeds(data: &[u8], start: usize, end: usize) -> (count: usize)
    requires
        start <= end <= data@.len(),
    ensures
        count == count_lf(data@.subrange(start as int, end as int)),
{
    let mut count: usize = 0;
    let mut i: usize = start;
    proof {
        assert(data@.subrange(start as int, start as int) =~= Seq::<u8>::empty());
    }
    while i < end
        invariant
            start <= i <= end <= data@.len(),
            count == count_lf(data@.subrange(start as int, i as int)),
            count <= i - start,
        decreases end - i,
    {
        proof {
            assert(data@.subrange(start as int, i + 1).drop_last() =~= data@.subrange(
                start as int,
                i as int,
            ));
        }
        if data[i] == LINE_FEED {
            count += 1;
        }
        i += 1;
    }
    count
}

/// Finds where line `line` of `data[start..end]` starts, as an offset from
/// `start`: just past the `line`-th line feed of the window.
pub fn find_line_start(data: &[u8], start: usize, end: usize, line: usize) -> (offset: usize)
    requires
        start <= end <= data@.len(),
        1 <= line <= count_lf(data@.subrange(start as int, end as int)),
    ensures
        offset == line_start(data@.subrange(start as int, end as int), line as nat),
        1 <= offset <= end - start,
{
    let ghost window = data@.subrange(start as int, end as int);
    let mut seen: usize = 0;
    let mut i: usize = start;
    proof {
        assert(data@.subrange(start as int, start as int) =~= Seq::<u8>::empty());
    }
    while seen < line
        invariant
            start <= i <= end <= data@.len(),
            window == data@.subrange(start as int, end as int),
            seen == count_lf(data@.subrange(start as int, i as int)),
            seen <= line <= count_lf(window),
            seen == line ==> i - start == line_start(window, line as nat),
        decreases end - i,
    {
        proof {
            if i == end {
                assert(data@.subrange(start as int, i as int) =~= window);
            }
            let upto = data@.subrange(start as int, i + 1);
            assert(upto.drop_last() =~= data@.subrange(start as int, i as int));
            let rest = data@.subrange(i + 1, end as int);
            assert(window =~= upto + rest);
            lemma_line_start_concat(upto, rest, line as nat);
        }
        if data[i] == LINE_FEED {
            seen += 1;
        }
        i += 1;
    }
    proof {
        lemma_line_start_is_after_lf(window, line as nat);
    }
    i - start
}

} // verus!
