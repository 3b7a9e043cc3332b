//! Word boundaries around a position in a buffer. A word is a run of ASCII
//! letters, digits and underscores. Every search looks at most
//! `SCAN_WINDOW` bytes away from the position it starts at.

use crate::piece_tree::clamp_to;
use crate::text_buffer::TextBuffer;
use vstd::prelude::*;

verus! {

/// How far from the starting position a search looks.
pub const SCAN_WINDOW: usize = 1000;

/// Whether a byte belongs to a word: an ASCII letter, a digit or an underscore.
pub open spec fn is_word(byte: u8) -> bool {
    ||| 0x30 <= byte <= 0x39
    ||| 0x41 <= byte <= 0x5A
    ||| 0x61 <= byte <= 0x7A
    ||| byte == 0x5F
}

/// Whether a byte belongs to a word: an ASCII letter, a digit or an underscore.
pub fn is_word_char(byte: u8) -> (word: bool)
    ensures
        word == is_word(byte),
{
    (byte >= 0x30 && byte <= 0x39) || (byte >= 0x41 && byte <= 0x5A) || (byte >= 0x61 && byte
        <= 0x7A) || byte == 0x5F
}

/// The first offset at or after `from` and before `limit` whose byte is a
/// word byte or not, as `word` is false or true; `limit` if there is none.
/// That is where a run of bytes of the kind `word` that starts at `from` ends.
pub open spec fn run_end(text: Seq<u8>, from: int, limit: int, word: bool) -> int
    decreases limit - from,
{
    if from >= limit || from < 0 || from >= text.len() {
        from
    } else if is_word(text[from]) == word {
        run_end(text, from + 1, limit, word)
    } else {
        from
    }
}

/// The start of the run of word bytes that ends just before `at`, looking
/// no further back than `floor`.
pub open spec fn word_run_start(text: Seq<u8>, at: int, floor: int) -> int
    decreases at - floor,
{
    if at <= floor || at > text.len() {
        at
    } else if is_word(text[at - 1]) {
        word_run_start(text, at - 1, floor)
    } else {
        at
    }
}

/// The nearest offset at or before `at` whose byte is a word byte, looking
/// no further back than `floor`.
pub open spec fn back_over_others(text: Seq<u8>, at: int, floor: int) -> int
    decreases at - floor,
{
    if at <= floor || at >= text.len() {
        at
    } else if !is_word(text[at]) {
        back_over_others(text, at - 1, floor)
    } else {
        at
    }
}

/// The start of the run of bytes of one kind that holds the byte at `at`,
/// looking no further back than `floor`.
pub open spec fn kind_run_start(text: Seq<u8>, at: int, floor: int) -> int
    decreases at - floor,
{
    if at <= floor || at >= text.len() {
        at
    } else if is_word(text[at - 1]) != is_word(text[at]) {
        at
    } else {
        kind_run_start(text, at - 1, floor)
    }
}

/// The start of the window that a backward search from `at` looks at.
pub open spec fn window_floor(at: int) -> int {
    if at >= SCAN_WINDOW {
        at - SCAN_WINDOW
    } else {
        0
    }
}

/// The end of the window that a forward search from `at` looks at.
pub open spec fn window_limit(text: Seq<u8>, at: int) -> int {
    clamp_to(at + SCAN_WINDOW, text.len() as int)
}

/// Where the word at or before `pos` starts. On a word byte the search
/// starts at `pos`; elsewhere, and at the end of the text, one byte before it.
pub open spec fn word_start(text: Seq<u8>, pos: int) -> int {
    let at = clamp_to(pos, text.len() as int);
    let floor = window_floor(at);
    if pos <= 0 {
        0
    } else if (at >= text.len() || !is_word(text[at])) && at > floor {
        word_run_start(text, at - 1, floor)
    } else {
        word_run_start(text, at, floor)
    }
}

/// Where the part of a word that has been typed up to `pos` starts: `pos`
/// itself if the byte before it is no word byte, else the start of the word.
pub open spec fn completion_word_start(text: Seq<u8>, pos: int) -> int {
    let at = clamp_to(pos, text.len() as int);
    if pos <= 0 {
        0
    } else if at == 0 || !is_word(text[at - 1]) {
        at
    } else {
        word_start(text, pos)
    }
}

/// Where the word to the left of `pos` starts: from the byte before `pos`,
/// back over what is no word, then to the start of the run found there.
pub open spec fn word_start_left(text: Seq<u8>, pos: int) -> int {
    let at = clamp_to(pos, text.len() as int);
    let floor = window_floor(at);
    if pos <= 0 || at <= floor {
        if pos <= 0 {
            0
        } else {
            at
        }
    } else {
        kind_run_start(text, back_over_others(text, at - 1, floor), floor)
    }
}

/// Where the word at `pos` ends.
pub open spec fn word_end(text: Seq<u8>, pos: int) -> int {
    if pos >= text.len() {
        text.len() as int
    } else {
        run_end(text, pos, window_limit(text, pos), true)
    }
}

/// Where the word to the right of `pos` starts: past the rest of the word
/// at `pos`, then past what is no word.
pub open spec fn word_start_right(text: Seq<u8>, pos: int) -> int {
    if pos >= text.len() {
        text.len() as int
    } else {
        let limit = window_limit(text, pos);
        run_end(text, run_end(text, pos, limit, true), limit, false)
    }
}

/// Scans back from `at` while the byte before is a word byte.
fn scan_word_run_start(bytes: &Vec<u8>, at: usize, Ghost(text): Ghost<Seq<u8>>, Ghost(floor): Ghost<
    int,
>) -> (start: usize)
    requires
        0 <= floor,
        floor + bytes@.len() <= text.len(),
        bytes@ == text.subrange(floor, floor + bytes@.len()),
        at <= bytes@.len(),
    ensures
        floor + start == word_run_start(text, floor + at, floor),
        start <= at,
{
    let mut new_pos = at;
    while new_pos > 0 && is_word_char(bytes[new_pos - 1])
        invariant
            new_pos <= at <= bytes@.len(),
            0 <= floor,
            floor + bytes@.len() <= text.len(),
            bytes@ == text.subrange(floor, floor + bytes@.len()),
            word_run_start(text, floor + at, floor) == word_run_start(text, floor + new_pos, floor),
        decreases new_pos,
    {
        proof {
            assert(bytes@[new_pos - 1] == text[floor + new_pos - 1]);
        }
        new_pos -= 1;
    }
    proof {
        if new_pos > 0 {
            assert(bytes@[new_pos - 1] == text[floor + new_pos - 1]);
        }
    }
    new_pos
}

/// The start of the part of a word that ends at the cursor: the cursor
/// itself if the byte before it is no word byte.
pub fn find_completion_word_start(buffer: &TextBuffer, pos: usize) -> (start: usize)
    requires
        buffer.wf(),
    ensures
        start == completion_word_start(buffer@, pos as int),
        start <= pos,
{
    if pos == 0 {
        return 0;
    }
    let buf_len = buffer.total_bytes();
    let pos = if pos < buf_len {
        pos
    } else {
        buf_len
    };
    let start = if pos >= SCAN_WINDOW {
        pos - SCAN_WINDOW
    } else {
        0
    };
    let end = if pos < buf_len {
        pos + 1
    } else {
        buf_len
    };
    let bytes = buffer.get_text_range(start, end - start);
    let offset = pos - start;
    if offset == 0 {
        return pos;
    }
    proof {
        assert(bytes@[offset - 1] == buffer@[pos - 1]);
        if offset < bytes@.len() {
            assert(bytes@[offset as int] == buffer@[pos as int]);
        }
    }
    if !is_word_char(bytes[offset - 1]) {
        return pos;
    }
    let mut new_pos = offset;
    if new_pos >= bytes.len() || !is_word_char(bytes[new_pos]) {
        new_pos -= 1;
    }
    let found = scan_word_run_start(&bytes, new_pos, Ghost(buffer@), Ghost(start as int));
    start + found
}

/// The start of the word at or before `pos`.
pub fn find_word_start(buffer: &TextBuffer, pos: usize) -> (start: usize)
    requires
        buffer.wf(),
    ensures
        start == word_start(buffer@, pos as int),
        start <= pos,
{
    if pos == 0 {
        return 0;
    }
    let buf_len = buffer.total_bytes();
    let pos = if pos < buf_len {
        pos
    } else {
        buf_len
    };
    let start = if pos >= SCAN_WINDOW {
        pos - SCAN_WINDOW
    } else {
        0
    };
    let end = if pos < buf_len {
        pos + 1
    } else {
        buf_len
    };
    let bytes = buffer.get_text_range(start, end - start);
    let offset = pos - start;
    proof {
        if offset < bytes@.len() {
            assert(bytes@[offset as int] == buffer@[pos as int]);
        }
    }
    let mut new_pos = offset;
    if new_pos >= bytes.len() || !is_word_char(bytes[new_pos]) {
        if new_pos > 0 {
            new_pos -= 1;
        }
    }
    let found = scan_word_run_start(&bytes, new_pos, Ghost(buffer@), Ghost(start as int));
    start + found
}

/// The end of the word at `pos`.
pub fn find_word_end(buffer: &TextBuffer, pos: usize) -> (end: usize)
    requires
        buffer.wf(),
    ensures
        end == word_end(buffer@, pos as int),
        end <= buffer@.len(),
{
    let buf_len = buffer.total_bytes();
    if pos >= buf_len {
        return buf_len;
    }
    let start = pos;
    let end = if SCAN_WINDOW < buf_len - pos {
        pos + SCAN_WINDOW
    } else {
        buf_len
    };
    let bytes = buffer.get_text_range(start, end - start);
    let new_pos = scan_run_end(&bytes, 0, true, Ghost(buffer@), Ghost(start as int));
    start + new_pos
}

/// Scans forward from `at` over bytes of the kind `word`.
fn scan_run_end(
    bytes: &Vec<u8>,
    at: usize,
    word: bool,
    Ghost(text): Ghost<Seq<u8>>,
    Ghost(base): Ghost<int>,
) -> (end: usize)
    requires
        0 <= base,
        base + bytes@.len() <= text.len(),
        bytes@ == text.subrange(base, base + bytes@.len()),
        at <= bytes@.len(),
    ensures
        base + end == run_end(text, base + at, base + bytes@.len(), word),
        at <= end <= bytes@.len(),
{
    let mut new_pos = at;
    while new_pos < bytes.len() && is_word_char(bytes[new_pos]) == word
        invariant
            at <= new_pos <= bytes@.len(),
            0 <= base,
            base + bytes@.len() <= text.len(),
            bytes@ == text.subrange(base, base + bytes@.len()),
            run_end(text, base + at, base + bytes@.len(), word) == run_end(
                text,
                base + new_pos,
                base + bytes@.len(),
                word,
            ),
        decreases bytes@.len() - new_pos,
    {
        proof {
            assert(bytes@[new_pos as int] == text[base + new_pos]);
        }
        new_pos += 1;
    }
    proof {
        if new_pos < bytes@.len() {
            assert(bytes@[new_pos as int] == text[base + new_pos]);
        }
    }
    new_pos
}

/// The start of the word to the left of `pos`.
pub fn find_word_start_left(buffer: &TextBuffer, pos: usize) -> (start: usize)
    requires
        buffer.wf(),
    ensures
        start == word_start_left(buffer@, pos as int),
        start <= pos,
{
    if pos == 0 {
        return 0;
    }
    let buf_len = buffer.total_bytes();
    let actual_pos = if pos < buf_len {
        pos
    } else {
        buf_len
    };
    let start = if actual_pos >= SCAN_WINDOW {
        actual_pos - SCAN_WINDOW
    } else {
        0
    };
    let end = actual_pos;
    let bytes = buffer.get_text_range(start, end - start);
    if bytes.len() == 0 {
        return start;
    }
    let ghost text = buffer@;
    let ghost floor = start as int;
    let mut new_pos = bytes.len() - 1;
    while new_pos > 0 && !is_word_char(bytes[new_pos])
        invariant
            new_pos < bytes@.len(),
            0 <= floor,
            floor + bytes@.len() <= text.len(),
            bytes@ == text.subrange(floor, floor + bytes@.len()),
            back_over_others(text, floor + bytes@.len() - 1, floor) == back_over_others(
                text,
                floor + new_pos,
                floor,
            ),
        decreases new_pos,
    {
        proof {
            assert(bytes@[new_pos as int] == text[floor + new_pos]);
        }
        new_pos -= 1;
    }
    proof {
        assert(bytes@[new_pos as int] == text[floor + new_pos]);
    }
    let ghost from = new_pos;
    while new_pos > 0 && is_word_char(bytes[new_pos - 1]) == is_word_char(bytes[new_pos])
        invariant
            new_pos <= from < bytes@.len(),
            0 <= floor,
            floor + bytes@.len() <= text.len(),
            bytes@ == text.subrange(floor, floor + bytes@.len()),
            kind_run_start(text, floor + from, floor) == kind_run_start(
                text,
                floor + new_pos,
                floor,
            ),
        decreases new_pos,
    {
        proof {
            assert(bytes@[new_pos as int] == text[floor + new_pos]);
            assert(bytes@[new_pos - 1] == text[floor + new_pos - 1]);
        }
        new_pos -= 1;
    }
    proof {
        if new_pos > 0 {
            assert(bytes@[new_pos as int] == text[floor + new_pos]);
            assert(bytes@[new_pos - 1] == text[floor + new_pos - 1]);
        }
    }
    start + new_pos
}

/// The start of the word to the right of `pos`.
pub fn find_word_start_right(buffer: &TextBuffer, pos: usize) -> (start: usize)
    requires
        buffer.wf(),
    ensures
        start == word_start_right(buffer@, pos as int),
        start <= buffer@.len(),
{
    let buf_len = buffer.total_bytes();
    if pos >= buf_len {
        return buf_len;
    }
    let start = pos;
    let end = if SCAN_WINDOW < buf_len - pos {
        pos + SCAN_WINDOW
    } else {
        buf_len
    };
    let bytes = buffer.get_text_range(start, end - start);
    let word_end = scan_run_end(&bytes, 0, true, Ghost(buffer@), Ghost(start as int));
    let new_pos = scan_run_end(&bytes, word_end, false, Ghost(buffer@), Ghost(start as int));
    start + new_pos
}

} // verus!
