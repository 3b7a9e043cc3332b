//! Handles to lines of a file that is loaded piece by piece: a cursor that
//! names a line relative to an anchor, and a line together with the place in
//! the file it was loaded from.

use crate::line_index::{count_lf, line_start, LINE_FEED};
use crate::lines::EditLine;
use crate::strings::{lossy_string, utf8_lossy};
use vstd::prelude::*;

verus! {

/// A handle to a line: a distance from the anchor line, valid for one
/// version of the line numbering.
#[derive(Debug, Clone, PartialEq, Eq, Copy, Structural)]
pub struct LineCursor {
    relative: i64,
    offset_version: u64,
}

impl LineCursor {
    /// The distance from the anchor line.
    pub closed spec fn spec_relative(self) -> i64 {
        self.relative
    }

    /// The version of the line numbering the cursor belongs to.
    pub closed spec fn spec_version(self) -> u64 {
        self.offset_version
    }

    /// The cursor at the anchor line of the given version.
    pub fn at_anchor(offset_version: u64) -> (cursor: LineCursor)
        ensures
            cursor.spec_relative() == 0,
            cursor.spec_version() == offset_version,
    {
        LineCursor { relative: 0, offset_version }
    }

    /// The distance from the anchor line.
    pub fn relative(&self) -> (relative: i64)
        ensures
            relative == self.spec_relative(),
    {
        self.relative
    }

    /// The version of the line numbering the cursor belongs to.
    pub fn offset_version(&self) -> (version: u64)
        ensures
            version == self.spec_version(),
    {
        self.offset_version
    }

    /// The cursor `offset` lines further on, or back where `offset` is
    /// negative, in the same version.
    pub fn plus(&self, offset: i64) -> (cursor: LineCursor)
        requires
            i64::MIN <= self.spec_relative() + offset <= i64::MAX,
        ensures
            cursor.spec_relative() == self.spec_relative() + offset,
            cursor.spec_version() == self.spec_version(),
    {
        LineCursor { relative: self.relative + offset, offset_version: self.offset_version }
    }
}

/// Where in the file a line was loaded from, and how many bytes it had there.
#[derive(Debug, Clone, Copy)]
pub struct LoadedLoc {
    pub loaded_offset: u64,
    pub loaded_size: u64,
}

/// A line, and where it was loaded from if it came from the file.
#[derive(Debug)]
pub struct LoadedLine {
    line: Box<EditLine>,
    loaded_loc: Option<LoadedLoc>,
}

impl LoadedLine {
    /// The text of the line.
    pub closed spec fn text(&self) -> Seq<char> {
        self.line@
    }

    /// Where the line was loaded from.
    pub closed spec fn location(&self) -> Option<LoadedLoc> {
        self.loaded_loc
    }

    /// A line that did not come from the file.
    pub fn new(line: EditLine) -> (loaded: LoadedLine)
        ensures
            loaded.text() == line@,
            loaded.location() is None,
    {
        LoadedLine { line: Box::new(line), loaded_loc: None }
    }

    /// A line loaded from byte `offset` of the file. Its size there is the
    /// length of its text in bytes.
    pub fn from_loaded(line: EditLine, offset: u64) -> (loaded: LoadedLine)
        ensures
            loaded.text() == line@,
            loaded.location() matches Some(loc) && loc.loaded_offset == offset && loc.loaded_size
                == vstd::utf8::encode_utf8(line@).len() as usize,
    {
        let line_size = line.str().len() as u64;
        LoadedLine {
            line: Box::new(line),
            loaded_loc: Some(LoadedLoc { loaded_offset: offset, loaded_size: line_size }),
        }
    }

    /// The line.
    pub fn line(&self) -> (line: &EditLine)
        ensures
            line@ == self.text(),
    {
        &*self.line
    }

    /// Where the line was loaded from, if it came from the file.
    pub fn loaded_loc(&self) -> (loc: Option<LoadedLoc>)
        ensures
            loc == self.location(),
    {
        self.loaded_loc
    }
}

/// The bytes of line `line` of a chunk, without the line feed that ends it.
pub open spec fn line_bytes(data: Seq<u8>, line: nat) -> Seq<u8> {
    if line < count_lf(data) {
        data.subrange(line_start(data, line), line_start(data, line + 1) - 1)
    } else {
        data.subrange(line_start(data, line), data.len() as int)
    }
}

/// Parses a chunk of a file into its lines. A line ends at a line feed,
/// which is not part of it; what follows the last line feed is a line too,
/// even if it is empty. An empty chunk has no line. Bytes that are not
/// well-formed UTF-8 become U+FFFD.
pub fn parse_chunk(data: &Vec<u8>) -> (lines: Vec<EditLine>)
    ensures
        data@.len() == 0 ==> lines@.len() == 0,
        data@.len() > 0 ==> lines@.len() == count_lf(data@) + 1,
        forall|i: int|
            0 <= i < lines@.len() ==> (#[trigger] lines@[i])@ == utf8_lossy(
                line_bytes(data@, i as nat),
            ),
{
    let mut lines: Vec<EditLine> = Vec::new();
    if data.len() == 0 {
        return lines;
    }
    let bytes = data.as_slice();
    let mut start: usize = 0;
    let mut pos: usize = 0;
    proof {
        assert(data@.subrange(0, 0) =~= Seq::<u8>::empty());
    }
    while pos < bytes.len()
        invariant
            bytes@ == data@,
            start <= pos <= data@.len(),
            lines@.len() == count_lf(data@.subrange(0, pos as int)),
            lines@.len() == count_lf(data@.subrange(0, start as int)),
            start == line_start(data@, lines@.len() as nat),
            forall|i: int|
                0 <= i < lines@.len() ==> (#[trigger] lines@[i])@ == utf8_lossy(
                    line_bytes(data@, i as nat),
                ),
        decreases data@.len() - pos,
    {
        let ghost upto = data@.subrange(0, pos + 1);
        proof {
            assert(upto.drop_last() =~= data@.subrange(0, pos as int));
            crate::line_index::lemma_count_lf_split(data@, pos + 1);
            crate::line_index::lemma_line_start_concat(
                upto,
                data@.subrange(pos + 1, data@.len() as int),
                (lines@.len() + 1) as nat,
            );
            assert(data@ =~= upto + data@.subrange(pos + 1, data@.len() as int));
        }
        if bytes[pos] == LINE_FEED {
            let text = lossy_string(vstd::slice::slice_subrange(bytes, start, pos));
            lines.push(EditLine::new(text));
            start = pos + 1;
        }
        pos += 1;
    }
    proof {
        assert(data@.subrange(0, pos as int) =~= data@);
    }
    let text = lossy_string(vstd::slice::slice_subrange(bytes, start, bytes.len()));
    lines.push(EditLine::new(text));
    lines
}

} // verus!
