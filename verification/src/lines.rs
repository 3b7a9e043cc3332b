//! A line of text held for editing.

use vstd::prelude::*;

verus! {

/// One line of text, without its terminator.
#[derive(Debug)]
pub struct EditLine {
    content: String,
}

impl View for EditLine {
    type V = Seq<char>;

    /// The characters of the line.
    closed spec fn view(&self) -> Seq<char> {
        self.content@
    }
}

impl EditLine {
    /// A line holding `content`.
    pub fn new(content: String) -> (line: EditLine)
        ensures
            line@ == content@,
    {
        EditLine { content }
    }

    /// A line holding nothing.
    pub fn empty() -> (line: EditLine)
        ensures
            line@ == Seq::<char>::empty(),
    {
        EditLine { content: String::new() }
    }

    /// The text of the line.
    pub fn str(&self) -> (text: &str)
        ensures
            text@ == self@,
    {
        self.content.as_str()
    }
}

} // verus!
