//! What a highlighter hands out: categories, theme colours and spans.

use std::ops::Range;
use vstd::prelude::*;

verus! {

/// A colour, as red, green and blue.
#[derive(Clone, Copy, Debug, PartialEq, Eq, Structural)]
pub struct Color {
    pub r: u8,
    pub g: u8,
    pub b: u8,
}

/// The kinds of text a highlighter tells apart.
#[derive(Clone, Copy, Debug, PartialEq, Eq, Structural)]
pub enum HighlightCategory {
    Comment,
    String,
    Keyword,
    Operator,
    Function,
    Type,
    Number,
    Constant,
    Variable,
    Property,
    Attribute,
}

/// A colour for each category.
#[derive(Clone, Copy, Debug, PartialEq, Eq)]
pub struct Theme {
    pub comment: Color,
    pub string: Color,
    pub keyword: Color,
    pub operator: Color,
    pub function: Color,
    pub type_: Color,
    pub number: Color,
    pub constant: Color,
    pub variable: Color,
    pub property: Color,
    pub attribute: Color,
}

impl HighlightCategory {
    /// The colour the theme gives to the category.
    pub open spec fn spec_color(self, theme: Theme) -> Color {
        match self {
            HighlightCategory::Comment => theme.comment,
            HighlightCategory::String => theme.string,
            HighlightCategory::Keyword => theme.keyword,
            HighlightCategory::Operator => theme.operator,
            HighlightCategory::Function => theme.function,
            HighlightCategory::Type => theme.type_,
            HighlightCategory::Number => theme.number,
            HighlightCategory::Constant => theme.constant,
            HighlightCategory::Variable => theme.variable,
            HighlightCategory::Property => theme.property,
            HighlightCategory::Attribute => theme.attribute,
        }
    }

    /// The colour the theme gives to the category.
    pub fn color(&self, theme: &Theme) -> (color: Color)
        ensures
            color == self.spec_color(*theme),
    {
        match self {
            HighlightCategory::Comment => theme.comment,
            HighlightCategory::String => theme.string,
            HighlightCategory::Keyword => theme.keyword,
            HighlightCategory::Operator => theme.operator,
            HighlightCategory::Function => theme.function,
            HighlightCategory::Type => theme.type_,
            HighlightCategory::Number => theme.number,
            HighlightCategory::Constant => theme.constant,
            HighlightCategory::Variable => theme.variable,
            HighlightCategory::Property => theme.property,
            HighlightCategory::Attribute => theme.attribute,
        }
    }
}

/// A byte range of the buffer and the colour to draw it in.
#[derive(Debug, PartialEq, Eq)]
pub struct HighlightSpan {
    pub range: Range<usize>,
    pub color: Color,
}

impl Clone for HighlightSpan {
    fn clone(&self) -> (copy: Self)
        ensures
            copy == *self,
    {
        HighlightSpan { range: self.range.start..self.range.end, color: self.color }
    }
}

} // verus!
