//! TextMate-grammar highlighting of the visible part of a buffer.
//!
//! The highlighter parses only the viewport and some context around it,
//! keeps the spans it found with their categories rather than colours, and
//! answers from that cache until an edit touches the cached range.

use crate::primitives::grammar::{
    apply_scope_op, grammars_loaded, load_default_grammars, new_scope_stack, parse_line,
    parsed_line, scope_name_at, scope_stack_applied, scope_stack_len, scope_stack_names,
    start_parse, started_state, state_fits_set, syntax_set_names,
};
use crate::primitives::highlighter::{HighlightCategory, HighlightSpan, Theme};
use crate::strings::{lowercase, starts_with, to_lowercase, utf8_text};
use crate::text_buffer::{text_slice, TextBuffer};
use std::ops::Range;
use std::sync::Arc;
use syntect::parsing::{ParseState, ScopeStack, ScopeStackOp, SyntaxSet};
use vstd::prelude::*;

verus! {

/// The category of a scope name in lower case. The first rule that
/// matches decides; a name that no rule matches has no category.
pub open spec fn scope_category(scope: Seq<char>) -> Option<HighlightCategory> {
    if "comment"@.is_prefix_of(scope) {
        Some(HighlightCategory::Comment)
    } else if "string"@.is_prefix_of(scope) {
        Some(HighlightCategory::String)
    } else if "markup.heading"@.is_prefix_of(scope) || "entity.name.section"@.is_prefix_of(scope) {
        Some(HighlightCategory::Keyword)
    } else if "markup.bold"@.is_prefix_of(scope) {
        Some(HighlightCategory::Constant)
    } else if "markup.italic"@.is_prefix_of(scope) {
        Some(HighlightCategory::Variable)
    } else if "markup.raw"@.is_prefix_of(scope) || "markup.inline.raw"@.is_prefix_of(scope) {
        Some(HighlightCategory::String)
    } else if "markup.underline.link"@.is_prefix_of(scope) || "markup.underline"@.is_prefix_of(
        scope,
    ) {
        Some(HighlightCategory::Function)
    } else if "markup.quote"@.is_prefix_of(scope) {
        Some(HighlightCategory::Comment)
    } else if "markup.list"@.is_prefix_of(scope) {
        Some(HighlightCategory::Operator)
    } else if "markup.strikethrough"@.is_prefix_of(scope) {
        Some(HighlightCategory::Comment)
    } else if "keyword.operator"@.is_prefix_of(scope) {
        Some(HighlightCategory::Operator)
    } else if "keyword"@.is_prefix_of(scope) {
        Some(HighlightCategory::Keyword)
    } else if "punctuation"@.is_prefix_of(scope) {
        Some(HighlightCategory::Operator)
    } else if "entity.name.function"@.is_prefix_of(scope) || "support.function"@.is_prefix_of(
        scope,
    ) || "meta.function-call"@.is_prefix_of(scope) || "variable.function"@.is_prefix_of(scope) {
        Some(HighlightCategory::Function)
    } else if "entity.name.type"@.is_prefix_of(scope) || "entity.name.class"@.is_prefix_of(scope)
        || "entity.name.struct"@.is_prefix_of(scope) || "entity.name.enum"@.is_prefix_of(scope)
        || "entity.name.interface"@.is_prefix_of(scope) || "entity.name.trait"@.is_prefix_of(
        scope,
    ) || "support.type"@.is_prefix_of(scope) || "support.class"@.is_prefix_of(scope)
        || "storage.type"@.is_prefix_of(scope) {
        Some(HighlightCategory::Type)
    } else if "storage.modifier"@.is_prefix_of(scope) {
        Some(HighlightCategory::Keyword)
    } else if "constant.numeric"@.is_prefix_of(scope) || "constant.language.boolean"@.is_prefix_of(
        scope,
    ) {
        Some(HighlightCategory::Number)
    } else if "constant"@.is_prefix_of(scope) {
        Some(HighlightCategory::Constant)
    } else if "variable.parameter"@.is_prefix_of(scope) || "variable.other"@.is_prefix_of(scope)
        || "variable.language"@.is_prefix_of(scope) {
        Some(HighlightCategory::Variable)
    } else if "entity.name.tag"@.is_prefix_of(scope) || "support.other.property"@.is_prefix_of(
        scope,
    ) || "meta.object-literal.key"@.is_prefix_of(scope) || "variable.other.property"@.is_prefix_of(
        scope,
    ) || "variable.other.object.property"@.is_prefix_of(scope) {
        Some(HighlightCategory::Property)
    } else if "entity.other.attribute"@.is_prefix_of(scope) || "meta.attribute"@.is_prefix_of(
        scope,
    ) || "entity.name.decorator"@.is_prefix_of(scope) {
        Some(HighlightCategory::Attribute)
    } else if "variable"@.is_prefix_of(scope) {
        Some(HighlightCategory::Variable)
    } else {
        None
    }
}

/// The category of a scope name that is already in lower case.
pub fn lowercase_scope_to_category(scope_lower: &str) -> (category: Option<HighlightCategory>)
    ensures
        category == scope_category(scope_lower@),
{
    if starts_with(scope_lower, "comment") {
        return Some(HighlightCategory::Comment);
    }
    if starts_with(scope_lower, "string") {
        return Some(HighlightCategory::String);
    }
    if starts_with(scope_lower, "markup.heading") || starts_with(
        scope_lower,
        "entity.name.section",
    ) {
        return Some(HighlightCategory::Keyword);
    }
    if starts_with(scope_lower, "markup.bold") {
        return Some(HighlightCategory::Constant);
    }
    if starts_with(scope_lower, "markup.italic") {
        return Some(HighlightCategory::Variable);
    }
    if starts_with(scope_lower, "markup.raw") || starts_with(scope_lower, "markup.inline.raw") {
        return Some(HighlightCategory::String);
    }
    if starts_with(scope_lower, "markup.underline.link") {
        return Some(HighlightCategory::Function);
    }
    if starts_with(scope_lower, "markup.underline") {
        return Some(HighlightCategory::Function);
    }
    if starts_with(scope_lower, "markup.quote") {
        return Some(HighlightCategory::Comment);
    }
    if starts_with(scope_lower, "markup.list") {
        return Some(HighlightCategory::Operator);
    }
    if starts_with(scope_lower, "markup.strikethrough") {
        return Some(HighlightCategory::Comment);
    }
    if starts_with(scope_lower, "keyword") {
        if !starts_with(scope_lower, "keyword.operator") {
            return Some(HighlightCategory::Keyword);
        }
    }
    if starts_with(scope_lower, "keyword.operator") || starts_with(scope_lower, "punctuation") {
        return Some(HighlightCategory::Operator);
    }
    if starts_with(scope_lower, "entity.name.function") || starts_with(
        scope_lower,
        "support.function",
    ) || starts_with(scope_lower, "meta.function-call") || starts_with(
        scope_lower,
        "variable.function",
    ) {
        return Some(HighlightCategory::Function);
    }
    if starts_with(scope_lower, "entity.name.type") || starts_with(
        scope_lower,
        "entity.name.class",
    ) || starts_with(scope_lower, "entity.name.struct") || starts_with(
        scope_lower,
        "entity.name.enum",
    ) || starts_with(scope_lower, "entity.name.interface") || starts_with(
        scope_lower,
        "entity.name.trait",
    ) || starts_with(scope_lower, "support.type") || starts_with(scope_lower, "support.class")
        || starts_with(scope_lower, "storage.type") {
        return Some(HighlightCategory::Type);
    }
    if starts_with(scope_lower, "storage.modifier") {
        return Some(HighlightCategory::Keyword);
    }
    if starts_with(scope_lower, "constant.numeric") || starts_with(
        scope_lower,
        "constant.language.boolean",
    ) {
        return Some(HighlightCategory::Number);
    }
    if starts_with(scope_lower, "constant") {
        return Some(HighlightCategory::Constant);
    }
    if starts_with(scope_lower, "variable.parameter") || starts_with(scope_lower, "variable.other")
        || starts_with(scope_lower, "variable.language") {
        return Some(HighlightCategory::Variable);
    }
    if starts_with(scope_lower, "entity.name.tag") || starts_with(
        scope_lower,
        "support.other.property",
    ) || starts_with(scope_lower, "meta.object-literal.key") || starts_with(
        scope_lower,
        "variable.other.property",
    ) || starts_with(scope_lower, "variable.other.object.property") {
        return Some(HighlightCategory::Property);
    }
    if starts_with(scope_lower, "entity.other.attribute") || starts_with(
        scope_lower,
        "meta.attribute",
    ) || starts_with(scope_lower, "entity.name.decorator") {
        return Some(HighlightCategory::Attribute);
    }
    if starts_with(scope_lower, "variable") {
        return Some(HighlightCategory::Variable);
    }
    None
}

/// The category of a TextMate scope name, compared without regard to case.
pub fn scope_to_category(scope: &str) -> (category: Option<HighlightCategory>)
    ensures
        category == scope_category(lowercase(scope@)),
{
    let scope_lower = to_lowercase(scope);
    lowercase_scope_to_category(scope_lower.as_str())
}

/// The category of a scope stack: that of the topmost scope that has one.
pub open spec fn stack_category(names: Seq<Seq<char>>) -> Option<HighlightCategory>
    decreases names.len(),
{
    if names.len() == 0 {
        None
    } else {
        match scope_category(lowercase(names.last())) {
            Some(category) => Some(category),
            None => stack_category(names.drop_last()),
        }
    }
}

/// The category of a scope stack: the scopes are asked from the top of the
/// stack down, and the first that has a category decides.
pub fn scope_stack_to_category(scopes: &ScopeStack) -> (category: Option<HighlightCategory>)
    ensures
        category == stack_category(scope_stack_names(*scopes)),
{
    let ghost names = scope_stack_names(*scopes);
    let mut remaining = scope_stack_len(scopes);
    proof {
        assert(names.subrange(0, remaining as int) =~= names);
    }
    while remaining > 0
        invariant
            names == scope_stack_names(*scopes),
            remaining <= names.len(),
            stack_category(names) == stack_category(names.subrange(0, remaining as int)),
        decreases remaining,
    {
        let ghost upto = names.subrange(0, remaining as int);
        let scope_str = scope_name_at(scopes, remaining - 1);
        proof {
            assert(upto.last() == names[remaining - 1]);
            assert(upto.drop_last() =~= names.subrange(0, remaining - 1));
        }
        match scope_to_category(scope_str.as_str()) {
            Some(category) => {
                return Some(category);
            },
            None => {},
        }
        remaining -= 1;
    }
    None
}

/// A byte range of the buffer and the category of the text in it.
#[derive(Debug, PartialEq, Eq)]
pub struct CachedSpan {
    pub range: Range<usize>,
    pub category: HighlightCategory,
}

impl Clone for CachedSpan {
    fn clone(&self) -> (copy: Self)
        ensures
            copy == *self,
    {
        CachedSpan { range: self.range.start..self.range.end, category: self.category }
    }
}

/// Whether two spans have the same category and the second starts where
/// the first ends.
pub open spec fn touches(first: CachedSpan, second: CachedSpan) -> bool {
    first.category == second.category && first.range.end == second.range.start
}

/// Two touching spans as one.
pub open spec fn span_joined(first: CachedSpan, second: CachedSpan) -> CachedSpan {
    CachedSpan {
        range: Range { start: first.range.start, end: second.range.end },
        category: first.category,
    }
}

/// `spans` with `span` at the end, joined to the last span where the two touch.
pub open spec fn spans_append(spans: Seq<CachedSpan>, span: CachedSpan) -> Seq<CachedSpan> {
    if spans.len() > 0 && touches(spans.last(), span) {
        spans.drop_last().push(span_joined(spans.last(), span))
    } else {
        spans.push(span)
    }
}

/// The spans with every run of touching spans joined into one.
pub open spec fn merged(spans: Seq<CachedSpan>) -> Seq<CachedSpan>
    decreases spans.len(),
{
    if spans.len() == 0 {
        Seq::empty()
    } else {
        spans_append(merged(spans.drop_last()), spans.last())
    }
}

/// The spans are not empty, lie within `lo..hi`, and come in order without
/// overlapping.
pub open spec fn spans_in_order(spans: Seq<CachedSpan>, lo: int, hi: int) -> bool {
    &&& forall|i: int|
        0 <= i < spans.len() ==> lo <= (#[trigger] spans[i]).range.start < spans[i].range.end
            <= hi
    &&& forall|i: int, j: int|
        0 <= i < j < spans.len() ==> (#[trigger] spans[i]).range.end <= (
        #[trigger] spans[j]).range.start
}

/// No span touches the one after it.
pub open spec fn no_touching(spans: Seq<CachedSpan>) -> bool {
    forall|i: int| 0 <= i < spans.len() - 1 ==> !touches(#[trigger] spans[i], spans[i + 1])
}

/// After merging, no span touches the one after it, whatever the spans were.
pub proof fn lemma_merged_no_touching(spans: Seq<CachedSpan>)
    ensures
        no_touching(merged(spans)),
    decreases spans.len(),
{
    if spans.len() > 0 {
        lemma_merged_no_touching(spans.drop_last());
        let m = merged(spans.drop_last());
        let last = spans.last();
        let out = spans_append(m, last);
        assert forall|i: int| 0 <= i < out.len() - 1 implies !touches(
            #[trigger] out[i],
            out[i + 1],
        ) by {
            assert(out[i] == m[i]);
            if m.len() > 0 && touches(m.last(), last) {
                if i + 1 < m.len() - 1 {
                    assert(out[i + 1] == m[i + 1]);
                } else {
                    assert(out[i + 1] == span_joined(m.last(), last));
                    assert(!touches(m[i], m[i + 1]));
                }
            } else {
                if i + 1 < m.len() {
                    assert(out[i + 1] == m[i + 1]);
                } else {
                    assert(out[i + 1] == last);
                    assert(m[i] == m.last());
                }
            }
        }
    }
}

/// Merging keeps spans in order and within their bounds, leaves no two
/// neighbours touching, and does not add spans.
pub proof fn lemma_merged(spans: Seq<CachedSpan>, lo: int, hi: int)
    requires
        spans_in_order(spans, lo, hi),
    ensures
        spans_in_order(merged(spans), lo, hi),
        no_touching(merged(spans)),
        merged(spans).len() <= spans.len(),
        spans.len() > 0 ==> merged(spans).len() > 0 && merged(spans).last().range.end
            == spans.last().range.end && merged(spans).last().category == spans.last().category,
    decreases spans.len(),
{
    if spans.len() > 0 {
        let init = spans.drop_last();
        let last = spans.last();
        assert(spans_in_order(init, lo, hi)) by {
            assert forall|i: int| 0 <= i < init.len() implies lo <= (
            #[trigger] init[i]).range.start < init[i].range.end <= hi by {
                assert(init[i] == spans[i]);
            }
            assert forall|i: int, j: int| 0 <= i < j < init.len() implies (
            #[trigger] init[i]).range.end <= (#[trigger] init[j]).range.start by {
                assert(init[i] == spans[i] && init[j] == spans[j]);
            }
        }
        lemma_merged(init, lo, hi);
        let m = merged(init);
        if init.len() > 0 {
            assert(init.last() == spans[spans.len() - 2]);
            assert(m.last().range.end <= last.range.start);
        }
        let out = spans_append(m, last);
        if m.len() > 0 && touches(m.last(), last) {
            let joined = span_joined(m.last(), last);
            assert forall|i: int| 0 <= i < out.len() implies lo <= (
            #[trigger] out[i]).range.start < out[i].range.end <= hi by {
                if i < m.len() - 1 {
                    assert(out[i] == m[i]);
                } else {
                    assert(out[i] == joined);
                    assert(m[m.len() - 1] == m.last());
                }
            }
            assert forall|i: int, j: int| 0 <= i < j < out.len() implies (
            #[trigger] out[i]).range.end <= (#[trigger] out[j]).range.start by {
                assert(out[i] == m[i]);
                if j < m.len() - 1 {
                    assert(out[j] == m[j]);
                } else {
                    assert(out[j] == joined);
                    assert(m[i].range.end <= m[m.len() - 1].range.start);
                }
            }
            assert forall|i: int| 0 <= i < out.len() - 1 implies !touches(
                #[trigger] out[i],
                out[i + 1],
            ) by {
                assert(out[i] == m[i]);
                if i + 1 < m.len() - 1 {
                    assert(out[i + 1] == m[i + 1]);
                } else {
                    assert(out[i + 1] == joined);
                    assert(!touches(m[i], m[i + 1]));
                }
            }
        } else {
            assert forall|i: int| 0 <= i < out.len() implies lo <= (
            #[trigger] out[i]).range.start < out[i].range.end <= hi by {
                if i < m.len() {
                    assert(out[i] == m[i]);
                } else {
                    assert(out[i] == last);
                    assert(spans[spans.len() - 1] == last);
                }
            }
            assert forall|i: int, j: int| 0 <= i < j < out.len() implies (
            #[trigger] out[i]).range.end <= (#[trigger] out[j]).range.start by {
                assert(out[i] == m[i]);
                if j < m.len() {
                    assert(out[j] == m[j]);
                } else {
                    assert(out[j] == last);
                    assert(m[i].range.end <= m.last().range.end);
                    if i < m.len() - 1 {
                        assert(m[i].range.end <= m[m.len() - 1].range.start);
                    }
                }
            }
            assert forall|i: int| 0 <= i < out.len() - 1 implies !touches(
                #[trigger] out[i],
                out[i + 1],
            ) by {
                assert(out[i] == m[i]);
                if i + 1 < m.len() {
                    assert(out[i + 1] == m[i + 1]);
                } else {
                    assert(out[i + 1] == last);
                    assert(m[i] == m.last());
                }
            }
        }
    }
}

/// Joins every run of touching spans of the same category into one span.
pub fn merge_adjacent_spans(spans: &mut Vec<CachedSpan>)
    ensures
        final(spans)@ == merged(old(spans)@),
        no_touching(final(spans)@),
{
    let ghost before = spans@;
    proof {
        lemma_merged_no_touching(before);
    }
    if spans.len() < 2 {
        proof {
            if before.len() == 1 {
                assert(before.drop_last() =~= Seq::<CachedSpan>::empty());
                assert(merged(before.drop_last()) =~= Seq::<CachedSpan>::empty());
                assert(merged(before) =~= before);
            } else {
                assert(merged(before) =~= before);
            }
        }
        return ;
    }
    let mut write_idx: usize = 0;
    let mut read_idx: usize = 1;
    proof {
        let one = before.subrange(0, 1);
        assert(one.drop_last() =~= Seq::<CachedSpan>::empty());
        assert(merged(one.drop_last()) =~= Seq::<CachedSpan>::empty());
        assert(merged(one) =~= one);
    }
    while read_idx < spans.len()
        invariant
            spans@.len() == before.len(),
            write_idx < read_idx <= spans@.len(),
            spans@.subrange(0, write_idx + 1) == merged(before.subrange(0, read_idx as int)),
            forall|k: int| read_idx <= k < spans@.len() ==> spans@[k] == before[k],
        decreases spans@.len() - read_idx,
    {
        let ghost kept = spans@.subrange(0, write_idx + 1);
        let ghost upto = before.subrange(0, read_idx + 1);
        proof {
            assert(upto.drop_last() =~= before.subrange(0, read_idx as int));
            assert(upto.last() == spans@[read_idx as int]);
            assert(kept.last() == spans@[write_idx as int]);
        }
        if spans[write_idx].category == spans[read_idx].category && spans[write_idx].range.end
            == spans[read_idx].range.start {
            let joined = CachedSpan {
                range: spans[write_idx].range.start..spans[read_idx].range.end,
                category: spans[write_idx].category,
            };
            spans[write_idx] = joined;
            proof {
                assert(spans@.subrange(0, write_idx + 1) =~= spans_append(kept, upto.last()));
            }
        } else {
            write_idx += 1;
            if write_idx != read_idx {
                let moved = spans[read_idx].clone();
                spans[write_idx] = moved;
            }
            proof {
                assert(spans@.subrange(0, write_idx + 1) =~= spans_append(kept, upto.last()));
            }
        }
        read_idx += 1;
    }
    proof {
        assert(before.subrange(0, read_idx as int) =~= before);
    }
    spans.truncate(write_idx + 1);
}

/// The most bytes that one request parses.
pub const MAX_PARSE_BYTES: usize = 1024 * 1024;

/// The context parsed around a viewport where the caller has no other wish.
pub const DEFAULT_CONTEXT_BYTES: usize = 4096;

/// The line-feed byte.
pub const LF: u8 = 10;

/// The carriage-return byte.
pub const CR: u8 = 13;

/// The offset of the first line feed or carriage return at or after `pos`,
/// or the length of `content` if there is none: where the line's own text ends.
pub open spec fn line_break(content: Seq<u8>, pos: int) -> int
    decreases content.len() - pos,
{
    if pos >= content.len() {
        content.len() as int
    } else if pos >= 0 && (content[pos] == LF || content[pos] == CR) {
        pos
    } else {
        line_break(content, pos + 1)
    }
}

/// The length of the line terminator at `at`: one for a line feed or a lone
/// carriage return, two for a carriage return followed by a line feed, zero
/// where there is no terminator.
pub open spec fn terminator_len(content: Seq<u8>, at: int) -> int {
    if at < 0 || at >= content.len() {
        0
    } else if content[at] == LF {
        1
    } else if content[at] == CR {
        if at + 1 < content.len() && content[at + 1] == LF {
            2
        } else {
            1
        }
    } else {
        0
    }
}

/// The offset just past the line that starts at `pos`, its terminator included.
pub open spec fn line_end(content: Seq<u8>, pos: int) -> int {
    line_break(content, pos) + terminator_len(content, line_break(content, pos))
}

/// The line's text ends within the content and not before the line starts.
pub proof fn lemma_line_break_bounds(content: Seq<u8>, pos: int)
    requires
        0 <= pos <= content.len(),
    ensures
        pos <= line_break(content, pos) <= content.len(),
        line_break(content, pos) < content.len() ==> content[line_break(content, pos)] == LF
            || content[line_break(content, pos)] == CR,
        forall|k: int|
            pos <= k < line_break(content, pos) ==> #[trigger] content[k] != LF && content[k] != CR,
    decreases content.len() - pos,
{
    if pos < content.len() && !(content[pos] == LF || content[pos] == CR) {
        lemma_line_break_bounds(content, pos + 1);
    }
}

/// Finds the line that starts at `pos`: where its text ends and where the
/// line ends, its terminator included.
pub fn scan_line(content: &[u8], pos: usize) -> (bounds: (usize, usize))
    requires
        pos <= content@.len(),
    ensures
        bounds.0 == line_break(content@, pos as int),
        bounds.1 == line_end(content@, pos as int),
        pos <= bounds.0 <= bounds.1 <= content@.len(),
        pos < content@.len() ==> pos < bounds.1,
{
    let mut at = pos;
    while at < content.len() && content[at] != LF && content[at] != CR
        invariant
            pos <= at <= content@.len(),
            line_break(content@, pos as int) == line_break(content@, at as int),
        decreases content@.len() - at,
    {
        at += 1;
    }
    let terminator: usize = if at >= content.len() {
        0
    } else if content[at] == LF {
        1
    } else if at + 1 < content.len() && content[at + 1] == LF {
        2
    } else {
        1
    };
    (at, at + terminator)
}

/// The line as the parser gets it: the line's text, followed by one line
/// feed if the line has a terminator.
pub open spec fn parser_line(content: Seq<u8>, pos: int) -> Seq<u8> {
    let text = content.subrange(pos, line_break(content, pos));
    if terminator_len(content, line_break(content, pos)) > 0 {
        text.push(LF)
    } else {
        text
    }
}

/// Builds the line that starts at `pos` as the parser gets it.
pub fn line_for_parser(content: &[u8], pos: usize) -> (line: Vec<u8>)
    requires
        pos <= content@.len(),
    ensures
        line@ == parser_line(content@, pos as int),
{
    let (break_at, end) = scan_line(content, pos);
    let mut line = vstd::slice::slice_to_vec(vstd::slice::slice_subrange(content, pos, break_at));
    if end > break_at {
        line.push(LF);
    }
    line
}

/// The start of the line that holds offset `at`, the lines counted from
/// the line that starts at `pos`.
pub open spec fn line_holding(content: Seq<u8>, pos: int, at: int) -> int
    decreases content.len() - pos,
    when 0 <= pos
{
    if pos >= content.len() || at < line_end(content, pos) {
        pos
    } else {
        proof {
            lemma_line_break_bounds(content, pos);
        }
        line_holding(content, line_end(content, pos), at)
    }
}

/// Whether the byte at `at` is one that the parser is given: it lies in
/// the text of its line, not in the terminator, and the line as the parser
/// gets it is well-formed UTF-8.
pub open spec fn parsed_offset(content: Seq<u8>, at: int) -> bool {
    let line = line_holding(content, 0, at);
    &&& 0 <= at < content.len()
    &&& at < line_break(content, line)
    &&& vstd::utf8::valid_utf8(parser_line(content, line))
}

/// Whether a span covers the offset `at`.
pub open spec fn covers_offset(span: CachedSpan, at: int) -> bool {
    span.range.start <= at < span.range.end
}

/// Every byte that a span covers is one that the parser was given, where
/// `content` is the parsed window and `base` the offset it starts at.
pub open spec fn spans_cover_parsed(spans: Seq<CachedSpan>, content: Seq<u8>, base: int) -> bool {
    forall|i: int, at: int|
        0 <= i < spans.len() && #[trigger] covers_offset(spans[i], at) ==> parsed_offset(
            content,
            at - base,
        )
}

/// Merged spans cover what the spans covered, and nothing else.
pub proof fn lemma_merged_cover(spans: Seq<CachedSpan>, content: Seq<u8>, base: int)
    requires
        spans_cover_parsed(spans, content, base),
    ensures
        spans_cover_parsed(merged(spans), content, base),
    decreases spans.len(),
{
    if spans.len() > 0 {
        let init = spans.drop_last();
        let last = spans.last();
        assert(spans_cover_parsed(init, content, base)) by {
            assert forall|i: int, at: int| 0 <= i < init.len() && #[trigger] covers_offset(
                init[i],
                at,
            ) implies parsed_offset(content, at - base) by {
                assert(init[i] == spans[i]);
            }
        }
        lemma_merged_cover(init, content, base);
        let m = merged(init);
        let out = spans_append(m, last);
        assert forall|i: int, at: int| 0 <= i < out.len() && #[trigger] covers_offset(
            out[i],
            at,
        ) implies parsed_offset(content, at - base) by {
            assert(spans[spans.len() - 1] == last);
            if m.len() > 0 && touches(m.last(), last) {
                if i < m.len() - 1 {
                    assert(out[i] == m[i]);
                } else {
                    assert(m[m.len() - 1] == m.last());
                    if at < m.last().range.end {
                        assert(covers_offset(m[m.len() - 1], at));
                    } else {
                        assert(covers_offset(spans[spans.len() - 1], at));
                    }
                }
            } else {
                if i < m.len() {
                    assert(out[i] == m[i]);
                } else {
                    assert(covers_offset(spans[spans.len() - 1], at));
                }
            }
        }
    }
}

/// The offsets of a line's text are held by that line, however many lines
/// come before it.
pub proof fn lemma_line_holding(content: Seq<u8>, from: int, pos: int, at: int)
    requires
        0 <= from <= pos <= at,
        at < line_end(content, pos),
        at < content.len(),
        forall|later: int| pos <= later ==> line_holding(content, from, later) == line_holding(
            content,
            pos,
            later,
        ),
    ensures
        line_holding(content, from, at) == pos,
{
}

/// The lines after a line are counted the same from that line as from the
/// line after it.
pub proof fn lemma_line_holding_step(content: Seq<u8>, pos: int)
    requires
        0 <= pos < content.len(),
    ensures
        pos < line_end(content, pos) <= content.len(),
        forall|later: int|
            line_end(content, pos) <= later ==> line_holding(content, pos, later) == line_holding(
                content,
                line_end(content, pos),
                later,
            ),
{
    lemma_line_break_bounds(content, pos);
}

/// What pushing a span of a category does: a category and a range that is
/// not empty add a span, anything else adds nothing.
pub open spec fn span_pushed(
    spans: Seq<CachedSpan>,
    category: Option<HighlightCategory>,
    start: usize,
    end: usize,
) -> Seq<CachedSpan> {
    match category {
        Some(found) => if start < end {
            spans.push(CachedSpan { range: Range { start, end }, category: found })
        } else {
            spans
        },
        None => spans,
    }
}

/// Adds the span `start..end` of the given category, if there is a
/// category and the range is not empty.
pub fn push_span(
    spans: &mut Vec<CachedSpan>,
    category: Option<HighlightCategory>,
    start: usize,
    end: usize,
)
    ensures
        final(spans)@ == span_pushed(old(spans)@, category, start, end),
{
    match category {
        Some(found) => {
            if start < end {
                spans.push(CachedSpan { range: start..end, category: found });
            }
        },
        None => {},
    }
}

/// Pushing a span that starts at or after the end of the spans so far
/// keeps the spans in order.
pub proof fn lemma_span_pushed(
    spans: Seq<CachedSpan>,
    category: Option<HighlightCategory>,
    start: usize,
    end: usize,
    lo: int,
    frontier: int,
)
    requires
        spans_in_order(spans, lo, frontier),
        lo <= frontier <= start,
    ensures
        spans_in_order(
            span_pushed(spans, category, start, end),
            lo,
            if start < end {
                end as int
            } else {
                start as int
            },
        ),
{
    let out = span_pushed(spans, category, start, end);
    let hi = if start < end {
        end as int
    } else {
        start as int
    };
    assert forall|i: int| 0 <= i < out.len() implies lo <= (#[trigger] out[i]).range.start
        < out[i].range.end <= hi by {
        if i < spans.len() {
            assert(out[i] == spans[i]);
        }
    }
    assert forall|i: int, j: int| 0 <= i < j < out.len() implies (#[trigger] out[i]).range.end <= (
    #[trigger] out[j]).range.start by {
        assert(out[i] == spans[i]);
        if j < spans.len() {
            assert(out[j] == spans[j]);
        }
    }
}

/// The scope stack after the first `count` of the changes of a line have
/// been applied to it, one after the other.
pub open spec fn stack_after(stack: ScopeStack, ops: Seq<(usize, ScopeStackOp)>, count: int) -> ScopeStack
    decreases count,
{
    if count <= 0 {
        stack
    } else {
        scope_stack_applied(stack_after(stack, ops, count - 1), ops[count - 1].1)
    }
}

/// The offset in the line's text that the first `count` changes have
/// reached: the furthest of their offsets, each held to the length of the
/// text; zero before the first change. A change whose offset lies before
/// one that came earlier does not take the offset back.
pub open spec fn offset_after(ops: Seq<(usize, ScopeStackOp)>, count: int, content_len: usize) -> usize
    decreases count,
{
    if count <= 0 {
        0
    } else {
        let before = offset_after(ops, count - 1, content_len);
        let here = clamped(ops[count - 1].0, content_len);
        if here > before {
            here
        } else {
            before
        }
    }
}

/// The spans that the first `count` changes of a line give: each change
/// that lies further on than all before it closes the text between the
/// offset reached so far and its own, which gets the category of the stack
/// in effect before the change.
pub open spec fn spans_through(
    stack: ScopeStack,
    ops: Seq<(usize, ScopeStackOp)>,
    count: int,
    line_offset: usize,
    content_len: usize,
) -> Seq<CachedSpan>
    decreases count,
{
    if count <= 0 {
        Seq::empty()
    } else {
        let before = spans_through(stack, ops, count - 1, line_offset, content_len);
        let from = offset_after(ops, count - 1, content_len);
        let to = offset_after(ops, count, content_len);
        if to > from {
            span_pushed(
                before,
                stack_category(scope_stack_names(stack_after(stack, ops, count - 1))),
                (line_offset + from) as usize,
                (line_offset + to) as usize,
            )
        } else {
            before
        }
    }
}

/// The spans of one line: those that its changes give, and one for the
/// text after the last change, in the category of the stack that all the
/// changes leave.
pub open spec fn line_spans(
    stack: ScopeStack,
    ops: Seq<(usize, ScopeStackOp)>,
    line_offset: usize,
    content_len: usize,
) -> Seq<CachedSpan> {
    let through = spans_through(stack, ops, ops.len() as int, line_offset, content_len);
    let from = offset_after(ops, ops.len() as int, content_len);
    if from < content_len {
        span_pushed(
            through,
            stack_category(scope_stack_names(stack_after(stack, ops, ops.len() as int))),
            (line_offset + from) as usize,
            (line_offset + content_len) as usize,
        )
    } else {
        through
    }
}

/// Turns the scope changes of one parsed line into spans. The text between
/// two changes gets the category of the scope stack in effect there; the
/// offsets are held to the line's text, so that no span reaches into the
/// terminator, and to no less than the offsets before them, so that no span
/// reaches back into another; the text after the last change gets a span
/// of its own. `line_offset` is where the line starts in the buffer,
/// `content_len` the length of the line's text.
pub fn collect_line_spans(
    ops: &Vec<(usize, ScopeStackOp)>,
    scopes: &mut ScopeStack,
    line_offset: usize,
    content_len: usize,
    spans: &mut Vec<CachedSpan>,
)
    requires
        line_offset + content_len <= usize::MAX,
        spans_in_order(old(spans)@, 0, line_offset as int),
    ensures
        final(spans)@ == old(spans)@ + line_spans(
            *old(scopes),
            ops@,
            line_offset,
            content_len,
        ),
        *final(scopes) == stack_after(*old(scopes), ops@, ops@.len() as int),
        spans_in_order(final(spans)@, 0, line_offset + content_len),
        old(spans)@.is_prefix_of(final(spans)@),
        forall|i: int|
            old(spans)@.len() <= i < final(spans)@.len() ==> (
            #[trigger] final(spans)@[i]).range.start >= line_offset,
{
    let mut syntect_offset: usize = 0;
    let mut index: usize = 0;
    proof {
        lemma_in_order_widen(spans@, 0, line_offset as int, line_offset as int);
        assert(spans@ =~= old(spans)@ + spans_through(
            *old(scopes),
            ops@,
            0,
            line_offset,
            content_len,
        ));
    }
    while index < ops.len()
        invariant
            index <= ops@.len(),
            syntect_offset <= content_len,
            line_offset + content_len <= usize::MAX,
            syntect_offset == offset_after(ops@, index as int, content_len),
            *scopes == stack_after(*old(scopes), ops@, index as int),
            spans@ == old(spans)@ + spans_through(
                *old(scopes),
                ops@,
                index as int,
                line_offset,
                content_len,
            ),
            spans_in_order(spans@, 0, line_offset + syntect_offset),
            old(spans)@.is_prefix_of(spans@),
            forall|i: int|
                old(spans)@.len() <= i < spans@.len() ==> (#[trigger] spans@[i]).range.start
                    >= line_offset,
        decreases ops@.len() - index,
    {
        let op_offset = ops[index].0;
        let clamped_op_offset = if op_offset < content_len {
            op_offset
        } else {
            content_len
        };
        let ghost through = spans_through(
            *old(scopes),
            ops@,
            index as int,
            line_offset,
            content_len,
        );
        if clamped_op_offset > syntect_offset {
            let category = scope_stack_to_category(scopes);
            let ghost so_far = spans@;
            proof {
                lemma_span_pushed(
                    so_far,
                    category,
                    (line_offset + syntect_offset) as usize,
                    (line_offset + clamped_op_offset) as usize,
                    0,
                    line_offset + syntect_offset,
                );
            }
            push_span(
                spans,
                category,
                line_offset + syntect_offset,
                line_offset + clamped_op_offset,
            );
            proof {
                lemma_span_pushed_after(
                    old(spans)@,
                    through,
                    category,
                    (line_offset + syntect_offset) as usize,
                    (line_offset + clamped_op_offset) as usize,
                );
            }
            syntect_offset = clamped_op_offset;
        }
        apply_scope_op(scopes, &ops[index].1);
        index += 1;
    }
    if syntect_offset < content_len {
        let category = scope_stack_to_category(scopes);
        let ghost through = spans_through(
            *old(scopes),
            ops@,
            ops@.len() as int,
            line_offset,
            content_len,
        );
        proof {
            lemma_span_pushed(
                spans@,
                category,
                (line_offset + syntect_offset) as usize,
                (line_offset + content_len) as usize,
                0,
                line_offset + syntect_offset,
            );
        }
        push_span(spans, category, line_offset + syntect_offset, line_offset + content_len);
        proof {
            lemma_span_pushed_after(
                old(spans)@,
                through,
                category,
                (line_offset + syntect_offset) as usize,
                (line_offset + content_len) as usize,
            );
        }
    }
    proof {
        lemma_in_order_widen(
            spans@,
            0,
            if syntect_offset < content_len {
                line_offset + content_len
            } else {
                line_offset + syntect_offset
            },
            line_offset + content_len,
        );
    }
}

/// Pushing a span onto spans that follow others pushes it onto the whole.
pub proof fn lemma_span_pushed_after(
    first: Seq<CachedSpan>,
    then: Seq<CachedSpan>,
    category: Option<HighlightCategory>,
    start: usize,
    end: usize,
)
    ensures
        span_pushed(first + then, category, start, end) == first + span_pushed(
            then,
            category,
            start,
            end,
        ),
{
    assert(span_pushed(first + then, category, start, end) =~= first + span_pushed(
        then,
        category,
        start,
        end,
    ));
}

/// The smaller of an offset and a length.
pub open spec fn clamped(offset: usize, len: usize) -> usize {
    if offset < len {
        offset
    } else {
        len
    }
}

/// Spans in order within bounds are in order within wider bounds.
pub proof fn lemma_in_order_widen(spans: Seq<CachedSpan>, lo: int, hi: int, wider: int)
    requires
        spans_in_order(spans, lo, hi),
        hi <= wider,
    ensures
        spans_in_order(spans, lo, wider),
{
}

/// The spans of the lines of a window, from the line that starts at `pos`
/// on, before they are merged. `state` is the parser's state and `stack`
/// the scope stack at the start of that line, `base` the offset in the
/// buffer at which the window starts.
///
/// A line that is not well-formed UTF-8 as the parser would get it gives
/// no spans and leaves state and stack as they are. A line that the parser
/// fails on gives no spans and changes the state alone. Any other line
/// gives the spans of its changes, placed where the line lies in the
/// buffer, and hands on the state and the stack that its changes leave.
/// The next line starts where the line ends, its terminator included.
pub open spec fn region_spans(
    content: Seq<u8>,
    pos: int,
    state: ParseState,
    stack: ScopeStack,
    set: SyntaxSet,
    base: int,
) -> Seq<CachedSpan>
    decreases content.len() - pos,
    when 0 <= pos
{
    if pos >= content.len() {
        Seq::empty()
    } else {
        proof {
            lemma_line_break_bounds(content, pos);
        }
        let next = line_end(content, pos);
        let line = parser_line(content, pos);
        if !vstd::utf8::valid_utf8(line) {
            region_spans(content, next, state, stack, set, base)
        } else {
            let parsed = parsed_line(state, vstd::utf8::decode_utf8(line), set);
            match parsed.1 {
                Some(ops) => line_spans(
                    stack,
                    ops,
                    (base + pos) as usize,
                    (line_break(content, pos) - pos) as usize,
                ) + region_spans(
                    content,
                    next,
                    parsed.0,
                    stack_after(stack, ops, ops.len() as int),
                    set,
                    base,
                ),
                None => region_spans(content, next, parsed.0, stack, set, base),
            }
        }
    }
}

/// The number of lines of a window, from the line that starts at `pos` on,
/// that are not well-formed UTF-8 as the parser would get them.
pub open spec fn lines_skipped(content: Seq<u8>, pos: int) -> nat
    decreases content.len() - pos,
    when 0 <= pos
{
    if pos >= content.len() {
        0
    } else {
        proof {
            lemma_line_break_bounds(content, pos);
        }
        let rest = lines_skipped(content, line_end(content, pos));
        if !vstd::utf8::valid_utf8(parser_line(content, pos)) {
            rest + 1
        } else {
            rest
        }
    }
}

/// The number of lines of a window, from the line that starts at `pos` on,
/// that the parser fails on, where `state` is the parser's state at the
/// start of that line.
pub open spec fn lines_failed(content: Seq<u8>, pos: int, state: ParseState, set: SyntaxSet) -> nat
    decreases content.len() - pos,
    when 0 <= pos
{
    if pos >= content.len() {
        0
    } else {
        proof {
            lemma_line_break_bounds(content, pos);
        }
        let next = line_end(content, pos);
        let line = parser_line(content, pos);
        if !vstd::utf8::valid_utf8(line) {
            lines_failed(content, next, state, set)
        } else {
            let parsed = parsed_line(state, vstd::utf8::decode_utf8(line), set);
            let rest = lines_failed(content, next, parsed.0, set);
            if parsed.1 is None {
                rest + 1
            } else {
                rest
            }
        }
    }
}

/// Whether the two counts are those of parsing a window with the grammar
/// `name` of a set: the lines that are not well-formed UTF-8 and the lines
/// that the parser fails on; both zero where the set has no such grammar.
pub open spec fn region_counted(
    skipped: usize,
    failed: usize,
    window: Seq<u8>,
    set: SyntaxSet,
    name: Seq<char>,
) -> bool {
    match started_state(set, name) {
        Some(state) => skipped == lines_skipped(window, 0) && failed == lines_failed(
            window,
            0,
            state,
            set,
        ),
        None => skipped == 0 && failed == 0,
    }
}

/// Whether `spans` are what parsing a window with the grammar `name` of a
/// set gives: nothing where the set has no such grammar, else the merged
/// spans of the window's lines, parsed from a fresh state with a scope
/// stack that starts out empty.
pub open spec fn region_parsed(
    spans: Seq<CachedSpan>,
    window: Seq<u8>,
    base: int,
    set: SyntaxSet,
    name: Seq<char>,
) -> bool {
    match started_state(set, name) {
        Some(state) => exists|stack: ScopeStack|
            (#[trigger] scope_stack_names(stack)).len() == 0 && spans == merged(
                region_spans(window, 0, state, stack, set, base),
            ),
        None => spans.len() == 0,
    }
}

/// Whether a span reaches into the viewport `start..end`.
pub open spec fn overlaps(span: CachedSpan, start: usize, end: usize) -> bool {
    span.range.start < end && span.range.end > start
}

/// A cached span in the colour the theme gives to its category.
pub open spec fn colored(span: CachedSpan, theme: Theme) -> HighlightSpan {
    HighlightSpan { range: span.range, color: span.category.spec_color(theme) }
}

/// The spans that reach into the viewport, in their order, each in the
/// colour of its category.
pub open spec fn visible(spans: Seq<CachedSpan>, start: usize, end: usize, theme: Theme) -> Seq<
    HighlightSpan,
>
    decreases spans.len(),
{
    if spans.len() == 0 {
        Seq::empty()
    } else if overlaps(spans.last(), start, end) {
        visible(spans.drop_last(), start, end, theme).push(colored(spans.last(), theme))
    } else {
        visible(spans.drop_last(), start, end, theme)
    }
}

/// The coloured spans are not empty, lie within `lo..hi`, come in order
/// without overlapping, and each reaches into the viewport `start..end`.
pub open spec fn highlights_in_order(
    spans: Seq<HighlightSpan>,
    lo: int,
    hi: int,
    start: usize,
    end: usize,
) -> bool {
    &&& forall|i: int|
        0 <= i < spans.len() ==> lo <= (#[trigger] spans[i]).range.start < spans[i].range.end
            <= hi
    &&& forall|i: int|
        0 <= i < spans.len() ==> (#[trigger] spans[i]).range.start < end && spans[i].range.end
            > start
    &&& forall|i: int, j: int|
        0 <= i < j < spans.len() ==> (#[trigger] spans[i]).range.end <= (
        #[trigger] spans[j]).range.start
}

/// The visible part of spans in order is in order, within the same bounds,
/// and holds no span that ends before a later one of the given spans ends.
pub proof fn lemma_visible(
    spans: Seq<CachedSpan>,
    lo: int,
    hi: int,
    start: usize,
    end: usize,
    theme: Theme,
)
    requires
        spans_in_order(spans, lo, hi),
    ensures
        highlights_in_order(visible(spans, start, end, theme), lo, hi, start, end),
        visible(spans, start, end, theme).len() <= spans.len(),
        forall|i: int|
            0 <= i < visible(spans, start, end, theme).len() && spans.len() > 0 ==> (
            #[trigger] visible(spans, start, end, theme)[i]).range.end
                <= spans.last().range.end,
    decreases spans.len(),
{
    if spans.len() > 0 {
        let init = spans.drop_last();
        let last = spans.last();
        assert(spans_in_order(init, lo, hi)) by {
            assert forall|i: int| 0 <= i < init.len() implies lo <= (
            #[trigger] init[i]).range.start < init[i].range.end <= hi by {
                assert(init[i] == spans[i]);
            }
            assert forall|i: int, j: int| 0 <= i < j < init.len() implies (
            #[trigger] init[i]).range.end <= (#[trigger] init[j]).range.start by {
                assert(init[i] == spans[i] && init[j] == spans[j]);
            }
        }
        lemma_visible(init, lo, hi, start, end, theme);
        let seen = visible(init, start, end, theme);
        let out = visible(spans, start, end, theme);
        assert(spans[spans.len() - 1] == last);
        if init.len() > 0 {
            assert(init.last() == spans[spans.len() - 2]);
            assert(init.last().range.end <= last.range.start);
        }
        assert forall|i: int| 0 <= i < out.len() implies (#[trigger] out[i]).range.end
            <= last.range.end by {
            if i < seen.len() {
                assert(out[i] == seen[i]);
            }
        }
        assert forall|i: int| 0 <= i < out.len() implies lo <= (#[trigger] out[i]).range.start
            < out[i].range.end <= hi by {
            if i < seen.len() {
                assert(out[i] == seen[i]);
            }
        }
        assert forall|i: int| 0 <= i < out.len() implies (#[trigger] out[i]).range.start < end
            && out[i].range.end > start by {
            if i < seen.len() {
                assert(out[i] == seen[i]);
            }
        }
        assert forall|i: int, j: int| 0 <= i < j < out.len() implies (
        #[trigger] out[i]).range.end <= (#[trigger] out[j]).range.start by {
            assert(out[i] == seen[i]);
            if j < seen.len() {
                assert(out[j] == seen[j]);
            }
        }
    }
}

/// Spans that reach into the viewport and lie within a parsed window that
/// does not go beyond the viewport lie within the viewport.
pub proof fn lemma_highlights_within_viewport(
    spans: Seq<HighlightSpan>,
    from: int,
    to: int,
    start: usize,
    end: usize,
)
    requires
        highlights_in_order(spans, from, to, start, end),
        start <= from,
        to <= end,
    ensures
        highlights_in_order(spans, start as int, end as int, start, end),
{
}

/// Picks the spans that reach into the viewport and gives each the colour
/// of its category.
pub fn visible_spans(spans: &Vec<CachedSpan>, start: usize, end: usize, theme: &Theme) -> (shown:
    Vec<HighlightSpan>)
    ensures
        shown@ == visible(spans@, start, end, *theme),
{
    let mut shown = Vec::new();
    let mut index: usize = 0;
    proof {
        assert(spans@.subrange(0, 0) =~= Seq::<CachedSpan>::empty());
    }
    while index < spans.len()
        invariant
            index <= spans@.len(),
            shown@ == visible(spans@.subrange(0, index as int), start, end, *theme),
        decreases spans@.len() - index,
    {
        proof {
            let upto = spans@.subrange(0, index + 1);
            assert(upto.drop_last() =~= spans@.subrange(0, index as int));
            assert(upto.last() == spans@[index as int]);
        }
        if spans[index].range.start < end && spans[index].range.end > start {
            shown.push(
                HighlightSpan {
                    range: spans[index].range.start..spans[index].range.end,
                    color: spans[index].category.color(theme),
                },
            );
        }
        index += 1;
    }
    proof {
        assert(spans@.subrange(0, index as int) =~= spans@);
    }
    shown
}

/// Where the parsed window ends: the viewport's end plus the context,
/// held to the length of the buffer.
pub open spec fn window_end(total: int, viewport_end: int, context_bytes: int) -> int {
    if viewport_end + context_bytes < total {
        viewport_end + context_bytes
    } else {
        total
    }
}

/// Where the parsed window starts: the viewport's start less the context,
/// held to zero and to the window's end.
pub open spec fn window_start(
    total: int,
    viewport_start: int,
    viewport_end: int,
    context_bytes: int,
) -> int {
    let start = if viewport_start >= context_bytes {
        viewport_start - context_bytes
    } else {
        0
    };
    if start < window_end(total, viewport_end, context_bytes) {
        start
    } else {
        window_end(total, viewport_end, context_bytes)
    }
}

/// The set of grammars that comes with the engine. Its grammars are ones
/// the engine can run, so that a highlighter can be made for any of them.
pub fn default_grammars() -> (set: Arc<SyntaxSet>)
    ensures
        grammars_loaded(*set),
{
    Arc::new(load_default_grammars())
}

/// What parsing a window gave: the spans, and how many lines gave none
/// because they were not well-formed UTF-8 or because the parser failed
/// on them.
#[derive(Debug)]
pub struct RegionReport {
    pub spans: Vec<CachedSpan>,
    pub skipped_lines: usize,
    pub failed_lines: usize,
}

/// The spans of one parsed window, and the lines of it that gave none.
#[derive(Debug)]
struct TextMateCache {
    range: Range<usize>,
    spans: Vec<CachedSpan>,
    skipped_lines: usize,
    failed_lines: usize,
}

/// The window that is parsed for a viewport: the viewport and
/// `context_bytes` on either side of it, held to the buffer.
pub fn parse_window(
    total: usize,
    viewport_start: usize,
    viewport_end: usize,
    context_bytes: usize,
) -> (window: (usize, usize))
    ensures
        window.0 == window_start(
            total as int,
            viewport_start as int,
            viewport_end as int,
            context_bytes as int,
        ),
        window.1 == window_end(total as int, viewport_end as int, context_bytes as int),
        window.0 <= window.1 <= total,
{
    let parse_end = if context_bytes < total && viewport_end < total - context_bytes {
        viewport_end + context_bytes
    } else {
        total
    };
    let parse_start = if viewport_start >= context_bytes {
        viewport_start - context_bytes
    } else {
        0
    };
    let parse_start = if parse_start < parse_end {
        parse_start
    } else {
        parse_end
    };
    (parse_start, parse_end)
}

/// A highlighter for one grammar of a shared set of grammars. It keeps the
/// spans of the window it parsed last.
pub struct TextMateHighlighter {
    syntax_name: String,
    syntax_set: Arc<SyntaxSet>,
    cache: Option<TextMateCache>,
    last_buffer_len: usize,
}

impl TextMateHighlighter {
    /// The window whose spans are cached, as its start and its end.
    pub closed spec fn cached_range(&self) -> Option<(usize, usize)> {
        match self.cache {
            Some(cache) => Some((cache.range.start, cache.range.end)),
            None => None,
        }
    }

    /// The cached spans; none where nothing is cached.
    pub closed spec fn cached_spans(&self) -> Seq<CachedSpan> {
        match self.cache {
            Some(cache) => cache.spans@,
            None => Seq::empty(),
        }
    }

    /// The length the buffer had when the cache was filled.
    pub closed spec fn cached_buffer_len(&self) -> usize {
        self.last_buffer_len
    }

    /// The number of lines of the cached window that were not well-formed
    /// UTF-8; zero where nothing is cached.
    pub closed spec fn cached_skipped(&self) -> usize {
        match self.cache {
            Some(cache) => cache.skipped_lines,
            None => 0,
        }
    }

    /// The number of lines of the cached window that the parser failed on;
    /// zero where nothing is cached.
    pub closed spec fn cached_failed(&self) -> usize {
        match self.cache {
            Some(cache) => cache.failed_lines,
            None => 0,
        }
    }

    /// The name of the grammar.
    pub closed spec fn grammar_name(&self) -> Seq<char> {
        self.syntax_name@
    }

    /// The set of grammars.
    pub closed spec fn grammars(&self) -> SyntaxSet {
        *self.syntax_set
    }

    /// The grammars are ones the engine can run, the cached window lies
    /// within the buffer it was parsed from, and the cached spans lie within
    /// the window, in order, merged.
    pub open spec fn wf(&self) -> bool {
        &&& grammars_loaded(self.grammars())
        &&& match self.cached_range() {
            Some((start, end)) => {
                &&& start <= end <= self.cached_buffer_len()
                &&& spans_in_order(self.cached_spans(), start as int, end as int)
                &&& no_touching(self.cached_spans())
            },
            None => true,
        }
    }

    /// Whether the cache answers a request for the viewport `start..end` of
    /// a buffer of `total` bytes.
    pub open spec fn covers(&self, start: usize, end: usize, total: usize) -> bool {
        self.cached_range() matches Some((from, to)) && from <= start && to >= end
            && self.cached_buffer_len() == total
    }

    /// Whether two highlighters hold the same cache.
    pub open spec fn same_cache(&self, other: &Self) -> bool {
        &&& self.cached_range() == other.cached_range()
        &&& self.cached_spans() == other.cached_spans()
        &&& self.cached_buffer_len() == other.cached_buffer_len()
        &&& self.cached_skipped() == other.cached_skipped()
        &&& self.cached_failed() == other.cached_failed()
    }

    /// Whether the cache answers a request for the viewport
    /// `viewport_start..viewport_end` of a buffer of `total` bytes.
    pub fn is_cached(&self, viewport_start: usize, viewport_end: usize, total: usize) -> (hit: bool)
        ensures
            hit == self.covers(viewport_start, viewport_end, total),
    {
        match &self.cache {
            Some(cache) => cache.range.start <= viewport_start && cache.range.end >= viewport_end
                && self.last_buffer_len == total,
            None => false,
        }
    }

    /// The number of lines of the cached window that gave no spans because
    /// they were not well-formed UTF-8.
    pub fn skipped_lines(&self) -> (lines: usize)
        ensures
            lines == self.cached_skipped(),
    {
        match &self.cache {
            Some(cache) => cache.skipped_lines,
            None => 0,
        }
    }

    /// The number of lines of the cached window that gave no spans because
    /// the parser failed on them.
    pub fn failed_lines(&self) -> (lines: usize)
        ensures
            lines == self.cached_failed(),
    {
        match &self.cache {
            Some(cache) => cache.failed_lines,
            None => 0,
        }
    }

    /// A highlighter for the grammar of the given name, with nothing
    /// cached. The set must be one of grammars the engine can run, such as
    /// `default_grammars` gives.
    pub fn new(syntax_name: &str, syntax_set: Arc<SyntaxSet>) -> (highlighter: Self)
        requires
            grammars_loaded(*syntax_set),
        ensures
            highlighter.wf(),
            highlighter.cached_range() is None,
            highlighter.grammar_name() == syntax_name@,
            highlighter.grammars() == *syntax_set,
    {
        Self {
            syntax_name: syntax_name.to_owned(),
            syntax_set,
            cache: None,
            last_buffer_len: 0,
        }
    }

    /// A highlighter for the grammar of the given name, if the set has one.
    pub fn from_syntax_name(name: &str, syntax_set: Arc<SyntaxSet>) -> (highlighter: Option<Self>)
        requires
            grammars_loaded(*syntax_set),
        ensures
            highlighter is Some <==> syntax_set_names(*syntax_set).contains(name@),
            highlighter matches Some(made) ==> made.wf() && made.cached_range() is None
                && made.grammar_name() == name@ && made.grammars() == *syntax_set,
    {
        match start_parse(&*syntax_set, name) {
            Some(_) => Some(Self::new(name, syntax_set)),
            None => None,
        }
    }

    /// The coloured spans that reach into the viewport
    /// `viewport_start..viewport_end`.
    ///
    /// An empty viewport has no spans. A cache that covers the viewport and
    /// was filled from a buffer of the same length answers the request. Else
    /// the viewport and `context_bytes` on either side of it are parsed and
    /// the cache is replaced, unless that window is larger than
    /// `MAX_PARSE_BYTES`: then there are no spans and the cache stays.
    pub fn highlight_viewport(
        &mut self,
        buffer: &TextBuffer,
        viewport_start: usize,
        viewport_end: usize,
        theme: &Theme,
        context_bytes: usize,
    ) -> (shown: Vec<HighlightSpan>)
        requires
            old(self).wf(),
            buffer.wf(),
        ensures
            final(self).wf(),
            final(self).grammar_name() == old(self).grammar_name(),
            final(self).grammars() == old(self).grammars(),
            highlights_in_order(shown@, 0, buffer@.len() as int, viewport_start, viewport_end),
            final(self).cached_range() matches Some((from, to)) ==> highlights_in_order(
                shown@,
                from as int,
                to as int,
                viewport_start,
                viewport_end,
            ),
            ({
                let total = buffer@.len() as int;
                let from = window_start(
                    total,
                    viewport_start as int,
                    viewport_end as int,
                    context_bytes as int,
                );
                let to = window_end(total, viewport_end as int, context_bytes as int);
                if viewport_start >= viewport_end {
                    shown@.len() == 0 && final(self).same_cache(old(self))
                } else if old(self).covers(viewport_start, viewport_end, buffer@.len() as usize) {
                    final(self).same_cache(old(self)) && shown@ == visible(
                        old(self).cached_spans(),
                        viewport_start,
                        viewport_end,
                        *theme,
                    )
                } else if to - from > MAX_PARSE_BYTES {
                    shown@.len() == 0 && final(self).same_cache(old(self))
                } else {
                    &&& final(self).cached_range() == Some((from as usize, to as usize))
                    &&& final(self).cached_buffer_len() == total
                    &&& region_parsed(
                        final(self).cached_spans(),
                        buffer@.subrange(from, to),
                        from,
                        old(self).grammars(),
                        old(self).grammar_name(),
                    )
                    &&& region_counted(
                        final(self).cached_skipped(),
                        final(self).cached_failed(),
                        buffer@.subrange(from, to),
                        old(self).grammars(),
                        old(self).grammar_name(),
                    )
                    &&& spans_cover_parsed(
                        final(self).cached_spans(),
                        buffer@.subrange(from, to),
                        from,
                    )
                    &&& shown@ == visible(
                        final(self).cached_spans(),
                        viewport_start,
                        viewport_end,
                        *theme,
                    )
                }
            }),
    {
        if viewport_start >= viewport_end {
            return Vec::new();
        }
        let total = buffer.total_bytes();
        if self.is_cached(viewport_start, viewport_end, total) {
            match &self.cache {
                Some(cache) => {
                    proof {
                        lemma_visible(
                            cache.spans@,
                            cache.range.start as int,
                            cache.range.end as int,
                            viewport_start,
                            viewport_end,
                            *theme,
                        );
                    }
                    return visible_spans(&cache.spans, viewport_start, viewport_end, theme);
                },
                None => {},
            }
        }
        let (parse_start, parse_end) = parse_window(
            total,
            viewport_start,
            viewport_end,
            context_bytes,
        );
        if parse_end - parse_start > MAX_PARSE_BYTES {
            return Vec::new();
        }
        let report = self.parse_region_report(buffer, parse_start, parse_end);
        proof {
            lemma_visible(
                report.spans@,
                parse_start as int,
                parse_end as int,
                viewport_start,
                viewport_end,
                *theme,
            );
        }
        let shown = visible_spans(&report.spans, viewport_start, viewport_end, theme);
        self.cache = Some(
            TextMateCache {
                range: parse_start..parse_end,
                spans: report.spans,
                skipped_lines: report.skipped_lines,
                failed_lines: report.failed_lines,
            },
        );
        self.last_buffer_len = total;
        shown
    }

    /// Parses the bytes `start_byte..end_byte` of the buffer line by line
    /// and returns the spans found, merged. A line keeps its true length in
    /// the buffer, whatever its terminator, so that the spans of the lines
    /// after it lie where the lines lie. A line that is not well-formed
    /// UTF-8, or that the parser fails on, yields no spans. A set that lacks
    /// the grammar yields none at all.
    pub fn parse_region(&self, buffer: &TextBuffer, start_byte: usize, end_byte: usize) -> (spans:
        Vec<CachedSpan>)
        requires
            self.wf(),
            buffer.wf(),
            start_byte <= end_byte <= buffer@.len(),
        ensures
            region_parsed(
                spans@,
                buffer@.subrange(start_byte as int, end_byte as int),
                start_byte as int,
                self.grammars(),
                self.grammar_name(),
            ),
            spans_in_order(spans@, start_byte as int, end_byte as int),
            no_touching(spans@),
            spans_cover_parsed(
                spans@,
                buffer@.subrange(start_byte as int, end_byte as int),
                start_byte as int,
            ),
            !syntax_set_names(self.grammars()).contains(self.grammar_name()) ==> spans@.len() == 0,
    {
        self.parse_region_report(buffer, start_byte, end_byte).spans
    }

    /// Parses the bytes `start_byte..end_byte` of the buffer line by line
    /// and returns the spans found, merged, with the number of lines that
    /// gave none for each of the two reasons. A line keeps its true length in
    /// the buffer, whatever its terminator, so that the spans of the lines
    /// after it lie where the lines lie. A line that is not well-formed
    /// UTF-8, or that the parser fails on, yields no spans. A set that lacks
    /// the grammar yields none at all.
    pub fn parse_region_report(&self, buffer: &TextBuffer, start_byte: usize, end_byte: usize) -> (report:
        RegionReport)
        requires
            self.wf(),
            buffer.wf(),
            start_byte <= end_byte <= buffer@.len(),
        ensures
            region_counted(
                report.skipped_lines,
                report.failed_lines,
                buffer@.subrange(start_byte as int, end_byte as int),
                self.grammars(),
                self.grammar_name(),
            ),
            region_parsed(
                report.spans@,
                buffer@.subrange(start_byte as int, end_byte as int),
                start_byte as int,
                self.grammars(),
                self.grammar_name(),
            ),
            spans_in_order(report.spans@, start_byte as int, end_byte as int),
            no_touching(report.spans@),
            spans_cover_parsed(
                report.spans@,
                buffer@.subrange(start_byte as int, end_byte as int),
                start_byte as int,
            ),
            !syntax_set_names(self.grammars()).contains(self.grammar_name()) ==> report.spans@.len() == 0,
    {
        let mut spans: Vec<CachedSpan> = Vec::new();
        let mut state = match start_parse(&*self.syntax_set, self.syntax_name.as_str()) {
            Some(state) => state,
            None => {
                return RegionReport { spans, skipped_lines: 0, failed_lines: 0 };
            },
        };
        let ghost first_state = state;
        proof {
            crate::primitives::grammar::lemma_started_state_fits(
                self.grammars(),
                self.grammar_name(),
            );
        }
        let mut skipped_lines: usize = 0;
        let mut failed_lines: usize = 0;
        proof {
            assert(text_slice(buffer@, start_byte as int, end_byte - start_byte) =~= buffer@.subrange(
                start_byte as int,
                end_byte as int,
            ));
        }
        let content = buffer.get_text_range(start_byte, end_byte - start_byte);
        let mut pos: usize = 0;
        let mut current_scopes = new_scope_stack();
        let ghost first_scopes = current_scopes;
        let ghost whole = region_spans(
            content@,
            0,
            first_state,
            first_scopes,
            self.grammars(),
            start_byte as int,
        );
        proof {
            assert(spans@ + whole =~= whole);
        }
        while pos < content.len()
            invariant
                pos <= content@.len(),
                content@.len() == end_byte - start_byte,
                start_byte <= end_byte <= buffer@.len(),
                content@ == buffer@.subrange(start_byte as int, end_byte as int),
                grammars_loaded(self.grammars()),
                state_fits_set(state, *self.syntax_set),
                skipped_lines + failed_lines <= pos,
                lines_skipped(content@, 0) == skipped_lines + lines_skipped(content@, pos as int),
                lines_failed(content@, 0, first_state, self.grammars()) == failed_lines
                    + lines_failed(content@, pos as int, state, self.grammars()),
                whole == spans@ + region_spans(
                    content@,
                    pos as int,
                    state,
                    current_scopes,
                    self.grammars(),
                    start_byte as int,
                ),
                spans_in_order(spans@, 0, start_byte + pos),
                forall|i: int|
                    0 <= i < spans@.len() ==> (#[trigger] spans@[i]).range.start >= start_byte,
                spans_cover_parsed(spans@, content@, start_byte as int),
                forall|later: int|
                    pos <= later ==> line_holding(content@, 0, later) == line_holding(
                        content@,
                        pos as int,
                        later,
                    ),
            decreases content@.len() - pos,
        {
            let (break_at, line_end) = scan_line(content.as_slice(), pos);
            let line = line_for_parser(content.as_slice(), pos);
            let ghost rest_before = region_spans(
                content@,
                pos as int,
                state,
                current_scopes,
                self.grammars(),
                start_byte as int,
            );
            let ghost state_before = state;
            let ghost scopes_before = current_scopes;
            proof {
                lemma_in_order_widen(spans@, 0, start_byte + pos, start_byte + line_end);
                lemma_line_holding_step(content@, pos as int);
            }
            match utf8_text(line.as_slice()) {
                Some(line_for_syntect) => {
                    proof {
                        vstd::utf8::encode_utf8_decode_utf8(line_for_syntect@);
                        crate::primitives::grammar::lemma_parsed_state_fits(
                            state,
                            line_for_syntect@,
                            self.grammars(),
                        );
                    }
                    match parse_line(&mut state, line_for_syntect, &*self.syntax_set) {
                        Ok(ops) => {
                            let ghost before = spans@;
                            collect_line_spans(
                                &ops,
                                &mut current_scopes,
                                start_byte + pos,
                                break_at - pos,
                                &mut spans,
                            );
                            proof {
                                assert forall|i: int| 0 <= i < spans@.len() implies (
                                #[trigger] spans@[i]).range.start >= start_byte by {
                                    if i < before.len() {
                                        assert(spans@[i] == before[i]);
                                    }
                                }
                                assert forall|i: int, at: int|
                                    0 <= i < spans@.len() && #[trigger] covers_offset(
                                        spans@[i],
                                        at,
                                    ) implies parsed_offset(content@, at - start_byte) by {
                                    if i < before.len() {
                                        assert(spans@[i] == before[i]);
                                    } else {
                                        lemma_line_holding(
                                            content@,
                                            0,
                                            pos as int,
                                            at - start_byte,
                                        );
                                    }
                                }
                                lemma_in_order_widen(
                                    spans@,
                                    0,
                                    start_byte + break_at,
                                    start_byte + line_end,
                                );
                                let of_line = line_spans(
                                    scopes_before,
                                    ops@,
                                    (start_byte + pos) as usize,
                                    (break_at - pos) as usize,
                                );
                                let rest_after = region_spans(
                                    content@,
                                    line_end as int,
                                    state,
                                    current_scopes,
                                    self.grammars(),
                                    start_byte as int,
                                );
                                assert(rest_before == of_line + rest_after);
                                assert((before + of_line) + rest_after =~= before + (of_line
                                    + rest_after));
                            }
                        },
                        Err(_) => {
                            failed_lines += 1;
                        },
                    }
                },
                None => {
                    skipped_lines += 1;
                },
            }
            pos = line_end;
        }
        proof {
            assert(spans@ + Seq::<CachedSpan>::empty() =~= spans@);
            assert(spans_in_order(spans@, start_byte as int, end_byte as int));
            lemma_merged(spans@, start_byte as int, end_byte as int);
            lemma_merged_cover(spans@, content@, start_byte as int);
            assert(scope_stack_names(first_scopes).len() == 0);
        }
        merge_adjacent_spans(&mut spans);
        RegionReport { spans, skipped_lines, failed_lines }
    }

    /// Drops the cache if the edited range reaches into the cached window.
    pub fn invalidate_range(&mut self, edit_range: Range<usize>)
        requires
            old(self).wf(),
        ensures
            final(self).wf(),
            final(self).grammar_name() == old(self).grammar_name(),
            final(self).grammars() == old(self).grammars(),
            if old(self).cached_range() matches Some((from, to)) && edit_range.start < to
                && edit_range.end > from {
                final(self).cached_range() is None
            } else {
                final(self).same_cache(old(self))
            },
    {
        let drop = match &self.cache {
            Some(cache) => edit_range.start < cache.range.end && edit_range.end > cache.range.start,
            None => false,
        };
        if drop {
            self.cache = None;
        }
    }

    /// Drops the cache.
    pub fn invalidate_all(&mut self)
        requires
            old(self).wf(),
        ensures
            final(self).wf(),
            final(self).cached_range() is None,
            final(self).grammar_name() == old(self).grammar_name(),
            final(self).grammars() == old(self).grammars(),
    {
        self.cache = None;
    }

    /// The name of the grammar.
    pub fn syntax_name(&self) -> (name: &str)
        ensures
            name@ == self.grammar_name(),
    {
        self.syntax_name.as_str()
    }
}

} // verus!
