use editor_core::primitives::highlighter::{Color, HighlightCategory, HighlightSpan, Theme};
use editor_core::primitives::textmate_highlighter::{
    collect_line_spans, default_grammars, line_for_parser, lowercase_scope_to_category,
    merge_adjacent_spans, parse_window, push_span, scan_line, scope_stack_to_category,
    scope_to_category, visible_spans, CachedSpan, TextMateHighlighter, DEFAULT_CONTEXT_BYTES,
    MAX_PARSE_BYTES,
};
use editor_core::text_buffer::TextBuffer;
use std::str::FromStr;
use std::sync::Arc;
use syntect::parsing::{Scope, ScopeStack, ScopeStackOp, SyntaxSet};


#[test]
fn test_scope_to_category_comments() {
    assert_eq!(
        scope_to_category("comment.line"),
        Some(HighlightCategory::Comment)
    );
    assert_eq!(
        scope_to_category("comment.block"),
        Some(HighlightCategory::Comment)
    );
    assert_eq!(
        scope_to_category("comment.line.double-slash.rust"),
        Some(HighlightCategory::Comment)
    );
}

#[test]
fn test_scope_to_category_strings() {
    assert_eq!(
        scope_to_category("string.quoted.double"),
        Some(HighlightCategory::String)
    );
    assert_eq!(
        scope_to_category("string.quoted.single.python"),
        Some(HighlightCategory::String)
    );
}

#[test]
fn test_scope_to_category_keywords() {
    assert_eq!(
        scope_to_category("keyword.control.if"),
        Some(HighlightCategory::Keyword)
    );
    assert_eq!(
        scope_to_category("keyword.control.loop.rust"),
        Some(HighlightCategory::Keyword)
    );
}

#[test]
fn test_scope_to_category_operators() {
    assert_eq!(
        scope_to_category("keyword.operator.arithmetic"),
        Some(HighlightCategory::Operator)
    );
    assert_eq!(
        scope_to_category("punctuation.separator"),
        Some(HighlightCategory::Operator)
    );
}

#[test]
fn test_scope_to_category_functions() {
    assert_eq!(
        scope_to_category("entity.name.function"),
        Some(HighlightCategory::Function)
    );
    assert_eq!(
        scope_to_category("support.function.builtin"),
        Some(HighlightCategory::Function)
    );
}

#[test]
fn test_scope_to_category_types() {
    assert_eq!(
        scope_to_category("entity.name.type"),
        Some(HighlightCategory::Type)
    );
    assert_eq!(
        scope_to_category("storage.type.rust"),
        Some(HighlightCategory::Type)
    );
    assert_eq!(
        scope_to_category("support.class"),
        Some(HighlightCategory::Type)
    );
}

#[test]
fn test_scope_to_category_numbers() {
    assert_eq!(
        scope_to_category("constant.numeric.integer"),
        Some(HighlightCategory::Number)
    );
    assert_eq!(
        scope_to_category("constant.numeric.float"),
        Some(HighlightCategory::Number)
    );
}

#[test]
fn test_scope_to_category_markup() {
    // Markdown/markup scopes
    assert_eq!(
        scope_to_category("markup.heading.1.markdown"),
        Some(HighlightCategory::Keyword)
    );
    assert_eq!(
        scope_to_category("markup.heading.2"),
        Some(HighlightCategory::Keyword)
    );
    // entity.name.section is used by syntect's markdown grammar for heading text
    assert_eq!(
        scope_to_category("entity.name.section.markdown"),
        Some(HighlightCategory::Keyword)
    );
    assert_eq!(
        scope_to_category("markup.bold"),
        Some(HighlightCategory::Constant)
    );
    assert_eq!(
        scope_to_category("markup.italic"),
        Some(HighlightCategory::Variable)
    );
    assert_eq!(
        scope_to_category("markup.raw.inline"),
        Some(HighlightCategory::String)
    );
    assert_eq!(
        scope_to_category("markup.raw.block"),
        Some(HighlightCategory::String)
    );
    assert_eq!(
        scope_to_category("markup.underline.link"),
        Some(HighlightCategory::Function)
    );
    assert_eq!(
        scope_to_category("markup.quote"),
        Some(HighlightCategory::Comment)
    );
    assert_eq!(
        scope_to_category("markup.list.unnumbered"),
        Some(HighlightCategory::Operator)
    );
    assert_eq!(
        scope_to_category("markup.strikethrough"),
        Some(HighlightCategory::Comment)
    );
}

#[test]
fn test_merge_adjacent_spans() {
    let mut spans = vec![
        CachedSpan {
            range: 0..5,
            category: HighlightCategory::Keyword,
        },
        CachedSpan {
            range: 5..10,
            category: HighlightCategory::Keyword,
        },
        CachedSpan {
            range: 10..15,
            category: HighlightCategory::String,
        },
    ];

    merge_adjacent_spans(&mut spans);

    assert_eq!(spans.len(), 2);
    assert_eq!(spans[0].range, 0..10);
    assert_eq!(spans[0].category, HighlightCategory::Keyword);
    assert_eq!(spans[1].range, 10..15);
    assert_eq!(spans[1].category, HighlightCategory::String);
}

fn line_bounds(content: &[u8]) -> (Vec<usize>, Vec<usize>) {
    let mut line_starts: Vec<usize> = vec![];
    let mut line_ends: Vec<usize> = vec![];
    let mut pos = 0;
    while pos < content.len() {
        let (_, line_end) = scan_line(content, pos);
        line_starts.push(pos);
        line_ends.push(line_end);
        pos = line_end;
    }
    (line_starts, line_ends)
}

/// CRLF content: "abc\r\ndef\r\nghi"
/// Byte positions:
///   a=0, b=1, c=2, \r=3, \n=4
///   d=5, e=6, f=7, \r=8, \n=9
///   g=10, h=11, i=12
#[test]
fn test_crlf_line_boundary_detection() {
    let content = "abc\r\ndef\r\nghi";
    let content_bytes = content.as_bytes();

    let (line_starts, line_ends) = line_bounds(content_bytes);

    assert_eq!(line_starts.len(), 3, "Should detect 3 lines");

    // Line 1: "abc\r\n" at bytes 0..5
    assert_eq!(line_starts[0], 0, "Line 1 should start at byte 0");
    assert_eq!(line_ends[0], 5, "Line 1 should end at byte 5 (after CRLF)");

    // Line 2: "def\r\n" at bytes 5..10
    assert_eq!(line_starts[1], 5, "Line 2 should start at byte 5");
    assert_eq!(line_ends[1], 10, "Line 2 should end at byte 10 (after CRLF)");

    // Line 3: "ghi" at bytes 10..13 (no terminator)
    assert_eq!(line_starts[2], 10, "Line 3 should start at byte 10");
    assert_eq!(line_ends[2], 13, "Line 3 should end at byte 13");

    // Offsets that count one byte per terminator drift on CRLF content.
    let drifting_offsets: Vec<usize> = content
        .lines()
        .scan(0usize, |offset, line| {
            let start = *offset;
            *offset += line.len() + 1;
            Some(start)
        })
        .collect();

    assert_eq!(drifting_offsets[0], 0);
    assert_eq!(drifting_offsets[1], 4);
    assert_eq!(drifting_offsets[2], 8);
}

/// LF-only content: "abc\ndef\nghi"
#[test]
fn test_lf_line_boundary_detection() {
    let content = "abc\ndef\nghi";
    let content_bytes = content.as_bytes();

    let (line_starts, _) = line_bounds(content_bytes);

    assert_eq!(line_starts[0], 0, "Line 1 starts at 0");
    assert_eq!(line_starts[1], 4, "Line 2 starts at 4 (after 'abc\\n')");
    assert_eq!(line_starts[2], 8, "Line 3 starts at 8 (after 'def\\n')");
}

fn test_theme() -> Theme {
    let shade = |n: u8| Color { r: n, g: n, b: n };
    Theme {
        comment: shade(1),
        string: shade(2),
        keyword: shade(3),
        operator: shade(4),
        function: shade(5),
        type_: shade(6),
        number: shade(7),
        constant: shade(8),
        variable: shade(9),
        property: shade(10),
        attribute: shade(11),
    }
}

fn java_highlighter() -> TextMateHighlighter {
    let syntax_set = default_grammars();
    let java_syntax = syntax_set
        .find_syntax_by_extension("java")
        .expect("Java syntax should be available");
    let name = java_syntax.name.clone();
    TextMateHighlighter::new(&name, syntax_set)
}

/// The spans of CRLF content lie where the text lies: a line counts with
/// the two bytes of its terminator.
#[test]
fn test_textmate_highlighter_crlf_byte_offsets() {
    let mut highlighter = java_highlighter();

    let content = b"public\r\npublic\r\npublic\r\n";
    let buffer = TextBuffer::new(content.to_vec());
    let theme = test_theme();

    let spans = highlighter.highlight_viewport(&buffer, 0, content.len(), &theme, 0);

    let has_span_at = |start: usize, end: usize| -> bool {
        spans.iter().any(|s| s.range.start <= start && s.range.end >= end)
    };

    assert!(has_span_at(0, 6), "Should have span covering bytes 0-6. Spans: {:?}", spans);
    assert!(has_span_at(8, 14), "Should have span covering bytes 8-14. Spans: {:?}", spans);
    assert!(has_span_at(16, 22), "Should have span covering bytes 16-22. Spans: {:?}", spans);

    let starts: Vec<usize> = spans.iter().map(|s| s.range.start).collect();
    assert_eq!(starts, vec![0, 8, 16]);
    for span in &spans {
        assert_eq!(span.color, theme.keyword);
        assert_eq!(span.range.end - span.range.start, 6);
    }
}

#[test]
fn highlight_spans_are_ordered_and_within_the_buffer() {
    let mut highlighter = java_highlighter();
    let content = b"public class A {\n    // note\n    int x = 42;\r\n    String s = \"hi\";\n}\n";
    let buffer = TextBuffer::new(content.to_vec());
    let theme = test_theme();
    for (start, end, context) in [(0usize, 10usize, 0usize), (5, 40, 4), (20, 70, 100), (0, 500, 0)] {
        highlighter.invalidate_all();
        let spans = highlighter.highlight_viewport(&buffer, start, end, &theme, context);
        assert!(!spans.is_empty());
        let mut last_end = 0;
        for span in &spans {
            assert!(span.range.start < span.range.end);
            assert!(span.range.start >= last_end);
            assert!(span.range.end <= content.len());
            assert!(span.range.start < end && span.range.end > start);
            last_end = span.range.end;
        }
    }
}

#[test]
fn highlight_answers_from_the_cache_until_invalidated() {
    let mut highlighter = java_highlighter();
    let theme = test_theme();
    let buffer = TextBuffer::new(b"public int x;\n".to_vec());
    let first = highlighter.highlight_viewport(&buffer, 0, 14, &theme, 0);
    assert!(!first.is_empty());

    // Same length, other text: the cache still answers.
    let other = TextBuffer::new(b"// comment...\n".to_vec());
    let cached = highlighter.highlight_viewport(&other, 0, 14, &theme, 0);
    assert_eq!(cached, first);
    let part = highlighter.highlight_viewport(&other, 0, 6, &theme, 0);
    assert_eq!(part, vec![first[0].clone()]);

    // An edit outside the cached window leaves the cache alone.
    highlighter.invalidate_range(14..20);
    assert_eq!(highlighter.highlight_viewport(&other, 0, 14, &theme, 0), first);

    // An edit inside it drops the cache.
    highlighter.invalidate_range(3..4);
    let fresh = highlighter.highlight_viewport(&other, 0, 14, &theme, 0);
    assert_ne!(fresh, first);
    assert_eq!(fresh.len(), 2);
    assert_eq!(fresh[0], HighlightSpan { range: 0..2, color: theme.operator });
    assert_eq!(fresh[1], HighlightSpan { range: 2..13, color: theme.comment });

    // A buffer of another length is parsed anew.
    let longer = TextBuffer::new(b"public int xy;\n".to_vec());
    let again = highlighter.highlight_viewport(&longer, 0, 15, &theme, 0);
    assert_eq!(again[0].range, 0..6);
    assert_eq!(again[0].color, theme.keyword);
}

#[test]
fn highlight_of_an_empty_viewport_is_empty() {
    let mut highlighter = java_highlighter();
    let theme = test_theme();
    let buffer = TextBuffer::new(b"public int x;\n".to_vec());
    assert!(highlighter.highlight_viewport(&buffer, 3, 3, &theme, 100).is_empty());
    assert!(highlighter.highlight_viewport(&buffer, 5, 2, &theme, 100).is_empty());
    let empty = TextBuffer::empty();
    assert!(highlighter.highlight_viewport(&empty, 0, 10, &theme, 10).is_empty());
}

#[test]
fn highlight_of_an_oversize_window_is_empty() {
    let mut highlighter = java_highlighter();
    let theme = test_theme();
    let mut text = Vec::new();
    while text.len() <= MAX_PARSE_BYTES + 16 {
        text.extend_from_slice(b"public\n");
    }
    let buffer = TextBuffer::new(text);
    let total = buffer.total_bytes();
    assert!(highlighter.highlight_viewport(&buffer, 0, total, &theme, 0).is_empty());
    assert!(highlighter.highlight_viewport(&buffer, 0, 7, &theme, total).is_empty());
    let shown = highlighter.highlight_viewport(&buffer, 0, 7, &theme, DEFAULT_CONTEXT_BYTES);
    assert_eq!(shown.len(), 1);
    assert_eq!(shown[0].range, 0..6);
}

#[test]
fn highlight_skips_lines_that_are_not_utf8() {
    let mut highlighter = java_highlighter();
    let theme = test_theme();
    let mut text = b"public\n".to_vec();
    text.extend_from_slice(&[0xFF, 0xFE, b'\n']);
    text.extend_from_slice(b"public\n");
    let buffer = TextBuffer::new(text);
    let spans = highlighter.highlight_viewport(&buffer, 0, 17, &theme, 0);
    let starts: Vec<usize> = spans.iter().map(|s| s.range.start).collect();
    assert_eq!(starts, vec![0, 10]);
}

#[test]
fn highlight_without_the_grammar_is_empty() {
    let syntax_set = default_grammars();
    let theme = test_theme();
    let buffer = TextBuffer::new(b"public int x;\n".to_vec());
    let mut highlighter = TextMateHighlighter::new("No Such Grammar", syntax_set.clone());
    assert_eq!(highlighter.syntax_name(), "No Such Grammar");
    assert!(highlighter.highlight_viewport(&buffer, 0, 14, &theme, 0).is_empty());
    assert!(TextMateHighlighter::from_syntax_name("No Such Grammar", syntax_set.clone()).is_none());
    let java = TextMateHighlighter::from_syntax_name("Java", syntax_set);
    assert_eq!(java.unwrap().syntax_name(), "Java");
}

#[test]
fn scope_names_are_compared_in_lower_case() {
    assert_eq!(scope_to_category("Comment.Line"), Some(HighlightCategory::Comment));
    assert_eq!(scope_to_category("KEYWORD.OPERATOR.X"), Some(HighlightCategory::Operator));
    assert_eq!(lowercase_scope_to_category("Comment.Line"), None);
    assert_eq!(lowercase_scope_to_category("comment.line"), Some(HighlightCategory::Comment));
}

#[test]
fn scope_to_category_follows_the_priority_order() {
    let cases = [
        ("keyword.operator", HighlightCategory::Operator),
        ("keyword", HighlightCategory::Keyword),
        ("keyword.other", HighlightCategory::Keyword),
        ("punctuation", HighlightCategory::Operator),
        ("meta.function-call", HighlightCategory::Function),
        ("variable.function", HighlightCategory::Function),
        ("entity.name.class", HighlightCategory::Type),
        ("entity.name.struct", HighlightCategory::Type),
        ("entity.name.enum", HighlightCategory::Type),
        ("entity.name.interface", HighlightCategory::Type),
        ("entity.name.trait", HighlightCategory::Type),
        ("support.type", HighlightCategory::Type),
        ("storage.modifier", HighlightCategory::Keyword),
        ("constant.language.boolean", HighlightCategory::Number),
        ("constant.language", HighlightCategory::Constant),
        ("constant", HighlightCategory::Constant),
        ("variable.parameter", HighlightCategory::Variable),
        ("variable.other", HighlightCategory::Variable),
        ("variable.other.property", HighlightCategory::Variable),
        ("variable.language", HighlightCategory::Variable),
        ("entity.name.tag", HighlightCategory::Property),
        ("support.other.property", HighlightCategory::Property),
        ("meta.object-literal.key", HighlightCategory::Property),
        ("entity.other.attribute", HighlightCategory::Attribute),
        ("meta.attribute", HighlightCategory::Attribute),
        ("entity.name.decorator", HighlightCategory::Attribute),
        ("variable", HighlightCategory::Variable),
        ("markup.inline.raw", HighlightCategory::String),
        ("markup.underline", HighlightCategory::Function),
        ("entity.name.section", HighlightCategory::Keyword),
    ];
    for (scope, category) in cases {
        assert_eq!(scope_to_category(scope), Some(category), "{}", scope);
    }
    assert_eq!(scope_to_category("source.rust"), None);
    assert_eq!(scope_to_category("meta.block"), None);
    assert_eq!(scope_to_category(""), None);
}

#[test]
fn scope_stack_category_is_that_of_the_topmost_scope_with_one() {
    let stack = ScopeStack::from_str("source.java keyword.control meta.block").unwrap();
    assert_eq!(scope_stack_to_category(&stack), Some(HighlightCategory::Keyword));
    let stack = ScopeStack::from_str("source.java comment.line string.quoted").unwrap();
    assert_eq!(scope_stack_to_category(&stack), Some(HighlightCategory::String));
    let stack = ScopeStack::from_str("source.java meta.block").unwrap();
    assert_eq!(scope_stack_to_category(&stack), None);
    assert_eq!(scope_stack_to_category(&ScopeStack::new()), None);
}

#[test]
fn merging_leaves_no_touching_spans_of_one_category() {
    let span = |start: usize, end: usize, category: HighlightCategory| CachedSpan {
        range: start..end,
        category,
    };
    let mut spans = vec![
        span(0, 2, HighlightCategory::Keyword),
        span(2, 4, HighlightCategory::Keyword),
        span(4, 6, HighlightCategory::Keyword),
        span(6, 8, HighlightCategory::String),
        span(9, 10, HighlightCategory::String),
        span(10, 12, HighlightCategory::Comment),
        span(12, 13, HighlightCategory::Comment),
    ];
    merge_adjacent_spans(&mut spans);
    assert_eq!(
        spans,
        vec![
            span(0, 6, HighlightCategory::Keyword),
            span(6, 8, HighlightCategory::String),
            span(9, 10, HighlightCategory::String),
            span(10, 13, HighlightCategory::Comment),
        ]
    );
    for pair in spans.windows(2) {
        assert!(!(pair[0].category == pair[1].category && pair[0].range.end == pair[1].range.start));
    }
    let mut none: Vec<CachedSpan> = Vec::new();
    merge_adjacent_spans(&mut none);
    assert!(none.is_empty());
    let mut one = vec![span(3, 4, HighlightCategory::Type)];
    merge_adjacent_spans(&mut one);
    assert_eq!(one, vec![span(3, 4, HighlightCategory::Type)]);
}

#[test]
fn lines_end_after_their_terminator() {
    assert_eq!(scan_line(b"ab\rcd", 0), (2, 3));
    assert_eq!(scan_line(b"ab\rcd", 3), (5, 5));
    assert_eq!(scan_line(b"ab\r", 0), (2, 3));
    assert_eq!(scan_line(b"\r\n", 0), (0, 2));
    assert_eq!(scan_line(b"\n\r", 0), (0, 1));
    assert_eq!(scan_line(b"\n\r", 1), (1, 2));
    assert_eq!(scan_line(b"abc", 3), (3, 3));
    assert_eq!(scan_line(b"", 0), (0, 0));
}

#[test]
fn parser_lines_end_in_one_line_feed() {
    assert_eq!(line_for_parser(b"abc\r\ndef", 0), b"abc\n");
    assert_eq!(line_for_parser(b"abc\r\ndef", 5), b"def");
    assert_eq!(line_for_parser(b"abc\rdef", 0), b"abc\n");
    assert_eq!(line_for_parser(b"abc\n", 0), b"abc\n");
    assert_eq!(line_for_parser(b"abc\r", 0), b"abc\n");
    assert_eq!(line_for_parser(b"\n", 0), b"\n");
}

#[test]
fn push_span_skips_empty_ranges_and_missing_categories() {
    let mut spans = Vec::new();
    push_span(&mut spans, None, 0, 5);
    push_span(&mut spans, Some(HighlightCategory::Number), 5, 5);
    push_span(&mut spans, Some(HighlightCategory::Number), 7, 5);
    assert!(spans.is_empty());
    push_span(&mut spans, Some(HighlightCategory::Number), 5, 7);
    assert_eq!(spans, vec![CachedSpan { range: 5..7, category: HighlightCategory::Number }]);
}

#[test]
fn line_spans_are_held_to_the_text_of_the_line() {
    let keyword = Scope::new("keyword.control").unwrap();
    let string = Scope::new("string.quoted").unwrap();
    let ops = vec![
        (0, ScopeStackOp::Push(keyword)),
        (3, ScopeStackOp::Pop(1)),
        (4, ScopeStackOp::Push(string)),
        (9, ScopeStackOp::Pop(1)),
    ];
    let mut scopes = ScopeStack::new();
    let mut spans = Vec::new();
    collect_line_spans(&ops, &mut scopes, 100, 6, &mut spans);
    assert_eq!(
        spans,
        vec![
            CachedSpan { range: 100..103, category: HighlightCategory::Keyword },
            CachedSpan { range: 104..106, category: HighlightCategory::String },
        ]
    );
    assert!(scopes.is_empty());

    let mut scopes = ScopeStack::from_str("comment.block").unwrap();
    let mut spans = Vec::new();
    collect_line_spans(&Vec::new(), &mut scopes, 10, 4, &mut spans);
    assert_eq!(spans, vec![CachedSpan { range: 10..14, category: HighlightCategory::Comment }]);
}

#[test]
fn visible_spans_are_those_that_reach_into_the_viewport() {
    let theme = test_theme();
    let spans = vec![
        CachedSpan { range: 0..4, category: HighlightCategory::Keyword },
        CachedSpan { range: 4..8, category: HighlightCategory::String },
        CachedSpan { range: 10..12, category: HighlightCategory::Comment },
    ];
    let shown = visible_spans(&spans, 4, 10, &theme);
    assert_eq!(shown, vec![HighlightSpan { range: 4..8, color: theme.string }]);
    let shown = visible_spans(&spans, 3, 11, &theme);
    assert_eq!(shown.len(), 3);
    assert_eq!(shown[0], HighlightSpan { range: 0..4, color: theme.keyword });
    assert_eq!(HighlightCategory::Attribute.color(&theme), theme.attribute);
}

#[test]
fn parsed_window_is_the_viewport_and_its_context() {
    let mut highlighter = java_highlighter();
    let theme = test_theme();
    //            0         1         2
    //            0123456789012345678901234
    let code = b"int a; int b; int c; int";
    let blank = vec![b' '; code.len()];
    let code = TextBuffer::new(code.to_vec());
    let blank = TextBuffer::new(blank);

    // Viewport 7..13 with 4 bytes of context: the window is 3..17.
    let first = highlighter.highlight_viewport(&code, 7, 13, &theme, 4);
    assert!(!first.is_empty());
    // Inside the window the cache answers, whatever the buffer holds now.
    let inside = highlighter.highlight_viewport(&blank, 3, 17, &theme, 0);
    assert!(!inside.is_empty());
    assert!(inside.iter().all(|span| span.range.start >= 3 && span.range.end <= 17));
    assert_eq!(highlighter.highlight_viewport(&blank, 7, 13, &theme, 0), first);
    // One byte further on either side the buffer is parsed anew.
    assert!(highlighter.highlight_viewport(&blank, 2, 17, &theme, 0).is_empty());
    highlighter.invalidate_all();
    highlighter.highlight_viewport(&code, 7, 13, &theme, 4);
    assert!(highlighter.highlight_viewport(&blank, 3, 18, &theme, 0).is_empty());

    // Context that reaches past the ends of the buffer is cut off there.
    highlighter.invalidate_all();
    highlighter.highlight_viewport(&code, 2, 20, &theme, 1000);
    assert!(!highlighter.highlight_viewport(&blank, 0, 24, &theme, 0).is_empty());
    assert!(highlighter.highlight_viewport(&blank, 0, 25, &theme, 0).is_empty());
}

#[test]
fn default_grammars_hold_the_grammars_of_the_engine() {
    let ours = default_grammars();
    let theirs = Arc::new(SyntaxSet::load_defaults_newlines());
    assert!(ours.find_syntax_by_name("Java").is_some());
    assert_eq!(ours.syntaxes().len(), theirs.syntaxes().len());
}

#[test]
fn changes_that_come_out_of_order_give_ordered_spans() {
    let keyword = Scope::new("keyword.control").unwrap();
    let string = Scope::new("string.quoted").unwrap();
    let comment = Scope::new("comment.line").unwrap();
    let ops = vec![
        (0, ScopeStackOp::Push(keyword)),
        (5, ScopeStackOp::Pop(1)),
        (2, ScopeStackOp::Push(string)),
        (4, ScopeStackOp::Pop(1)),
        (7, ScopeStackOp::Push(comment)),
    ];
    let mut scopes = ScopeStack::new();
    let mut spans = Vec::new();
    collect_line_spans(&ops, &mut scopes, 20, 9, &mut spans);
    // 0..5 keyword; the changes at 2 and 4 lie behind what is already
    // covered and close nothing; 5..7 has no category; 7..9 comment.
    assert_eq!(
        spans,
        vec![
            CachedSpan { range: 20..25, category: HighlightCategory::Keyword },
            CachedSpan { range: 27..29, category: HighlightCategory::Comment },
        ]
    );
    assert_eq!(scopes.len(), 1);
    let mut last_end = 0;
    for span in &spans {
        assert!(span.range.start >= last_end && span.range.start < span.range.end);
        last_end = span.range.end;
    }
}

#[test]
fn parse_window_is_held_to_the_buffer() {
    assert_eq!(parse_window(100, 10, 20, 4), (6, 24));
    assert_eq!(parse_window(100, 2, 98, 4), (0, 100));
    assert_eq!(parse_window(100, 10, 20, 0), (10, 20));
    assert_eq!(parse_window(100, 10, 20, usize::MAX), (0, 100));
    assert_eq!(parse_window(100, 150, 160, 4), (100, 100));
    assert_eq!(parse_window(100, 90, usize::MAX, 4), (86, 100));
    assert_eq!(parse_window(0, 0, 10, 4), (0, 0));
}

#[test]
fn lines_without_spans_are_counted() {
    let mut highlighter = java_highlighter();
    let theme = test_theme();
    assert_eq!(highlighter.skipped_lines(), 0);
    assert_eq!(highlighter.failed_lines(), 0);
    assert!(!highlighter.is_cached(0, 5, 17));

    let mut text = b"public\n".to_vec();
    text.extend_from_slice(&[0xFF, 0xFE, b'\n']);
    text.extend_from_slice(&[0xC3, b'\r', b'\n']);
    text.extend_from_slice(b"int\n");
    let buffer = TextBuffer::new(text);
    let total = buffer.total_bytes();
    highlighter.highlight_viewport(&buffer, 0, total, &theme, 0);
    assert_eq!(highlighter.skipped_lines(), 2);
    assert_eq!(highlighter.failed_lines(), 0);
    assert!(highlighter.is_cached(0, total, total));
    assert!(highlighter.is_cached(3, 5, total));
    assert!(!highlighter.is_cached(0, total, total + 1));
    assert!(!highlighter.is_cached(0, total + 1, total));

    let report = highlighter.parse_region_report(&buffer, 0, 7);
    assert_eq!(report.skipped_lines, 0);
    assert_eq!(report.failed_lines, 0);
    assert_eq!(report.spans, highlighter.parse_region(&buffer, 0, 7));
    assert_eq!(report.spans.len(), 1);

    highlighter.invalidate_all();
    assert_eq!(highlighter.skipped_lines(), 0);
    assert!(!highlighter.is_cached(3, 5, total));
}

fn highlight_with_grammars(from: usize, to: usize) {
    let syntax_set = default_grammars();
    let theme = test_theme();
    let text = b"#include <a>\nint main() { return \"s\"[0] + 1; } // c\n<p class=\"x\">t</p>\n";
    let buffer = TextBuffer::new(text.to_vec());
    let names: Vec<String> = syntax_set.syntaxes().iter().map(|s| s.name.clone()).collect();
    assert!(names.len() > 40);
    for name in names.iter().skip(from).take(to - from) {
        let mut highlighter = TextMateHighlighter::from_syntax_name(name, syntax_set.clone())
            .expect("the set has the grammar");
        let spans = highlighter.highlight_viewport(&buffer, 0, text.len(), &theme, 0);
        let mut last_end = 0;
        for span in &spans {
            assert!(span.range.start >= last_end && span.range.start < span.range.end);
            assert!(span.range.end <= text.len());
            last_end = span.range.end;
        }
        assert_eq!(highlighter.failed_lines(), 0, "{}", name);
        assert_eq!(highlighter.skipped_lines(), 0, "{}", name);
    }
}

#[test]
fn every_default_grammar_parses_first_third() {
    highlight_with_grammars(0, 25);
}

#[test]
fn every_default_grammar_parses_second_third() {
    highlight_with_grammars(25, 50);
}

#[test]
fn every_default_grammar_parses_last_third() {
    highlight_with_grammars(50, 200);
}
