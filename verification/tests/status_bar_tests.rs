use writ::status_bar::{
    build_context_display, scroll_indicator, ContextMarker, OrderedListStyle, StatusBarInfo,
    UnorderedListMarker,
};

#[test]
fn as_str_blockquote() {
    assert_eq!(ContextMarker::BlockQuote.as_str(), ">");
}

#[test]
fn as_str_unordered_list_minus() {
    assert_eq!(
        ContextMarker::UnorderedList(UnorderedListMarker::Minus).as_str(),
        "-"
    );
}

#[test]
fn as_str_unordered_list_star() {
    assert_eq!(
        ContextMarker::UnorderedList(UnorderedListMarker::Star).as_str(),
        "*"
    );
}

#[test]
fn as_str_unordered_list_plus() {
    assert_eq!(
        ContextMarker::UnorderedList(UnorderedListMarker::Plus).as_str(),
        "+"
    );
}

#[test]
fn as_str_ordered_list_dot() {
    assert_eq!(
        ContextMarker::OrderedList {
            number: 1,
            style: OrderedListStyle::Dot
        }
        .as_str(),
        "1."
    );
    assert_eq!(
        ContextMarker::OrderedList {
            number: 42,
            style: OrderedListStyle::Dot
        }
        .as_str(),
        "42."
    );
}

#[test]
fn as_str_ordered_list_parenthesis() {
    assert_eq!(
        ContextMarker::OrderedList {
            number: 1,
            style: OrderedListStyle::Parenthesis
        }
        .as_str(),
        "1)"
    );
    assert_eq!(
        ContextMarker::OrderedList {
            number: 10,
            style: OrderedListStyle::Parenthesis
        }
        .as_str(),
        "10)"
    );
}

#[test]
fn as_str_checkbox_unchecked() {
    assert_eq!(ContextMarker::CheckboxUnchecked.as_str(), "[ ]");
}

#[test]
fn as_str_checkbox_checked() {
    assert_eq!(ContextMarker::CheckboxChecked.as_str(), "[x]");
}

#[test]
fn as_str_code_block_no_language() {
    assert_eq!(ContextMarker::CodeBlock(None).as_str(), "```");
}

#[test]
fn as_str_code_block_with_language() {
    assert_eq!(
        ContextMarker::CodeBlock(Some("rust".to_string())).as_str(),
        "```rust"
    );
}

#[test]
fn display_simple_list() {
    let markers = vec![ContextMarker::UnorderedList(UnorderedListMarker::Minus)];
    let display = build_context_display(&markers);
    assert_eq!(display, vec![("-".to_string(), 0)]);
}

#[test]
fn display_nested_lists() {
    let markers = vec![
        ContextMarker::UnorderedList(UnorderedListMarker::Minus),
        ContextMarker::UnorderedList(UnorderedListMarker::Minus),
    ];
    let display = build_context_display(&markers);
    assert_eq!(display, vec![("-".to_string(), 0), ("-".to_string(), 1)]);
}

#[test]
fn display_list_with_checkbox() {
    // - [x] displays as "- [x]" at same depth
    let markers = vec![
        ContextMarker::UnorderedList(UnorderedListMarker::Minus),
        ContextMarker::CheckboxChecked,
    ];
    let display = build_context_display(&markers);
    assert_eq!(display, vec![("-".to_string(), 0), ("[x]".to_string(), 0)]);
}

#[test]
fn display_nested_checkboxes_compact() {
    // - [x] - [ ] displays as "- [x] ]" (nested checkbox compacted)
    let markers = vec![
        ContextMarker::UnorderedList(UnorderedListMarker::Minus),
        ContextMarker::CheckboxChecked,
        ContextMarker::UnorderedList(UnorderedListMarker::Minus),
        ContextMarker::CheckboxUnchecked,
    ];
    let display = build_context_display(&markers);
    // After [x], the next - is skipped, depth increments, then [ ] shows as " ]"
    assert_eq!(
        display,
        vec![
            ("-".to_string(), 0),
            ("[x]".to_string(), 0),
            (" ]".to_string(), 1)
        ]
    );
}

#[test]
fn display_nested_checked_checkbox_compact() {
    // - [ ] - [x] displays as "- [ ]x]"
    let markers = vec![
        ContextMarker::UnorderedList(UnorderedListMarker::Minus),
        ContextMarker::CheckboxUnchecked,
        ContextMarker::UnorderedList(UnorderedListMarker::Minus),
        ContextMarker::CheckboxChecked,
    ];
    let display = build_context_display(&markers);
    assert_eq!(
        display,
        vec![
            ("-".to_string(), 0),
            ("[ ]".to_string(), 0),
            ("x]".to_string(), 1)
        ]
    );
}

#[test]
fn display_blockquote_list() {
    let markers = vec![
        ContextMarker::BlockQuote,
        ContextMarker::UnorderedList(UnorderedListMarker::Minus),
    ];
    let display = build_context_display(&markers);
    assert_eq!(display, vec![(">".to_string(), 0), ("-".to_string(), 1)]);
}

#[test]
fn display_ordered_list() {
    let markers = vec![ContextMarker::OrderedList {
        number: 3,
        style: OrderedListStyle::Dot,
    }];
    let display = build_context_display(&markers);
    assert_eq!(display, vec![("3.".to_string(), 0)]);
}

#[test]
fn display_code_block() {
    let markers = vec![ContextMarker::CodeBlock(Some("python".to_string()))];
    let display = build_context_display(&markers);
    assert_eq!(display, vec![("```python".to_string(), 0)]);
}

#[test]
fn display_deeply_nested() {
    // > - [x] - [ ] - [x]
    let markers = vec![
        ContextMarker::BlockQuote,
        ContextMarker::UnorderedList(UnorderedListMarker::Minus),
        ContextMarker::CheckboxChecked,
        ContextMarker::UnorderedList(UnorderedListMarker::Minus),
        ContextMarker::CheckboxUnchecked,
        ContextMarker::UnorderedList(UnorderedListMarker::Minus),
        ContextMarker::CheckboxChecked,
    ];
    let display = build_context_display(&markers);
    // > at depth 0, - [x] at depth 1, ] at depth 2, x] at depth 3
    assert_eq!(
        display,
        vec![
            (">".to_string(), 0),
            ("-".to_string(), 1),
            ("[x]".to_string(), 1),
            (" ]".to_string(), 2),
            ("x]".to_string(), 3),
        ]
    );
}

#[test]
fn depth_cycles_after_six() {
    // 7 nested lists should cycle back to depth 0 for color
    let markers = vec![
        ContextMarker::UnorderedList(UnorderedListMarker::Minus),
        ContextMarker::UnorderedList(UnorderedListMarker::Minus),
        ContextMarker::UnorderedList(UnorderedListMarker::Minus),
        ContextMarker::UnorderedList(UnorderedListMarker::Minus),
        ContextMarker::UnorderedList(UnorderedListMarker::Minus),
        ContextMarker::UnorderedList(UnorderedListMarker::Minus),
        ContextMarker::UnorderedList(UnorderedListMarker::Minus),
    ];
    let display = build_context_display(&markers);
    assert_eq!(display.len(), 7);
    // Depths: 0, 1, 2, 3, 4, 5, 6
    assert_eq!(display[6].1, 6);
    // Color cycling happens in status_bar() with depth % 6
}

#[test]
fn scroll_indicator_whole_document() {
    assert_eq!(scroll_indicator(1, 0, 0), "All");
    assert_eq!(scroll_indicator(10, 0, 9), "All");
}

#[test]
fn scroll_indicator_top_bottom_and_percent() {
    assert_eq!(scroll_indicator(100, 0, 20), "Top");
    assert_eq!(scroll_indicator(100, 80, 99), "Bot");
    assert_eq!(scroll_indicator(200, 50, 99), "50%");
    assert_eq!(scroll_indicator(3, 1, 1), "66%");
}

#[test]
fn status_bar_info_default_is_empty() {
    let info = StatusBarInfo::default();
    assert!(info.context_markers.is_empty());
    assert_eq!(info.heading_level, None);
    assert_eq!(info.total_lines, 0);
}
