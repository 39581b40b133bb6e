use writ::line::{visual_to_buffer_pos, CollapsedDisplayText, HiddenRegion};

#[test]
fn test_collapsed_display_text_ranges() {
    // Simulate a GitHub URL at buffer positions 10..54 (44 chars)
    // displayed as "rust-lang/rust#123" (18 chars) at visual positions 5..23
    let collapsed = CollapsedDisplayText {
        visual_range: 5..23,
        buffer_range: 10..54,
        display_text: "rust-lang/rust#123".to_string(),
        buffer_text: "https://github.com/rust-lang/rust/issues/123".to_string(),
    };

    // Verify the display text is shorter than buffer text
    assert!(collapsed.display_text.len() < collapsed.buffer_text.len());

    // Verify ranges are consistent
    assert_eq!(
        collapsed.visual_range.len(),
        collapsed.display_text.len(),
        "visual_range length should match display_text length"
    );
    assert_eq!(
        collapsed.buffer_range.len(),
        collapsed.buffer_text.len(),
        "buffer_range length should match buffer_text length"
    );
}

#[test]
fn test_collapsed_region_detection_logic() {
    // Test the logic used to find collapsed regions during click handling
    let collapsed_regions = [
        CollapsedDisplayText {
            visual_range: 0..18,
            buffer_range: 0..44,
            display_text: "rust-lang/rust#123".to_string(),
            buffer_text: "https://github.com/rust-lang/rust/issues/123".to_string(),
        },
        CollapsedDisplayText {
            visual_range: 25..43,
            buffer_range: 51..95,
            display_text: "rust-lang/rust#456".to_string(),
            buffer_text: "https://github.com/rust-lang/rust/issues/456".to_string(),
        },
    ];

    // Click at visual index 10 should find first region
    let content_visual_index = 10;
    let found = collapsed_regions.iter().find(|r| {
        content_visual_index >= r.visual_range.start
            && content_visual_index < r.visual_range.end
    });
    assert!(found.is_some());
    assert_eq!(found.unwrap().buffer_range, 0..44);

    // Click at visual index 30 should find second region
    let content_visual_index = 30;
    let found = collapsed_regions.iter().find(|r| {
        content_visual_index >= r.visual_range.start
            && content_visual_index < r.visual_range.end
    });
    assert!(found.is_some());
    assert_eq!(found.unwrap().buffer_range, 51..95);

    // Click at visual index 20 (between regions) should find nothing
    let content_visual_index = 20;
    let found = collapsed_regions.iter().find(|r| {
        content_visual_index >= r.visual_range.start
            && content_visual_index < r.visual_range.end
    });
    assert!(found.is_none());
}

#[test]
fn visual_to_buffer_pos_without_hidden_regions() {
    // Content 2..12 after a "- " marker: visual index 3 is buffer byte 5.
    assert_eq!(visual_to_buffer_pos(3, &(2..12), 0, &[], 12), 5);
    // Never past the line's end.
    assert_eq!(visual_to_buffer_pos(30, &(2..12), 0, &[], 12), 12);
    // A heading marker of 2 bytes shifts the content.
    assert_eq!(visual_to_buffer_pos(1, &(0..9), 2, &[], 9), 3);
}

#[test]
fn visual_to_buffer_pos_skips_hidden_syntax() {
    // "**bold** x": the delimiters 0..2 and 6..8 are hidden, so the
    // visible text is "bold x".
    let hidden: Vec<HiddenRegion> = vec![(0, 2, 6, 8)];
    assert_eq!(visual_to_buffer_pos(0, &(0..10), 0, &hidden, 10), 0);
    assert_eq!(visual_to_buffer_pos(1, &(0..10), 0, &hidden, 10), 3);
    assert_eq!(visual_to_buffer_pos(4, &(0..10), 0, &hidden, 10), 6);
    assert_eq!(visual_to_buffer_pos(5, &(0..10), 0, &hidden, 10), 9);
}

#[test]
fn visual_to_buffer_pos_empty_content() {
    assert_eq!(visual_to_buffer_pos(4, &(7..7), 0, &[(0, 1, 2, 3)], 7), 7);
}
