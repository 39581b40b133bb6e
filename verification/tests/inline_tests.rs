use writ::inline::{styles_in_range, StyledRegion, TextStyle};

fn region(start: usize, end: usize, style: TextStyle) -> StyledRegion {
    StyledRegion {
        full_range: start..end,
        content_range: start + 1..end - 1,
        style,
        link_url: None,
        is_image: false,
        checkbox: None,
    }
}

#[test]
fn styles_in_range_picks_overlapping_regions() {
    // "**bold**\n*italic*\n`code`\n"
    let styles = vec![
        region(0, 8, TextStyle::bold()),
        region(9, 17, TextStyle::italic()),
        region(18, 24, TextStyle::code()),
    ];
    let line1 = styles_in_range(&styles, &(0..8));
    assert_eq!(line1.len(), 1);
    assert!(line1[0].style.bold);

    let line2 = styles_in_range(&styles, &(9..17));
    assert_eq!(line2.len(), 1);
    assert!(line2[0].style.italic);

    let both = styles_in_range(&styles, &(5..12));
    assert_eq!(both.len(), 2);

    let none: Vec<StyledRegion> = Vec::new();
    assert!(styles_in_range(&none, &(0..5)).is_empty());
}

#[test]
fn region_starting_before_the_range_is_found() {
    let styles = vec![region(0, 20, TextStyle::bold()), region(30, 40, TextStyle::code())];
    let r = styles_in_range(&styles, &(10..15));
    assert_eq!(r.len(), 1);
    assert_eq!(r[0].full_range, 0..20);
    assert!(styles_in_range(&styles, &(21..29)).is_empty());
}

#[test]
fn long_region_two_places_earlier_is_found() {
    let styles = vec![region(0, 100, TextStyle::bold()), region(5, 6, TextStyle::code())];
    let r = styles_in_range(&styles, &(10..20));
    assert_eq!(r.len(), 1);
    assert_eq!(r[0].full_range, 0..100);
}

#[test]
fn text_style_merge() {
    let m = TextStyle::bold().merge(&TextStyle::heading(2)).merge(&TextStyle::italic());
    assert!(m.bold && m.italic && !m.code && !m.strikethrough);
    assert_eq!(m.heading_level, 2);
    assert_eq!(TextStyle::default(), TextStyle { bold: false, italic: false, code: false, strikethrough: false, heading_level: 0 });
    let r = region(0, 4, TextStyle::strikethrough());
    assert_eq!(r.clone(), r);
}
