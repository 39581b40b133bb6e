use writ::paste::{normalize, transform_paste, PasteContext};

fn ctx(in_code_block: bool, blockquote_prefix: &str) -> PasteContext {
    PasteContext { in_code_block, blockquote_prefix: blockquote_prefix.to_string() }
}

#[test]
fn test_paste_simple_text_normal_line() {
    let ctx = ctx(false, "");
    assert_eq!(transform_paste("hello world", &ctx), "hello world");
}

#[test]
fn test_paste_multiline_normal_line() {
    let ctx = ctx(false, "");
    assert_eq!(transform_paste("line 1\nline 2", &ctx), "line 1\nline 2");
}

#[test]
fn test_paste_blockquote_in_code_block() {
    let ctx = ctx(true, "");
    assert_eq!(transform_paste("> quoted", &ctx), "> quoted");
}

#[test]
fn test_paste_heading_in_code_block() {
    let ctx = ctx(true, "");
    assert_eq!(transform_paste("# heading", &ctx), "# heading");
}

#[test]
fn test_paste_simple_text_in_blockquote() {
    let ctx = ctx(false, "> ");
    assert_eq!(transform_paste("hello", &ctx), "hello");
}

#[test]
fn test_paste_multiline_in_blockquote() {
    let ctx = ctx(false, "> ");
    assert_eq!(transform_paste("line 1\nline 2", &ctx), "line 1\n> line 2");
}

#[test]
fn test_paste_paragraphs_in_blockquote() {
    let ctx = ctx(false, "> ");
    assert_eq!(transform_paste("para 1\n\npara 2", &ctx), "para 1\n>\n> para 2");
}

#[test]
fn test_paste_multiline_in_nested_blockquote() {
    let ctx = ctx(false, "> > ");
    assert_eq!(transform_paste("line 1\nline 2", &ctx), "line 1\n> > line 2");
}

#[test]
fn test_paste_multiline_on_list_item() {
    let ctx = ctx(false, "");
    assert_eq!(transform_paste("line 1\nline 2", &ctx), "line 1\nline 2");
}

#[test]
fn test_paste_curly_quotes_normalized() {
    let ctx = ctx(false, "");
    assert_eq!(transform_paste("\u{201C}hello\u{201D}", &ctx), "\"hello\"");
}

#[test]
fn test_paste_single_curly_quotes_normalized() {
    let ctx = ctx(false, "");
    assert_eq!(transform_paste("\u{2018}hello\u{2019}", &ctx), "'hello'");
}

#[test]
fn test_paste_crlf_normalized() {
    let ctx = ctx(false, "");
    assert_eq!(transform_paste("line 1\r\nline 2", &ctx), "line 1\nline 2");
}

#[test]
fn test_paste_cr_normalized() {
    let ctx = ctx(false, "");
    assert_eq!(transform_paste("line 1\rline 2", &ctx), "line 1\nline 2");
}

#[test]
fn normalize_is_idempotent_on_examples() {
    for s in ["a\r\nb\rc", "\u{201C}x\u{2019}", "plain", ""] {
        let once = normalize(s);
        assert_eq!(normalize(&once), once);
    }
}

#[test]
fn code_block_paste_is_only_normalized() {
    let ctx = ctx(true, "> ");
    assert_eq!(transform_paste("a\r\nb", &ctx), "a\nb");
}
