use std::borrow::Cow;

use sub_font_loader::gui::edit::{edit_multiline_text, needs_edit_line_ending_normalization};

#[test]
fn edit_multiline_text_converts_lf_to_crlf() {
    assert_eq!(edit_multiline_text("one\ntwo").as_ref(), "one\r\ntwo");
}

#[test]
fn edit_multiline_text_preserves_existing_crlf() {
    assert!(matches!(
        edit_multiline_text("one\r\ntwo"),
        Cow::Borrowed("one\r\ntwo")
    ));
}

#[test]
fn edit_multiline_text_converts_bare_cr_to_crlf() {
    assert_eq!(edit_multiline_text("one\rtwo").as_ref(), "one\r\ntwo");
}

#[test]
fn bare_line_breaks_are_detected() {
    assert!(!needs_edit_line_ending_normalization(""));
    assert!(!needs_edit_line_ending_normalization("plain"));
    assert!(!needs_edit_line_ending_normalization("a\r\nb\r\n"));
    assert!(needs_edit_line_ending_normalization("\n"));
    assert!(needs_edit_line_ending_normalization("a\r"));
    assert!(needs_edit_line_ending_normalization("a\r\r\nb"));
    assert!(needs_edit_line_ending_normalization("a\n\r"));
}

#[test]
fn mixed_line_endings_are_normalized() {
    assert_eq!(
        edit_multiline_text("a\r\nb\nc\rd\r\r\ne\n\n").as_ref(),
        "a\r\nb\r\nc\r\nd\r\n\r\ne\r\n\r\n"
    );
    assert_eq!(edit_multiline_text("\r").as_ref(), "\r\n");
    assert_eq!(edit_multiline_text("\n\r").as_ref(), "\r\n\r\n");
}

#[test]
fn normalized_text_is_left_alone() {
    let once = edit_multiline_text("x\ny\rz").into_owned();
    assert!(!needs_edit_line_ending_normalization(&once));
    assert!(matches!(edit_multiline_text(&once), Cow::Borrowed(_)));
    assert_eq!(edit_multiline_text(&once).as_ref(), once.as_str());
}

#[test]
fn text_without_line_breaks_is_borrowed() {
    assert!(matches!(edit_multiline_text("字幕 ✓"), Cow::Borrowed("字幕 ✓")));
    assert!(matches!(edit_multiline_text(""), Cow::Borrowed("")));
}
