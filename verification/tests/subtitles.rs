use sub_font_loader::discover::{is_supported_font, is_supported_subtitle};
use sub_font_loader::name_set::NameSet;
use sub_font_loader::subtitle::ass::parse_ass;
use sub_font_loader::subtitle::encoding::{decode_subtitle_bytes, SubtitleDecodeError};
use sub_font_loader::subtitle::fonts::{
    analyze_ass_text, analyze_subtitle_font_report, analyze_subtitle_fonts,
    declared_but_unused_fonts, extend_names_ci,
};

const SCRIPT: &str = "[Script Info]\r\n\
Title: sample\r\n\
\r\n\
[V4+ Styles]\r\n\
Format: Name, Fontname, Fontsize\r\n\
Style: Default,Arial,20\r\n\
Style: Sign, @Noto Sans CJK SC ,30\r\n\
Style: Unused,Comic Sans MS,20\r\n\
\r\n\
[Events]\r\n\
Format: Layer, Start, End, Style, Text\r\n\
Dialogue: 0,0:00:00.00,0:00:01.00,Default,Hello\r\n\
Dialogue: 0,0:00:01.00,0:00:02.00,sign,{\\fnMicrosoft YaHei}Hi, there\r\n\
Dialogue: 0,0:00:02.00,0:00:03.00,Ghost,Boo\r\n\
Dialogue: 0,0:00:03.00,0:00:04.00,Default,{\\rSign}x{\\r}y\r\n";

fn names(set: &NameSet) -> Vec<String> {
    set.to_vec()
}

#[test]
fn parse_ass_reads_styles_and_dialogues() {
    let doc = parse_ass(SCRIPT);
    let styles: Vec<(String, String)> = doc
        .styles
        .iter()
        .map(|s| (s.name.clone(), s.font_name.clone()))
        .collect();
    assert_eq!(
        styles,
        vec![
            ("Default".to_string(), "Arial".to_string()),
            ("Sign".to_string(), "@Noto Sans CJK SC".to_string()),
            ("Unused".to_string(), "Comic Sans MS".to_string()),
        ]
    );
    assert_eq!(doc.dialogues.len(), 4);
    assert_eq!(doc.dialogues[1].style, "sign");
    assert_eq!(doc.dialogues[1].text, "{\\fnMicrosoft YaHei}Hi, there");
}

#[test]
fn parse_ass_needs_a_format_line_and_keeps_text_spacing() {
    let text = "[V4+ Styles]\nStyle: Early,Arial,20\nFormat: Fontname, Name\nStyle: Tahoma, Late\n\
                [ events ]\nDialogue: 0,x\nFormat: Style, Text\nDialogue:  Late , spaced text ,more\n\
                [Fonts]\nDialogue: Late,ignored\n";
    let doc = parse_ass(text);
    assert_eq!(doc.styles.len(), 1);
    assert_eq!(doc.styles[0].name, "Late");
    assert_eq!(doc.styles[0].font_name, "Tahoma");
    assert_eq!(doc.dialogues.len(), 1);
    assert_eq!(doc.dialogues[0].style, "Late");
    assert_eq!(doc.dialogues[0].text, " spaced text ,more");
}

#[test]
fn parse_ass_skips_lines_with_too_few_fields() {
    let text = "[Events]\nFormat: Layer, Style, Text\nDialogue: 0,Default\nDialogue: 0,Default,ok\n";
    let doc = parse_ass(text);
    assert_eq!(doc.dialogues.len(), 1);
    assert_eq!(doc.dialogues[0].text, "ok");
}

#[test]
fn analyze_ass_text_collects_declared_required_inline_and_missing() {
    let usage = analyze_ass_text(SCRIPT);
    assert_eq!(names(&usage.declared_fonts), vec!["Arial", "Comic Sans MS", "Noto Sans CJK SC"]);
    assert_eq!(names(&usage.required_fonts), vec!["Arial", "Microsoft YaHei", "Noto Sans CJK SC"]);
    assert_eq!(names(&usage.inline_fonts), vec!["Microsoft YaHei"]);
    assert_eq!(names(&usage.missing_styles), vec!["Ghost"]);
    assert_eq!(names(&usage.declared_but_unused_fonts), vec!["Comic Sans MS"]);
}

#[test]
fn names_differing_in_ascii_case_are_one_name() {
    let text = "[V4+ Styles]\nFormat: Name, Fontname\nStyle: A,arial\nStyle: B,ARIAL\n\
                [Events]\nFormat: Style, Text\nDialogue: B,{\\FNArial}x\n";
    let usage = analyze_ass_text(text);
    assert_eq!(names(&usage.declared_fonts), vec!["arial"]);
    assert_eq!(names(&usage.required_fonts), vec!["ARIAL"]);
    assert!(usage.declared_but_unused_fonts.is_empty());
    assert_eq!(names(&usage.inline_fonts), vec!["Arial"]);
}

#[test]
fn missing_style_without_default_requires_nothing() {
    let text = "[Events]\nFormat: Style, Text\nDialogue: Nowhere,{\\r  }x{\\fn  @ }y\n";
    let usage = analyze_ass_text(text);
    assert!(usage.required_fonts.is_empty());
    assert!(usage.inline_fonts.is_empty());
    assert_eq!(names(&usage.missing_styles), vec!["Nowhere"]);
}

#[test]
fn declared_but_unused_ignores_case() {
    let mut declared = NameSet::new();
    declared.insert_ci("Arial".to_string());
    declared.insert_ci("Tahoma".to_string());
    let mut required = NameSet::new();
    required.insert_ci("ARIAL".to_string());
    let unused = declared_but_unused_fonts(&declared, &required);
    assert_eq!(unused.to_vec(), vec!["Tahoma"]);
}

#[test]
fn extend_keeps_the_first_spelling() {
    let mut target = NameSet::new();
    target.insert_ci("Arial".to_string());
    let mut source = NameSet::new();
    source.insert_ci("ARIAL".to_string());
    source.insert_ci("Verdana".to_string());
    extend_names_ci(&mut target, &source);
    assert_eq!(target.to_vec(), vec!["Arial", "Verdana"]);
    assert!(target.contains_ci("verdana"));
    assert!(!target.contains("verdana"));
}

#[test]
fn report_orders_files_by_path_and_merges_usage() {
    let second = "[V4+ Styles]\nFormat: Name, Fontname\nStyle: Default,Verdana\n\
                  [Events]\nFormat: Style, Text\nDialogue: Default,x\n";
    let report = analyze_subtitle_font_report(vec![
        ("z/second.ass".to_string(), second.to_string()),
        ("a/first.ass".to_string(), SCRIPT.to_string()),
    ]);
    let paths: Vec<&str> = report.files.iter().map(|(p, _)| p.as_str()).collect();
    assert_eq!(paths, vec!["a/first.ass", "z/second.ass"]);
    assert_eq!(
        report.declared_fonts.to_vec(),
        vec!["Arial", "Comic Sans MS", "Noto Sans CJK SC", "Verdana"]
    );
    assert_eq!(
        report.required_fonts.to_vec(),
        vec!["Arial", "Microsoft YaHei", "Noto Sans CJK SC", "Verdana"]
    );
    assert_eq!(report.declared_but_unused_fonts.to_vec(), vec!["Comic Sans MS"]);
    assert_eq!(report.missing_styles.to_vec(), vec!["Ghost"]);
}

#[test]
fn decode_reads_byte_order_marks() {
    assert_eq!(decode_subtitle_bytes(b"\xEF\xBB\xBFabc"), Ok("abc".to_string()));
    assert_eq!(decode_subtitle_bytes(b"\xFF\xFEa\x00b\x00"), Ok("ab".to_string()));
    assert_eq!(decode_subtitle_bytes(b"\xFE\xFF\x00a\x00b"), Ok("ab".to_string()));
    assert_eq!(decode_subtitle_bytes("plain ✓".as_bytes()), Ok("plain ✓".to_string()));
    assert_eq!(decode_subtitle_bytes(b""), Ok(String::new()));
}

#[test]
fn decode_falls_back_to_gbk() {
    assert_eq!(decode_subtitle_bytes(b"\xD6\xD0\xCE\xC4"), Ok("中文".to_string()));
}

#[test]
fn decode_reports_each_malformed_encoding() {
    assert_eq!(decode_subtitle_bytes(b"\xEF\xBB\xBF\xFF"), Err(SubtitleDecodeError::Utf8));
    assert_eq!(decode_subtitle_bytes(b"\xFF\xFEa\x00b"), Err(SubtitleDecodeError::Utf16Le));
    assert_eq!(decode_subtitle_bytes(b"\xFE\xFF\xD8\x00"), Err(SubtitleDecodeError::Utf16Be));
    assert_eq!(SubtitleDecodeError::Utf8.encoding_name(), "UTF-8");
    assert_eq!(SubtitleDecodeError::Utf16Le.encoding_name(), "UTF-16 LE");
    assert_eq!(SubtitleDecodeError::Utf16Be.encoding_name(), "UTF-16 BE");
}

#[test]
fn analyze_subtitle_fonts_decodes_then_analyzes() {
    let mut bytes = vec![0xFF, 0xFE];
    for unit in SCRIPT.encode_utf16() {
        bytes.extend_from_slice(&unit.to_le_bytes());
    }
    let usage = analyze_subtitle_fonts(&bytes).unwrap();
    assert_eq!(usage.inline_fonts.to_vec(), vec!["Microsoft YaHei"]);
    assert_eq!(
        analyze_subtitle_fonts(b"\xEF\xBB\xBF\xC3").unwrap_err(),
        SubtitleDecodeError::Utf8
    );
}

#[test]
fn font_extensions_are_recognised() {
    assert!(is_supported_font("fonts/NotoSans.TTF"));
    assert!(is_supported_font("C:\\Fonts\\a.otf"));
    assert!(is_supported_font("x.b.TtC"));
    assert!(is_supported_font("dir.ttf/"));
    assert!(is_supported_font("a.ttf/."));
    assert!(!is_supported_font("font.woff2"));
    assert!(!is_supported_font(".ttf"));
    assert!(!is_supported_font("a/.ttf"));
    assert!(!is_supported_font("C:.ttf"));
    assert!(!is_supported_font("a.ttf/.."));
    assert!(!is_supported_font("noext"));
    assert!(!is_supported_font(""));
    assert!(is_supported_font("..ttf"));
}

#[test]
fn subtitle_extensions_are_recognised() {
    assert!(is_supported_subtitle("show\\ep01.ASS"));
    assert!(is_supported_subtitle("ep01.ssa"));
    assert!(!is_supported_subtitle("ep01.srt"));
    assert!(!is_supported_subtitle("ass"));
}

fn style_names(text: &str) -> Vec<(String, String)> {
    parse_ass(text).styles.iter().map(|s| (s.name.clone(), s.font_name.clone())).collect()
}

fn dialogue_styles(text: &str) -> Vec<String> {
    parse_ass(text).dialogues.iter().map(|d| d.style.clone()).collect()
}

#[test]
fn unknown_sections_and_line_endings_do_not_change_a_parse() {
    let lf = SCRIPT.replace("\r\n", "\n");
    let with_junk = format!("{lf}\n[Fonts]\nfontname: x.ttf\nStyle: Fake,Nope\nDialogue: 0,0,0,Default,z");
    assert_eq!(style_names(&with_junk), style_names(&lf));
    assert_eq!(dialogue_styles(&with_junk), dialogue_styles(&lf));
    let crlf = lf.replace('\n', "\r\n");
    assert_eq!(style_names(&crlf), style_names(&lf));
    assert_eq!(dialogue_styles(&crlf), dialogue_styles(&lf));
}

#[test]
fn report_keeps_one_entry_per_path_with_the_last_usage() {
    let a = "[V4+ Styles]\nFormat: Name, Fontname\nStyle: Default,Arial\n[Events]\nFormat: Style, Text\nDialogue: Default,x\n";
    let b = "[V4+ Styles]\nFormat: Name, Fontname\nStyle: Default,Verdana\n[Events]\nFormat: Style, Text\nDialogue: Default,x\n";
    let report = analyze_subtitle_font_report(vec![
        ("d/x.ass".to_string(), a.to_string()),
        ("d\\x.ass".to_string(), b.to_string()),
    ]);
    assert_eq!(report.files.len(), 1);
    assert_eq!(report.files[0].0, "d/x.ass");
    assert_eq!(report.files[0].1.required_fonts.to_vec(), vec!["Verdana"]);
    assert_eq!(report.required_fonts.to_vec(), vec!["Arial", "Verdana"]);
}

#[test]
fn decode_utf16_reads_surrogate_pairs_and_rejects_broken_ones() {
    assert_eq!(decode_subtitle_bytes(b"\xFE\xFF\xD8\x34\xDD\x1E\x00m"), Ok("\u{1D11E}m".to_string()));
    assert_eq!(decode_subtitle_bytes(b"\xFF\xFE\x34\xD8\x1E\xDD"), Ok("\u{1D11E}".to_string()));
    assert_eq!(decode_subtitle_bytes(b"\xFF\xFE\x1E\xDDa\x00"), Err(SubtitleDecodeError::Utf16Le));
    assert_eq!(decode_subtitle_bytes(b"\xFE\xFF\x00a\xD8"), Err(SubtitleDecodeError::Utf16Be));
}
