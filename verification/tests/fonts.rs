use sub_font_loader::font::index::{
    alias_kind, alias_priority, alias_raw_variants, alias_rows, first_alias_for_name_id,
    font_match_from_row, i64_to_u16, i64_to_u32, i64_to_usize, normalize_font_name,
    platform_id_value, resolve_required_fonts, u64_to_i64, FontMatch,
};
use sub_font_loader::font::names::{
    analyze_face, analyze_font_data, analyze_font_files, is_usable_name, name_priority,
    normalize_alias, platform_id_name, FontAlias, NameRecord, Platform,
};

fn be16(out: &mut Vec<u8>, v: u16) {
    out.extend_from_slice(&v.to_be_bytes());
}

fn be32(out: &mut Vec<u8>, v: u32) {
    out.extend_from_slice(&v.to_be_bytes());
}

fn utf16be(s: &str) -> Vec<u8> {
    s.encode_utf16().flat_map(|u| u.to_be_bytes()).collect()
}

/// A minimal font: `head`, `hhea`, `maxp` and a `name` table with these
/// records (platform, encoding, language, name ID, bytes).
fn font_bytes(records: &[(u16, u16, u16, u16, Vec<u8>)]) -> Vec<u8> {
    let mut head = vec![0u8; 54];
    head[0..4].copy_from_slice(&0x0001_0000u32.to_be_bytes());
    head[12..16].copy_from_slice(&0x5F0F_3CF5u32.to_be_bytes());
    head[18..20].copy_from_slice(&1000u16.to_be_bytes());
    let mut hhea = vec![0u8; 36];
    hhea[0..4].copy_from_slice(&0x0001_0000u32.to_be_bytes());
    hhea[34..36].copy_from_slice(&1u16.to_be_bytes());
    let mut maxp = Vec::new();
    be32(&mut maxp, 0x0000_5000);
    be16(&mut maxp, 1);
    let mut name = Vec::new();
    be16(&mut name, 0);
    be16(&mut name, records.len() as u16);
    be16(&mut name, (6 + 12 * records.len()) as u16);
    let mut storage = Vec::new();
    for (platform, encoding, language, name_id, bytes) in records {
        be16(&mut name, *platform);
        be16(&mut name, *encoding);
        be16(&mut name, *language);
        be16(&mut name, *name_id);
        be16(&mut name, bytes.len() as u16);
        be16(&mut name, storage.len() as u16);
        storage.extend_from_slice(bytes);
    }
    name.extend_from_slice(&storage);

    let tables: [(&[u8; 4], &Vec<u8>); 4] =
        [(b"head", &head), (b"hhea", &hhea), (b"maxp", &maxp), (b"name", &name)];
    let mut out = Vec::new();
    be32(&mut out, 0x0001_0000);
    be16(&mut out, tables.len() as u16);
    be16(&mut out, 0);
    be16(&mut out, 0);
    be16(&mut out, 0);
    let mut offset = 12 + 16 * tables.len();
    for (tag, data) in &tables {
        out.extend_from_slice(*tag);
        be32(&mut out, 0);
        be32(&mut out, offset as u32);
        be32(&mut out, data.len() as u32);
        offset += data.len();
    }
    for (_, data) in &tables {
        out.extend_from_slice(data);
    }
    out
}

fn sample_font() -> Vec<u8> {
    font_bytes(&[
        (3, 1, 0x0409, 1, utf16be("Noto Sans")),
        (3, 1, 0x0409, 2, utf16be("Regular")),
        (3, 1, 0x0409, 4, utf16be("Noto Sans Regular")),
        (3, 1, 0x0409, 6, utf16be("NotoSans-Regular")),
        (3, 1, 0x0804, 1, utf16be(" 思源黑体 ")),
        (3, 1, 0x0409, 16, utf16be("NOTO SANS")),
        (1, 0, 0, 1, b"Mac Name".to_vec()),
    ])
}

#[test]
fn font_data_is_analyzed_face_by_face() {
    let analysis = analyze_font_data("fonts/noto.ttf".to_string(), &sample_font()).unwrap();
    assert_eq!(analysis.path, "fonts/noto.ttf");
    assert_eq!(analysis.faces.len(), 1);
    let face = &analysis.faces[0];
    assert_eq!(face.face_index, 0);
    assert_eq!(face.family_name.as_deref(), Some("NOTO SANS"));
    assert_eq!(face.subfamily_name.as_deref(), Some("Regular"));
    assert_eq!(face.full_name.as_deref(), Some("Noto Sans Regular"));
    assert_eq!(face.postscript_name.as_deref(), Some("NotoSans-Regular"));
    assert_eq!(face.weight_class, Some(400));
    assert!(!face.is_italic);
    let aliases: Vec<(u16, &str, u16, &str)> = face
        .aliases
        .iter()
        .map(|a| (a.name_id, a.platform_id.as_str(), a.language_id, a.value.as_str()))
        .collect();
    assert_eq!(
        aliases,
        vec![
            (1, "Windows", 0x0409, "Noto Sans"),
            (4, "Windows", 0x0409, "Noto Sans Regular"),
            (6, "Windows", 0x0409, "NotoSans-Regular"),
            (1, "Windows", 0x0804, "思源黑体"),
            (16, "Windows", 0x0409, "NOTO SANS"),
        ]
    );
}

#[test]
fn unreadable_font_data_fails_at_the_face() {
    let error = analyze_font_data("bad.ttf".to_string(), b"not a font").unwrap_err();
    assert_eq!(error.face_index, 0);
    let files = vec![
        ("good.ttf".to_string(), sample_font()),
        ("bad.ttf".to_string(), b"junk".to_vec()),
    ];
    let (path, error) = analyze_font_files(&files).unwrap_err();
    assert_eq!(path, "bad.ttf");
    assert_eq!(error.face_index, 0);
    let only_good = vec![("good.ttf".to_string(), sample_font())];
    assert_eq!(analyze_font_files(&only_good).unwrap().len(), 1);
}

#[test]
fn face_analysis_prefers_better_records_and_skips_duplicates() {
    let names = vec![
        NameRecord { platform: Platform::Macintosh, encoding_id: 0, language_id: 0, name_id: 1, bytes: b"Mac".to_vec() },
        NameRecord { platform: Platform::Unicode, encoding_id: 3, language_id: 0, name_id: 1, bytes: utf16be("Uni") },
        NameRecord { platform: Platform::Windows, encoding_id: 1, language_id: 0x0411, name_id: 1, bytes: utf16be("Win JA") },
        NameRecord { platform: Platform::Windows, encoding_id: 1, language_id: 0x0409, name_id: 1, bytes: utf16be("win ja") },
        NameRecord { platform: Platform::Windows, encoding_id: 1, language_id: 0x0409, name_id: 4, bytes: utf16be("\u{0}\u{0}") },
        NameRecord { platform: Platform::Windows, encoding_id: 1, language_id: 0x0409, name_id: 4, bytes: utf16be("Bad\u{1}Name") },
        NameRecord { platform: Platform::Windows, encoding_id: 1, language_id: 0x0409, name_id: 3, bytes: utf16be("Unique ID") },
    ];
    let face = analyze_face(2, &names, 700, true);
    assert_eq!(face.face_index, 2);
    assert_eq!(face.family_name.as_deref(), Some("win ja"));
    assert_eq!(face.full_name, None);
    assert_eq!(face.weight_class, Some(700));
    assert!(face.is_italic);
    let values: Vec<&str> = face.aliases.iter().map(|a| a.value.as_str()).collect();
    assert_eq!(values, vec!["Uni", "Win JA"]);
    assert_eq!(face.aliases[0].platform_id, "Unicode");
}

#[test]
fn name_helpers_follow_their_rules() {
    assert!(is_usable_name(" Arial "));
    assert!(!is_usable_name("\0\0"));
    assert!(!is_usable_name("A\u{FFFD}"));
    assert!(!is_usable_name("A\u{7}B"));
    assert!(is_usable_name("A\tB"));
    assert_eq!(normalize_alias("  Arial "), Some("Arial".to_string()));
    assert_eq!(normalize_alias(" \t"), None);
    assert_eq!(name_priority(Platform::Windows, 0x0409, 16), 53);
    assert_eq!(name_priority(Platform::Windows, 0x0411, 21), 42);
    assert_eq!(name_priority(Platform::Unicode, 0, 1), 31);
    assert_eq!(name_priority(Platform::Macintosh, 0, 4), 20);
    assert_eq!(name_priority(Platform::Macintosh, 3, 2), 11);
    assert_eq!(name_priority(Platform::Iso, 0, 17), 3);
    assert_eq!(platform_id_name(Platform::Iso), "ISO");
    assert_eq!(platform_id_name(Platform::Custom), "Custom");
}

#[test]
fn font_names_normalize_for_lookup() {
    assert_eq!(normalize_font_name("  @Noto   Sans \t CJK  "), "noto sans cjk");
    assert_eq!(normalize_font_name("@ Arial"), "arial");
    assert_eq!(normalize_font_name("ＭＳ ゴシック"), "ms ゴシック");
    assert_eq!(normalize_font_name("ÉCOLE"), "école");
    assert_eq!(normalize_font_name(" @ "), "");
    assert_eq!(normalize_font_name(""), "");
}

#[test]
fn alias_kinds_and_priorities() {
    assert_eq!(alias_kind(1), "family");
    assert_eq!(alias_kind(4), "full_name");
    assert_eq!(alias_kind(6), "postscript_name");
    assert_eq!(alias_kind(16), "name");
    assert_eq!(alias_priority(1), 300);
    assert_eq!(alias_priority(4), 200);
    assert_eq!(alias_priority(6), 100);
    assert_eq!(alias_priority(21), 0);
    assert_eq!(platform_id_value("Windows"), Some(3));
    assert_eq!(platform_id_value("Unicode"), Some(0));
    assert_eq!(platform_id_value("Custom"), Some(4));
    assert_eq!(platform_id_value("windows"), None);
}

#[test]
fn raw_variants_add_the_name_without_at() {
    assert_eq!(alias_raw_variants("  @ Foo "), vec!["@ Foo", "Foo"]);
    assert_eq!(alias_raw_variants("Foo"), vec!["Foo"]);
    assert_eq!(alias_raw_variants(" @ "), vec!["@"]);
    assert!(alias_raw_variants("  ").is_empty());
}

fn alias(name_id: u16, platform: &str, language_id: u16, value: &str) -> FontAlias {
    FontAlias {
        name_id,
        platform_id: platform.to_string(),
        encoding_id: 1,
        language_id,
        value: value.to_string(),
    }
}

#[test]
fn alias_rows_skip_empty_keys_and_repeated_keys() {
    let aliases = vec![
        alias(1, "Windows", 1033, "@Noto Sans"),
        alias(1, "Windows", 1033, "NOTO  SANS"),
        alias(1, "Windows", 2052, "Noto Sans"),
        alias(6, "Mystery", 0, "NotoSans"),
        alias(4, "Windows", 1033, "@"),
    ];
    let rows = alias_rows(&aliases);
    let got: Vec<(&str, &str, &str, &str, Option<i64>, u16, i64)> = rows
        .iter()
        .map(|r| {
            (
                r.alias_raw.as_str(),
                r.alias_norm.as_str(),
                r.alias_kind.as_str(),
                r.language.as_str(),
                r.platform_id,
                r.name_id,
                r.priority,
            )
        })
        .collect();
    assert_eq!(
        got,
        vec![
            ("@Noto Sans", "noto sans", "family", "1033", Some(3), 1, 300),
            ("Noto Sans", "noto sans", "family", "2052", Some(3), 1, 300),
            ("NotoSans", "notosans", "postscript_name", "0", None, 6, 100),
        ]
    );
}

#[test]
fn first_alias_picks_the_first_with_the_id() {
    let names = vec![
        NameRecord { platform: Platform::Windows, encoding_id: 1, language_id: 0x0409, name_id: 6, bytes: utf16be("PS") },
        NameRecord { platform: Platform::Windows, encoding_id: 1, language_id: 0x0409, name_id: 1, bytes: utf16be("Fam") },
        NameRecord { platform: Platform::Windows, encoding_id: 1, language_id: 0x0411, name_id: 1, bytes: utf16be("Other") },
    ];
    let face = analyze_face(0, &names, 400, false);
    assert_eq!(first_alias_for_name_id(&face, 1), Some("Fam".to_string()));
    assert_eq!(first_alias_for_name_id(&face, 6), Some("PS".to_string()));
    assert_eq!(first_alias_for_name_id(&face, 4), None);
}

#[test]
fn integer_conversions_saturate() {
    assert_eq!(u64_to_i64(5), 5);
    assert_eq!(u64_to_i64(u64::MAX), i64::MAX);
    assert_eq!(i64_to_u32(-1), u32::MAX);
    assert_eq!(i64_to_u32(70_000), 70_000);
    assert_eq!(i64_to_u32(i64::MAX), u32::MAX);
    assert_eq!(i64_to_u16(70_000), u16::MAX);
    assert_eq!(i64_to_u16(700), 700);
    assert_eq!(i64_to_usize(-3), usize::MAX);
    assert_eq!(i64_to_usize(3), 3);
}

fn font_match(name: &str, alias: &str, path: &str) -> FontMatch {
    font_match_from_row(
        name.to_string(),
        alias.to_string(),
        "family".to_string(),
        path.to_string(),
        path.to_string(),
        0,
        (Some(alias.to_string()), None, None, None),
        None,
        0,
    )
}

#[test]
fn rows_become_matches() {
    let m = font_match_from_row(
        "Req".to_string(),
        "Alias".to_string(),
        "full_name".to_string(),
        "a.ttc".to_string(),
        "C:\\a.ttc".to_string(),
        -4,
        (None, Some("Bold".to_string()), None, None),
        Some(100_000),
        2,
    );
    assert_eq!(m.face_index, u32::MAX);
    assert_eq!(m.weight_class, Some(u16::MAX));
    assert!(m.is_italic);
    assert_eq!(m.subfamily_name.as_deref(), Some("Bold"));
    let n = font_match_from_row(
        "Req".to_string(), "Alias".to_string(), "name".to_string(), "b".to_string(), "b".to_string(),
        3, (None, None, None, None), Some(400), 0,
    );
    assert_eq!(n.face_index, 3);
    assert_eq!(n.weight_class, Some(400));
    assert!(!n.is_italic);
}

#[test]
fn resolving_lists_each_file_once_in_path_order() {
    let lookups = vec![
        ("Zed".to_string(), vec![font_match("Zed", "zed", "fonts/z.ttf"), font_match("Zed", "zed b", "fonts/a.ttf")]),
        ("Gone".to_string(), vec![]),
        ("Ace".to_string(), vec![font_match("Ace", "ace", "fonts/a.ttf")]),
        ("Dash".to_string(), vec![font_match("Dash", "dash", "fonts-x/d.ttf")]),
        ("Lost".to_string(), vec![]),
    ];
    let report = resolve_required_fonts(lookups);
    let matched: Vec<&str> = report.matched.iter().map(|r| r.requested_name.as_str()).collect();
    assert_eq!(matched, vec!["Zed", "Ace", "Dash"]);
    assert_eq!(report.matched[0].matches.len(), 2);
    assert_eq!(report.missing, vec!["Gone", "Lost"]);
    assert_eq!(report.unique_font_paths, vec!["fonts/a.ttf", "fonts/z.ttf", "fonts-x/d.ttf"]);
}

#[test]
fn resolving_nothing_gives_an_empty_report() {
    let report = resolve_required_fonts(vec![]);
    assert!(report.matched.is_empty());
    assert!(report.missing.is_empty());
    assert!(report.unique_font_paths.is_empty());
}
