use sub_font_loader::discover::file_extension_lower;
use sub_font_loader::font::index::ScanSummary;
use sub_font_loader::font::names::{FontAlias, FontFaceAnalysis, FontFileAnalysis};
use sub_font_loader::font::scan::{face_record, file_is_unchanged, unavailable_file_ids, ScanOutcome};
use sub_font_loader::listing::{
    alias_csv_rows, db_path, decode_reverse_paths, family_matches, keeps_family_name,
    sorted_unique_aliases, unique_alias_count, wide_z_to_string,
};

fn alias(name_id: u16, value: &str) -> FontAlias {
    FontAlias {
        name_id,
        platform_id: "Windows".to_string(),
        encoding_id: 1,
        language_id: 1033,
        value: value.to_string(),
    }
}

fn face(index: u32, values: &[(u16, &str)]) -> FontFaceAnalysis {
    FontFaceAnalysis {
        face_index: index,
        family_name: None,
        subfamily_name: None,
        full_name: None,
        postscript_name: None,
        weight_class: None,
        is_italic: false,
        aliases: values.iter().map(|(id, v)| alias(*id, v)).collect(),
    }
}

#[test]
fn aliases_are_listed_once_each_in_lower_case_order() {
    let f = face(0, &[(1, "Noto"), (4, "arial"), (6, "NOTO"), (1, "Zeta"), (4, "Émile")]);
    assert_eq!(sorted_unique_aliases(&f), vec!["arial", "Noto", "Zeta", "Émile"]);
    assert!(sorted_unique_aliases(&face(0, &[])).is_empty());
}

#[test]
fn unique_aliases_are_counted_across_files() {
    let analyses = vec![
        FontFileAnalysis { path: "a.ttf".to_string(), faces: vec![face(0, &[(1, "A"), (4, "a"), (6, "B")])] },
        FontFileAnalysis { path: "b.ttc".to_string(), faces: vec![face(0, &[(1, "b")]), face(1, &[(1, "C")])] },
    ];
    assert_eq!(unique_alias_count(&analyses), 3);
    assert_eq!(unique_alias_count(&Vec::new()), 0);
}

#[test]
fn csv_rows_are_unique_and_sorted() {
    let analyses = vec![
        FontFileAnalysis { path: "z.ttf".to_string(), faces: vec![face(0, &[(1, "Zed")])] },
        FontFileAnalysis {
            path: "a.ttc".to_string(),
            faces: vec![face(1, &[(4, "beta"), (1, "Alpha"), (1, "ALPHA")]), face(0, &[(6, "Gamma")])],
        },
    ];
    let rows = alias_csv_rows(&analyses);
    let got: Vec<(&str, u32, u16, &str)> = rows
        .iter()
        .map(|r| (r.font_path.as_str(), r.face_index, r.name_id, r.alias.as_str()))
        .collect();
    assert_eq!(
        got,
        vec![
            ("a.ttc", 0, 6, "Gamma"),
            ("a.ttc", 1, 1, "Alpha"),
            ("a.ttc", 1, 4, "beta"),
            ("z.ttf", 0, 1, "Zed"),
        ]
    );
    assert_eq!(rows[0].platform_id, "Windows");
    assert_eq!(rows[0].language_id, 1033);
}

#[test]
fn system_family_names() {
    assert!(keeps_family_name("Arial", false));
    assert!(!keeps_family_name("@SimSun", false));
    assert!(keeps_family_name("@SimSun", true));
    assert!(!keeps_family_name("", true));
    assert!(family_matches("Noto Sans CJK", "sans c"));
    assert!(family_matches("Arial", ""));
    assert!(!family_matches("Ar", "arial"));
    assert!(!family_matches("Noto Serif", "sans"));
}

#[test]
fn wide_strings_stop_at_the_first_zero() {
    assert_eq!(wide_z_to_string(&[72, 105, 0, 65]), "Hi");
    assert_eq!(wide_z_to_string(&[65, 66]), "AB");
    assert_eq!(wide_z_to_string(&[0, 65]), "");
    assert_eq!(wide_z_to_string(&[0xD800, 0]), "\u{FFFD}");
}

#[test]
fn options_and_stored_paths() {
    assert_eq!(db_path(None), "font_index.redb");
    assert_eq!(db_path(Some("x.db".to_string())), "x.db");
    assert_eq!(decode_reverse_paths(" a \r\n\n  \nb\r\nc"), vec!["a", "b", "c"]);
    assert!(decode_reverse_paths("").is_empty());
    assert_eq!(decode_reverse_paths("one\n"), vec!["one"]);
}

#[test]
fn scan_bookkeeping() {
    assert!(file_is_unchanged(Some((10, 5)), 10, 5));
    assert!(!file_is_unchanged(Some((10, 5)), 10, 6));
    assert!(!file_is_unchanged(None, 10, 5));
    let mut summary = ScanSummary {
        root: "D:\\Fonts".to_string(),
        scanned_files: 4,
        indexed_files: 0,
        skipped_unchanged_files: 0,
        failed_files: 0,
        unavailable_files: 0,
    };
    summary.record(ScanOutcome::Indexed);
    summary.record(ScanOutcome::Unchanged);
    summary.record(ScanOutcome::MetadataFailed);
    summary.record(ScanOutcome::AnalysisFailed);
    assert_eq!((summary.indexed_files, summary.skipped_unchanged_files, summary.failed_files), (1, 1, 2));
    assert_eq!(summary.scanned_files, 4);
    let indexed = vec![(1, "a".to_string()), (2, "b".to_string()), (3, "c".to_string())];
    assert_eq!(unavailable_file_ids(&indexed, &vec!["b".to_string()]), vec![1, 3]);
    assert!(unavailable_file_ids(&indexed, &vec!["a".to_string(), "b".to_string(), "c".to_string()]).is_empty());
}

#[test]
fn face_records_take_the_first_of_each_name() {
    let f = face(7, &[(6, "PS"), (1, "Fam"), (1, "Other"), (4, "Full")]);
    let record = face_record(&f);
    assert_eq!(record.face_index, 7);
    assert_eq!(record.family_name.as_deref(), Some("Fam"));
    assert_eq!(record.full_name.as_deref(), Some("Full"));
    assert_eq!(record.postscript_name.as_deref(), Some("PS"));
}

#[test]
fn extensions_for_the_index() {
    assert_eq!(file_extension_lower("C:\\Fonts\\A.TTF"), "ttf");
    assert_eq!(file_extension_lower("noext"), "");
    assert_eq!(file_extension_lower("x.Tar.GZ"), "gz");
}

#[test]
fn wide_strings_decode_surrogate_pairs_and_replace_unpaired_ones() {
    assert_eq!(wide_z_to_string(&[0xD834, 0xDD1E, 0x6D, 0]), "\u{1D11E}m");
    assert_eq!(wide_z_to_string(&[0x41, 0xD800, 0x42, 0]), "A\u{FFFD}B");
    assert_eq!(wide_z_to_string(&[0xDD1E, 0x69, 0xD834]), "\u{FFFD}i\u{FFFD}");
}
