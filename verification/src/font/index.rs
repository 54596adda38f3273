//! The pure side of the font index: how names are normalized for lookup,
//! which alias rows a face contributes, and how lookups for the fonts a set
//! of subtitles requires are gathered into a report.

use unicode_normalization::UnicodeNormalization;
use vstd::prelude::*;

use crate::font::names::{
    alias_view, AliasView, FontAlias, FontFaceAnalysis, NAME_ID_FAMILY, NAME_ID_FULL_NAME,
    NAME_ID_POST_SCRIPT_NAME,
};
use crate::name_set::{contains_string, string_views};
use crate::sort::{insertion_sorted, sorted_by_key, stable_sort, SortKey};
use crate::text::{
    chars_equal, chars_of, decimal, is_trimmed, is_white_space, is_whitespace, lemma_trim_is_trimmed,
    lowercase_of, path_eq, path_keys, path_less, path_lt, push_decimal, string_of_range,
    lemma_lex_total, lex_lt,
    trim_range, trim_seq, trim_start_range, trim_start_seq, unicode_lowercase,
};

verus! {

// ---------------------------------------------------------------------------
// Reports
// ---------------------------------------------------------------------------

/// What a scan of a font directory did.
#[derive(Debug, Clone, Default, PartialEq, Eq)]
pub struct ScanSummary {
    pub root: String,
    pub scanned_files: usize,
    pub indexed_files: usize,
    pub skipped_unchanged_files: usize,
    pub failed_files: usize,
    pub unavailable_files: usize,
}

/// An indexed face that answers to a requested name.
#[derive(Debug, Clone, PartialEq, Eq)]
pub struct FontMatch {
    pub requested_name: String,
    pub matched_alias: String,
    pub alias_kind: String,
    pub font_path: String,
    pub canonical_path: String,
    pub face_index: u32,
    pub family_name: Option<String>,
    pub subfamily_name: Option<String>,
    pub full_name: Option<String>,
    pub postscript_name: Option<String>,
    pub weight_class: Option<u16>,
    pub is_italic: bool,
}

/// The faces that answer to one requested name.
#[derive(Debug, Clone, PartialEq, Eq)]
pub struct ResolvedFont {
    pub requested_name: String,
    pub matches: Vec<FontMatch>,
}

/// Which requested fonts were found, which were not, and which files to load.
#[derive(Debug, Clone, Default, PartialEq, Eq)]
pub struct ResolveReport {
    pub matched: Vec<ResolvedFont>,
    pub missing: Vec<String>,
    pub unique_font_paths: Vec<String>,
}

// ---------------------------------------------------------------------------
// Name normalization
// ---------------------------------------------------------------------------

/// The NFKC normalization of `s` (by the `unicode-normalization` crate),
/// which nothing here spells out.
pub uninterp spec fn nfkc_of(s: Seq<char>) -> Seq<char>;

/// `UnicodeNormalization::nfkc` of the `unicode-normalization` crate, collected.
#[verifier::external_body]
fn nfkc(s: &str) -> (r: String)
    ensures
        r@ == nfkc_of(s@),
{
    s.nfkc().collect::<String>()
}

/// Runs of white space become one space, and white space before the first
/// other character is dropped (`out` and `last_space` carry what was seen).
pub open spec fn collapse_ws(out: Seq<char>, last_space: bool, s: Seq<char>) -> Seq<char>
    decreases s.len(),
{
    if s.len() == 0 {
        out
    } else if is_white_space(s[0]) {
        if !last_space && out.len() > 0 {
            collapse_ws(out.push(' '), true, s.drop_first())
        } else {
            collapse_ws(out, last_space, s.drop_first())
        }
    } else {
        collapse_ws(out.push(s[0]), false, s.drop_first())
    }
}

/// The key a font name is looked up by: trimmed, NFKC-normalized, white space
/// collapsed, lower-cased, and without a leading `@`.
pub open spec fn font_key_of(name: Seq<char>) -> Seq<char> {
    let normalized = nfkc_of(trim_seq(name));
    let collapsed = collapse_ws(seq![], false, normalized);
    let lowered = lowercase_of(trim_seq(collapsed));
    let stripped = if lowered.len() > 0 && lowered[0] == '@' {
        lowered.drop_first()
    } else {
        lowered
    };
    trim_seq(trim_start_seq(stripped))
}

/// Normalizes a font name for lookup: NFKC normalization, white space
/// collapsed to single spaces, lower-casing, and a leading `@` removed.
pub fn normalize_font_name(name: &str) -> (r: String)
    ensures
        r@ == font_key_of(name@),
        is_trimmed(r@),
{
    let trimmed = crate::text::trim_string(name);
    let normalized = nfkc(trimmed.as_str());
    let cs = chars_of(normalized.as_str());
    let mut collapsed = String::new();
    let mut last_space = false;
    let mut i: usize = 0;
    proof {
        assert(cs@.skip(0) =~= cs@);
    }
    while i < cs.len()
        invariant
            i <= cs.len(),
            collapse_ws(seq![], false, cs@) == collapse_ws(collapsed@, last_space, cs@.skip(i as int)),
        decreases cs.len() - i,
    {
        let ch = cs[i];
        proof {
            assert(cs@.skip(i as int)[0] == ch);
            assert(cs@.skip(i as int).drop_first() =~= cs@.skip(i + 1));
        }
        if is_whitespace(ch) {
            if !last_space && !collapsed.as_str().is_empty() {
                collapsed.push(' ');
                last_space = true;
            }
        } else {
            collapsed.push(ch);
            last_space = false;
        }
        i += 1;
    }
    proof {
        assert(cs@.skip(cs@.len() as int) =~= Seq::<char>::empty());
    }
    let collapsed_trimmed = crate::text::trim_string(collapsed.as_str());
    let lowered = unicode_lowercase(collapsed_trimmed.as_str());
    let lc = chars_of(lowered.as_str());
    let start: usize = if lc.len() > 0 && lc[0] == '@' {
        1
    } else {
        0
    };
    proof {
        if start == 1 {
            assert(lc@.subrange(1, lc@.len() as int) =~= lc@.drop_first());
        } else {
            assert(lc@.subrange(0, lc@.len() as int) =~= lc@);
        }
    }
    let a = trim_start_range(lc.as_slice(), start, lc.len());
    let (b, c) = trim_range(lc.as_slice(), a, lc.len());
    let r = string_of_range(lc.as_slice(), b, c);
    proof {
        lemma_trim_is_trimmed(trim_start_seq(lc@.subrange(start as int, lc@.len() as int)));
    }
    r
}

// ---------------------------------------------------------------------------
// Aliases
// ---------------------------------------------------------------------------

/// The kind an alias is indexed as.
pub open spec fn alias_kind_of(name_id: u16) -> Seq<char> {
    if name_id == NAME_ID_FAMILY {
        "family"@
    } else if name_id == NAME_ID_FULL_NAME {
        "full_name"@
    } else if name_id == NAME_ID_POST_SCRIPT_NAME {
        "postscript_name"@
    } else {
        "name"@
    }
}

pub fn alias_kind(name_id: u16) -> (r: &'static str)
    ensures
        r@ == alias_kind_of(name_id),
{
    if name_id == NAME_ID_FAMILY {
        "family"
    } else if name_id == NAME_ID_FULL_NAME {
        "full_name"
    } else if name_id == NAME_ID_POST_SCRIPT_NAME {
        "postscript_name"
    } else {
        "name"
    }
}

/// How strongly a match on an alias of this kind is preferred.
pub open spec fn alias_priority_of(name_id: u16) -> i64 {
    if name_id == NAME_ID_FAMILY {
        300
    } else if name_id == NAME_ID_FULL_NAME {
        200
    } else if name_id == NAME_ID_POST_SCRIPT_NAME {
        100
    } else {
        0
    }
}

pub fn alias_priority(name_id: u16) -> (r: i64)
    ensures
        r == alias_priority_of(name_id),
{
    if name_id == NAME_ID_FAMILY {
        300
    } else if name_id == NAME_ID_FULL_NAME {
        200
    } else if name_id == NAME_ID_POST_SCRIPT_NAME {
        100
    } else {
        0
    }
}

/// The numeric platform ID for a platform name.
pub open spec fn platform_id_of(name: Seq<char>) -> Option<i64> {
    if name == "Unicode"@ {
        Some(0)
    } else if name == "Macintosh"@ {
        Some(1)
    } else if name == "ISO"@ {
        Some(2)
    } else if name == "Windows"@ {
        Some(3)
    } else if name == "Custom"@ {
        Some(4)
    } else {
        None
    }
}

pub fn platform_id_value(platform_id: &str) -> (r: Option<i64>)
    ensures
        r == platform_id_of(platform_id@),
{
    let p = chars_of(platform_id);
    let unicode = chars_of("Unicode");
    let mac = chars_of("Macintosh");
    let iso = chars_of("ISO");
    let windows = chars_of("Windows");
    let custom = chars_of("Custom");
    if chars_equal(p.as_slice(), unicode.as_slice()) {
        Some(0)
    } else if chars_equal(p.as_slice(), mac.as_slice()) {
        Some(1)
    } else if chars_equal(p.as_slice(), iso.as_slice()) {
        Some(2)
    } else if chars_equal(p.as_slice(), windows.as_slice()) {
        Some(3)
    } else if chars_equal(p.as_slice(), custom.as_slice()) {
        Some(4)
    } else {
        None
    }
}

/// The raw spellings an alias is stored under: the trimmed value, and without
/// its leading `@` when it has one.
pub open spec fn raw_variants_of(value: Seq<char>) -> Seq<Seq<char>> {
    let v = trim_seq(value);
    if v.len() == 0 {
        seq![]
    } else if v[0] == '@' && trim_start_seq(v.drop_first()).len() > 0 {
        seq![v, trim_start_seq(v.drop_first())]
    } else {
        seq![v]
    }
}

pub fn alias_raw_variants(value: &str) -> (r: Vec<String>)
    ensures
        string_views(r@) == raw_variants_of(value@),
{
    let cs = chars_of(value);
    proof {
        assert(cs@.subrange(0, cs@.len() as int) =~= cs@);
    }
    let (a, b) = trim_range(cs.as_slice(), 0, cs.len());
    let mut variants: Vec<String> = Vec::new();
    if a == b {
        proof {
            assert(string_views(variants@) =~= Seq::<Seq<char>>::empty());
        }
        return variants;
    }
    variants.push(string_of_range(cs.as_slice(), a, b));
    if cs[a] == '@' {
        let c = trim_start_range(cs.as_slice(), a + 1, b);
        proof {
            assert(cs@.subrange(a as int, b as int).drop_first() =~= cs@.subrange(a + 1, b as int));
        }
        if c < b {
            variants.push(string_of_range(cs.as_slice(), c, b));
        }
    }
    proof {
        assert(string_views(variants@) =~= raw_variants_of(value@));
    }
    variants
}

/// The value of the first alias with this name ID.
pub open spec fn first_alias_of(aliases: Seq<AliasView>, name_id: u16) -> Option<Seq<char>>
    decreases aliases.len(),
{
    if aliases.len() == 0 {
        None
    } else if aliases[0].0 == name_id {
        Some(aliases[0].4)
    } else {
        first_alias_of(aliases.drop_first(), name_id)
    }
}

pub fn first_alias_for_name_id(face: &FontFaceAnalysis, name_id: u16) -> (r: Option<String>)
    ensures
        crate::font::names::opt_view(r) == first_alias_of(
            face.aliases@.map_values(|a: FontAlias| alias_view(a)),
            name_id,
        ),
{
    let ghost av = face.aliases@.map_values(|a: FontAlias| alias_view(a));
    let mut i: usize = 0;
    proof {
        assert(av.skip(0) =~= av);
    }
    while i < face.aliases.len()
        invariant
            i <= face.aliases.len(),
            av == face.aliases@.map_values(|a: FontAlias| alias_view(a)),
            first_alias_of(av, name_id) == first_alias_of(av.skip(i as int), name_id),
        decreases face.aliases.len() - i,
    {
        proof {
            assert(av.skip(i as int)[0] == alias_view(face.aliases@[i as int]));
            assert(av.skip(i as int).drop_first() =~= av.skip(i + 1));
        }
        if face.aliases[i].name_id == name_id {
            return Some(face.aliases[i].value.clone());
        }
        i += 1;
    }
    proof {
        assert(av.skip(i as int) =~= Seq::<AliasView>::empty());
    }
    None
}

// ---------------------------------------------------------------------------
// Alias rows
// ---------------------------------------------------------------------------

/// One row of the alias table: a spelling of a name, the key it is looked up
/// by, and the name record it came from.
#[derive(Debug, Clone, PartialEq, Eq)]
pub struct AliasRow {
    pub alias_raw: String,
    pub alias_norm: String,
    pub alias_kind: String,
    pub language: String,
    pub platform_id: Option<i64>,
    pub name_id: u16,
    pub priority: i64,
}

/// An alias row as plain values, in field order.
pub type RowView = (Seq<char>, Seq<char>, Seq<char>, Seq<char>, Option<i64>, u16, i64);

pub open spec fn row_view(r: AliasRow) -> RowView {
    (r.alias_raw@, r.alias_norm@, r.alias_kind@, r.language@, r.platform_id, r.name_id, r.priority)
}

pub open spec fn rows_view(rows: Seq<AliasRow>) -> Seq<RowView> {
    rows.map_values(|r: AliasRow| row_view(r))
}

/// What no two rows of one face may share: the lookup key, the kind, the
/// language, the platform and the name ID.
pub type RowKey = (Seq<char>, Seq<char>, Seq<char>, Option<i64>, u16);

pub open spec fn row_key(r: RowView) -> RowKey {
    (r.1, r.2, r.3, r.4, r.5)
}

pub open spec fn has_key(rows: Seq<RowView>, k: RowKey) -> bool {
    exists|i: int| 0 <= i < rows.len() && row_key(#[trigger] rows[i]) == k
}

/// The row that the spelling `raw` of alias `a` gives.
pub open spec fn variant_row(a: AliasView, raw: Seq<char>) -> RowView {
    (
        raw,
        font_key_of(raw),
        alias_kind_of(a.0),
        decimal(a.3 as nat),
        platform_id_of(a.1),
        a.0,
        alias_priority_of(a.0),
    )
}

/// Adds the row of one spelling, unless its lookup key is empty or a row
/// with the same key is already there.
pub open spec fn add_variant(rows: Seq<RowView>, a: AliasView, raw: Seq<char>) -> Seq<RowView> {
    let row = variant_row(a, raw);
    if row.1.len() == 0 || has_key(rows, row_key(row)) {
        rows
    } else {
        rows.push(row)
    }
}

pub open spec fn add_variants(rows: Seq<RowView>, a: AliasView, vs: Seq<Seq<char>>) -> Seq<RowView>
    decreases vs.len(),
{
    if vs.len() == 0 {
        rows
    } else {
        add_variants(add_variant(rows, a, vs[0]), a, vs.drop_first())
    }
}

/// The rows a face's aliases give, in the order of the aliases.
pub open spec fn alias_rows_of(aliases: Seq<AliasView>) -> Seq<RowView>
    decreases aliases.len(),
{
    if aliases.len() == 0 {
        seq![]
    } else {
        let a = aliases.last();
        add_variants(alias_rows_of(aliases.drop_last()), a, raw_variants_of(a.4))
    }
}

/// No two rows share a key.
pub open spec fn keys_distinct(rows: Seq<RowView>) -> bool {
    forall|i: int, j: int|
        0 <= i < j < rows.len() ==> row_key(#[trigger] rows[i]) != row_key(#[trigger] rows[j])
}

/// Every row is looked up by the key of its spelling, and that key is not empty.
pub open spec fn rows_keyed(rows: Seq<RowView>) -> bool {
    forall|i: int| 0 <= i < rows.len() ==> (#[trigger] rows[i]).1 == font_key_of(rows[i].0) && rows[i].1.len() > 0
}

proof fn lemma_add_variants(rows: Seq<RowView>, a: AliasView, vs: Seq<Seq<char>>)
    requires
        keys_distinct(rows),
        rows_keyed(rows),
    ensures
        keys_distinct(add_variants(rows, a, vs)),
        rows_keyed(add_variants(rows, a, vs)),
    decreases vs.len(),
{
    if vs.len() > 0 {
        let next = add_variant(rows, a, vs[0]);
        assert(keys_distinct(next)) by {
            let row = variant_row(a, vs[0]);
            if !(row.1.len() == 0 || has_key(rows, row_key(row))) {
                assert forall|i: int, j: int| 0 <= i < j < next.len() implies row_key(
                    #[trigger] next[i],
                ) != row_key(#[trigger] next[j]) by {
                    if j == rows.len() {
                        assert(next[i] == rows[i]);
                    }
                }
            }
        }
        lemma_add_variants(next, a, vs.drop_first());
    }
}

/// The rows of a face's aliases never repeat a key, and each is looked up by
/// the non-empty key of its own spelling.
pub proof fn lemma_alias_rows(aliases: Seq<AliasView>)
    ensures
        keys_distinct(alias_rows_of(aliases)),
        rows_keyed(alias_rows_of(aliases)),
    decreases aliases.len(),
{
    if aliases.len() > 0 {
        lemma_alias_rows(aliases.drop_last());
        lemma_add_variants(alias_rows_of(aliases.drop_last()), aliases.last(), raw_variants_of(aliases.last().4));
    }
}

fn same_platform(a: Option<i64>, b: Option<i64>) -> (r: bool)
    ensures
        r == (a == b),
{
    match (a, b) {
        (Some(x), Some(y)) => x == y,
        (None, None) => true,
        _ => false,
    }
}

fn find_row_key(rows: &Vec<AliasRow>, norm: &String, kind: &String, language: &String, platform_id: Option<i64>, name_id: u16) -> (r: bool)
    ensures
        r == has_key(rows_view(rows@), (norm@, kind@, language@, platform_id, name_id)),
{
    let ghost k = (norm@, kind@, language@, platform_id, name_id);
    let mut i: usize = 0;
    while i < rows.len()
        invariant
            i <= rows.len(),
            k == (norm@, kind@, language@, platform_id, name_id),
            forall|j: int| 0 <= j < i ==> row_key(#[trigger] rows_view(rows@)[j]) != k,
        decreases rows.len() - i,
    {
        let row = &rows[i];
        if row.alias_norm == *norm && row.alias_kind == *kind && row.language == *language
            && same_platform(row.platform_id, platform_id) && row.name_id == name_id {
            proof {
                assert(row_key(rows_view(rows@)[i as int]) == k);
            }
            return true;
        }
        i += 1;
    }
    false
}

/// The alias-table rows of a face: each alias under its trimmed spelling and,
/// when that starts with `@`, also without it; spellings whose lookup key is
/// empty, and repeats of a key already given, are left out.
pub fn alias_rows(aliases: &Vec<FontAlias>) -> (rows: Vec<AliasRow>)
    ensures
        rows_view(rows@) == alias_rows_of(aliases@.map_values(|a: FontAlias| alias_view(a))),
        keys_distinct(rows_view(rows@)),
        rows_keyed(rows_view(rows@)),
{
    let ghost av = aliases@.map_values(|a: FontAlias| alias_view(a));
    let mut rows: Vec<AliasRow> = Vec::new();
    let mut i: usize = 0;
    proof {
        assert(av.take(0) =~= Seq::<AliasView>::empty());
        assert(rows_view(rows@) =~= Seq::<RowView>::empty());
    }
    while i < aliases.len()
        invariant
            i <= aliases.len(),
            av == aliases@.map_values(|a: FontAlias| alias_view(a)),
            rows_view(rows@) == alias_rows_of(av.take(i as int)),
        decreases aliases.len() - i,
    {
        let alias = &aliases[i];
        let ghost a = av[i as int];
        let variants = alias_raw_variants(alias.value.as_str());
        let kind = alias_kind(alias.name_id).to_owned();
        let priority = alias_priority(alias.name_id);
        let mut language = String::new();
        push_decimal(&mut language, alias.language_id as u64);
        let platform_id = platform_id_value(alias.platform_id.as_str());
        let ghost vs = string_views(variants@);
        let ghost start = rows_view(rows@);
        proof {
            assert(language@ =~= decimal(alias.language_id as nat));
            assert(vs.skip(0) =~= vs);
        }
        let mut j: usize = 0;
        while j < variants.len()
            invariant
                j <= variants.len(),
                vs == string_views(variants@),
                a == alias_view(*alias),
                kind@ == alias_kind_of(a.0),
                priority == alias_priority_of(a.0),
                language@ == decimal(a.3 as nat),
                platform_id == platform_id_of(a.1),
                add_variants(start, a, vs) == add_variants(rows_view(rows@), a, vs.skip(j as int)),
            decreases variants.len() - j,
        {
            let raw = &variants[j];
            let norm = normalize_font_name(raw.as_str());
            proof {
                assert(vs.skip(j as int)[0] == raw@);
                assert(vs.skip(j as int).drop_first() =~= vs.skip(j + 1));
            }
            if !norm.as_str().is_empty() && !find_row_key(&rows, &norm, &kind, &language, platform_id, alias.name_id) {
                let ghost before = rows_view(rows@);
                rows.push(AliasRow {
                    alias_raw: raw.clone(),
                    alias_norm: norm,
                    alias_kind: kind.clone(),
                    language: language.clone(),
                    platform_id,
                    name_id: alias.name_id,
                    priority,
                });
                proof {
                    assert(rows_view(rows@) =~= before.push(variant_row(a, raw@)));
                }
            }
            j += 1;
        }
        proof {
            assert(vs.skip(j as int) =~= Seq::<Seq<char>>::empty());
            assert(av.take(i + 1).drop_last() =~= av.take(i as int));
        }
        i += 1;
    }
    proof {
        assert(av.take(aliases.len() as int) =~= av);
        lemma_alias_rows(av);
    }
    rows
}

// ---------------------------------------------------------------------------
// Lookup rows
// ---------------------------------------------------------------------------

/// `u32::try_from(v)`, or `u32::MAX` when it does not fit.
pub open spec fn clamp_u32(v: i64) -> u32 {
    if 0 <= v <= u32::MAX { v as u32 } else { u32::MAX }
}

/// `u16::try_from(v)`, or `u16::MAX` when it does not fit.
pub open spec fn clamp_u16(v: i64) -> u16 {
    if 0 <= v <= u16::MAX { v as u16 } else { u16::MAX }
}

/// The match that one row of an alias lookup describes: the stored face
/// index and weight are clamped into their types, and any non-zero italic
/// flag counts as italic.
pub fn font_match_from_row(
    requested_name: String,
    matched_alias: String,
    alias_kind: String,
    font_path: String,
    canonical_path: String,
    face_index: i64,
    names: (Option<String>, Option<String>, Option<String>, Option<String>),
    weight_class: Option<i64>,
    is_italic: i64,
) -> (m: FontMatch)
    ensures
        m.requested_name == requested_name,
        m.matched_alias == matched_alias,
        m.alias_kind == alias_kind,
        m.font_path == font_path,
        m.canonical_path == canonical_path,
        m.face_index == clamp_u32(face_index),
        m.family_name == names.0,
        m.subfamily_name == names.1,
        m.full_name == names.2,
        m.postscript_name == names.3,
        m.weight_class == (match weight_class {
            Some(w) => Some(clamp_u16(w)),
            None => None,
        }),
        m.is_italic == (is_italic != 0),
{
    let (family_name, subfamily_name, full_name, postscript_name) = names;
    let weight = match weight_class {
        Some(w) => Some(i64_to_u16(w)),
        None => None,
    };
    FontMatch {
        requested_name,
        matched_alias,
        alias_kind,
        font_path,
        canonical_path,
        face_index: i64_to_u32(face_index),
        family_name,
        subfamily_name,
        full_name,
        postscript_name,
        weight_class: weight,
        is_italic: is_italic != 0,
    }
}

// ---------------------------------------------------------------------------
// Resolving required fonts
// ---------------------------------------------------------------------------

/// Font file paths sort in path order.
impl SortKey for String {
    open spec fn sort_key(&self) -> Seq<int> {
        path_keys(self@)
    }

    fn key_less(&self, other: &Self) -> (r: bool) {
        let a = chars_of(self.as_str());
        let b = chars_of(other.as_str());
        path_less(a.as_slice(), b.as_slice())
    }
}

/// The lookups that found at least one face, in order.
pub open spec fn matched_lookups(l: Seq<(String, Vec<FontMatch>)>) -> Seq<(String, Vec<FontMatch>)>
    decreases l.len(),
{
    if l.len() == 0 {
        seq![]
    } else if l.last().1@.len() > 0 {
        matched_lookups(l.drop_last()).push(l.last())
    } else {
        matched_lookups(l.drop_last())
    }
}

/// Every looked-up name is either matched or missing.
pub proof fn lemma_resolve_partition(l: Seq<(String, Vec<FontMatch>)>)
    ensures
        matched_lookups(l).len() + missing_names(l).len() == l.len(),
    decreases l.len(),
{
    if l.len() > 0 {
        lemma_resolve_partition(l.drop_last());
    }
}

/// The names whose lookup found nothing, in order.
pub open spec fn missing_names(l: Seq<(String, Vec<FontMatch>)>) -> Seq<String>
    decreases l.len(),
{
    if l.len() == 0 {
        seq![]
    } else if l.last().1@.len() > 0 {
        missing_names(l.drop_last())
    } else {
        missing_names(l.drop_last()).push(l.last().0)
    }
}

pub open spec fn match_paths(ms: Seq<FontMatch>) -> Seq<String> {
    ms.map_values(|m: FontMatch| m.canonical_path)
}

/// The canonical paths of all matches, lookup by lookup.
pub open spec fn lookup_paths(l: Seq<(String, Vec<FontMatch>)>) -> Seq<String>
    decreases l.len(),
{
    if l.len() == 0 {
        seq![]
    } else {
        lookup_paths(l.drop_last()) + match_paths(l.last().1@)
    }
}

/// The first occurrence of each path text, in order.
pub open spec fn first_occurrences(s: Seq<String>) -> Seq<String>
    decreases s.len(),
{
    if s.len() == 0 {
        seq![]
    } else {
        let r = first_occurrences(s.drop_last());
        if string_views(r).contains(s.last()@) {
            r
        } else {
            r.push(s.last())
        }
    }
}

/// The view of a resolved font: the requested name and its matches.
pub open spec fn resolved_view(f: ResolvedFont) -> (String, Vec<FontMatch>) {
    (f.requested_name, f.matches)
}

proof fn lemma_first_occurrences(s: Seq<String>)
    ensures
        forall|i: int, j: int|
            0 <= i < j < first_occurrences(s).len() ==> (#[trigger] first_occurrences(s)[i])@
                != (#[trigger] first_occurrences(s)[j])@,
        forall|k: int| 0 <= k < s.len() ==> string_views(first_occurrences(s)).contains((#[trigger] s[k])@),
        forall|k: int| 0 <= k < first_occurrences(s).len() ==> s.contains(#[trigger] first_occurrences(s)[k]),
    decreases s.len(),
{
    if s.len() > 0 {
        let init = s.drop_last();
        lemma_first_occurrences(init);
        let r = first_occurrences(init);
        let fo = first_occurrences(s);
        assert forall|k: int| 0 <= k < s.len() implies string_views(fo).contains((#[trigger] s[k])@) by {
            if k < init.len() {
                assert(init[k] == s[k]);
                let m = choose|m: int| 0 <= m < string_views(r).len() && string_views(r)[m] == s[k]@;
                assert(string_views(fo)[m] == s[k]@);
            } else if !string_views(r).contains(s.last()@) {
                assert(string_views(fo)[r.len() as int] == s.last()@);
            }
        }
        assert forall|k: int| 0 <= k < fo.len() implies s.contains(#[trigger] fo[k]) by {
            if k < r.len() {
                assert(init.contains(r[k]));
                let m = choose|m: int| 0 <= m < init.len() && init[m] == r[k];
                assert(s[m] == r[k]);
            } else {
                assert(s[s.len() - 1] == fo[k]);
            }
        }
        assert forall|i: int, j: int| 0 <= i < j < fo.len() implies (#[trigger] fo[i])@ != (#[trigger] fo[j])@ by {
            if j == r.len() {
                assert(string_views(r)[i] == fo[i]@);
            }
        }
    }
}

proof fn lemma_sorted_paths(fo: Seq<String>, r: Seq<String>, all: Seq<String>)
    requires
        r.to_multiset() == fo.to_multiset(),
        forall|i: int, j: int| 0 <= i < j < fo.len() ==> (#[trigger] fo[i])@ != (#[trigger] fo[j])@,
        forall|k: int| 0 <= k < all.len() ==> string_views(fo).contains((#[trigger] all[k])@),
        forall|k: int| 0 <= k < fo.len() ==> all.contains(#[trigger] fo[k]),
    ensures
        forall|i: int, j: int| 0 <= i < j < r.len() ==> (#[trigger] r[i])@ != (#[trigger] r[j])@,
        forall|k: int| 0 <= k < all.len() ==> string_views(r).contains((#[trigger] all[k])@),
        forall|k: int| 0 <= k < r.len() ==> string_views(all).contains((#[trigger] r[k])@),
{
    broadcast use vstd::seq_lib::to_multiset_contains;
    assert(fo.no_duplicates()) by {
        assert forall|i: int, j: int| 0 <= i < fo.len() && 0 <= j < fo.len() && i != j implies fo[i] != fo[j] by {
            if i < j {
                assert(fo[i]@ != fo[j]@);
            } else {
                assert(fo[j]@ != fo[i]@);
            }
        }
    }
    fo.lemma_multiset_has_no_duplicates();
    r.lemma_multiset_has_no_duplicates_conv();
    assert forall|k: int| 0 <= k < r.len() implies fo.contains(#[trigger] r[k]) by {
        assert(r.to_multiset().count(r[k]) > 0);
    }
    assert forall|i: int, j: int| 0 <= i < j < r.len() implies (#[trigger] r[i])@ != (#[trigger] r[j])@ by {
        assert(fo.contains(r[i]));
        assert(fo.contains(r[j]));
        let a = choose|a: int| 0 <= a < fo.len() && fo[a] == r[i];
        let b = choose|b: int| 0 <= b < fo.len() && fo[b] == r[j];
        assert(r[i] != r[j]);
        if a < b {
            assert(fo[a]@ != fo[b]@);
        } else {
            assert(fo[b]@ != fo[a]@);
        }
    }
    assert forall|k: int| 0 <= k < all.len() implies string_views(r).contains((#[trigger] all[k])@) by {
        let m = choose|m: int| 0 <= m < string_views(fo).len() && string_views(fo)[m] == all[k]@;
        assert(fo.to_multiset().count(fo[m]) > 0);
        assert(r.contains(fo[m]));
        let n = choose|n: int| 0 <= n < r.len() && r[n] == fo[m];
        assert(string_views(r)[n] == all[k]@);
    }
    assert forall|k: int| 0 <= k < r.len() implies string_views(all).contains((#[trigger] r[k])@) by {
        assert(fo.contains(r[k]));
        let a = choose|a: int| 0 <= a < fo.len() && fo[a] == r[k];
        assert(all.contains(fo[a]));
        let n = choose|n: int| 0 <= n < all.len() && all[n] == fo[a];
        assert(string_views(all)[n] == r[k]@);
    }
}

/// The file of a match: the canonical path of match `j` of lookup `k`.
pub open spec fn match_file(l: Seq<(String, Vec<FontMatch>)>, k: int, j: int) -> Seq<char> {
    l[k].1@[j].canonical_path@
}

/// Some match of some lookup has its file at `p`.
pub open spec fn is_match_file(l: Seq<(String, Vec<FontMatch>)>, p: Seq<char>) -> bool {
    exists|k: int, j: int| 0 <= k < l.len() && 0 <= j < l[k].1@.len() && #[trigger] match_file(l, k, j) == p
}

/// The paths gathered from the lookups are the files of all their matches:
/// every match of every lookup, and nothing else.
pub proof fn lemma_lookup_paths_members(l: Seq<(String, Vec<FontMatch>)>)
    ensures
        forall|k: int, j: int| 0 <= k < l.len() && 0 <= j < l[k].1@.len() ==> string_views(lookup_paths(l)).contains(
            #[trigger] match_file(l, k, j),
        ),
        forall|q: int| 0 <= q < lookup_paths(l).len() ==> is_match_file(l, (#[trigger] lookup_paths(l)[q])@),
    decreases l.len(),
{
    if l.len() > 0 {
        let init = l.drop_last();
        lemma_lookup_paths_members(init);
        let a = lookup_paths(init);
        let b = match_paths(l.last().1@);
        assert(lookup_paths(l) == a + b);
        assert forall|k: int, j: int| 0 <= k < l.len() && 0 <= j < l[k].1@.len() implies string_views(lookup_paths(l)).contains(
            #[trigger] match_file(l, k, j),
        ) by {
            if k < l.len() - 1 {
                assert(match_file(l, k, j) == match_file(init, k, j));
                let q = choose|q: int| 0 <= q < string_views(a).len() && string_views(a)[q] == match_file(init, k, j);
                assert(string_views(lookup_paths(l))[q] == string_views(a)[q]);
            } else {
                assert(b[j] == l[k].1@[j].canonical_path);
                assert(string_views(lookup_paths(l))[a.len() + j] == match_file(l, k, j));
            }
        }
        assert forall|q: int| 0 <= q < lookup_paths(l).len() implies is_match_file(l, (#[trigger] lookup_paths(l)[q])@) by {
            if q < a.len() {
                assert(lookup_paths(l)[q] == a[q]);
                assert(is_match_file(init, a[q]@));
                let (k, j) = choose|k: int, j: int| 0 <= k < init.len() && 0 <= j < init[k].1@.len() && #[trigger] match_file(init, k, j) == a[q]@;
                assert(match_file(l, k, j) == match_file(init, k, j));
            } else {
                let j = q - a.len();
                assert(lookup_paths(l)[q] == b[j]);
                assert(match_file(l, l.len() - 1, j) == b[j]@);
            }
        }
    }
}

/// Gathers the lookups of required font names (each name with the faces the
/// index gave for it) into a report: the names that matched, with their
/// faces; the names that matched nothing; and every font file to load, once
/// each, in path order.
pub fn resolve_required_fonts(lookups: Vec<(String, Vec<FontMatch>)>) -> (r: ResolveReport)
    ensures
        r.matched@.map_values(|f: ResolvedFont| resolved_view(f)) == matched_lookups(lookups@),
        r.missing@ == missing_names(lookups@),
        r.unique_font_paths@ == insertion_sorted(
            Seq::<String>::empty(),
            first_occurrences(lookup_paths(lookups@)),
        ),
        sorted_by_key(r.unique_font_paths@),
        forall|i: int, j: int|
            0 <= i < j < r.unique_font_paths@.len() ==> (#[trigger] r.unique_font_paths@[i])@
                != (#[trigger] r.unique_font_paths@[j])@,
        forall|k: int|
            0 <= k < lookup_paths(lookups@).len() ==> string_views(r.unique_font_paths@).contains(
                (#[trigger] lookup_paths(lookups@)[k])@,
            ),
        forall|k: int|
            0 <= k < r.unique_font_paths@.len() ==> string_views(lookup_paths(lookups@)).contains(
                (#[trigger] r.unique_font_paths@[k])@,
            ),
        forall|k: int, j: int| 0 <= k < lookups@.len() && 0 <= j < lookups@[k].1@.len() ==> string_views(
            r.unique_font_paths@,
        ).contains(#[trigger] match_file(lookups@, k, j)),
        forall|q: int| 0 <= q < r.unique_font_paths@.len() ==> is_match_file(lookups@, (#[trigger] r.unique_font_paths@[q])@),
        paths_name_distinct_files(lookup_paths(lookups@)) ==> forall|i: int, j: int|
            0 <= i < j < r.unique_font_paths@.len() ==> path_lt(
                (#[trigger] r.unique_font_paths@[i])@,
                (#[trigger] r.unique_font_paths@[j])@,
            ),
{
    let ghost all = lookups@;
    let n = lookups.len();
    let mut rest = lookups;
    let mut pending: Vec<(String, Vec<FontMatch>)> = Vec::new();
    while rest.len() > 0
        invariant
            rest@.len() + pending@.len() == n,
            all == rest@ + pending@.reverse(),
        decreases rest.len(),
    {
        let x = rest.pop().unwrap();
        pending.push(x);
        proof {
            assert(all =~= rest@ + pending@.reverse());
        }
    }
    proof {
        assert(pending@.reverse() =~= all);
    }
    let mut matched: Vec<ResolvedFont> = Vec::new();
    let mut missing: Vec<String> = Vec::new();
    let mut paths: Vec<String> = Vec::new();
    let mut i: usize = 0;
    proof {
        assert(all.take(0) =~= Seq::<(String, Vec<FontMatch>)>::empty());
        assert(matched@.map_values(|f: ResolvedFont| resolved_view(f)) =~= Seq::<(String, Vec<FontMatch>)>::empty());
    }
    while pending.len() > 0
        invariant
            i + pending@.len() == n,
            all.len() == n,
            pending@.reverse() == all.skip(i as int),
            matched@.map_values(|f: ResolvedFont| resolved_view(f)) == matched_lookups(all.take(i as int)),
            missing@ == missing_names(all.take(i as int)),
            paths@ == first_occurrences(lookup_paths(all.take(i as int))),
        decreases pending.len(),
    {
        let ghost pend = pending@;
        let (name, ms) = pending.pop().unwrap();
        proof {
            assert(pend.reverse()[0] == (name, ms));
            assert(pending@.reverse() =~= pend.reverse().drop_first());
            assert(all.skip(i as int)[0] == (name, ms));
            assert(all.skip(i as int).drop_first() =~= all.skip(i + 1));
            assert(all[i as int] == (name, ms));
            assert(all.take(i + 1).drop_last() =~= all.take(i as int));
            assert(all.take(i + 1).last() == (name, ms));
        }
        if ms.len() == 0 {
            missing.push(name);
            proof {
                assert(match_paths(ms@) =~= Seq::<String>::empty());
                assert(lookup_paths(all.take(i as int)) + match_paths(ms@) =~= lookup_paths(all.take(i as int)));
            }
        } else {
            let ghost base = lookup_paths(all.take(i as int));
            let mut j: usize = 0;
            proof {
                assert(base + match_paths(ms@).take(0) =~= base);
            }
            while j < ms.len()
                invariant
                    j <= ms.len(),
                    paths@ == first_occurrences(base + match_paths(ms@).take(j as int)),
                decreases ms.len() - j,
            {
                let p = ms[j].canonical_path.clone();
                proof {
                    let s2 = base + match_paths(ms@).take(j + 1);
                    assert(s2.drop_last() =~= base + match_paths(ms@).take(j as int));
                    assert(s2.last() == p);
                }
                if !contains_string(&paths, &p) {
                    paths.push(p);
                }
                j += 1;
            }
            proof {
                assert(match_paths(ms@).take(ms@.len() as int) =~= match_paths(ms@));
            }
            let ghost before = matched@.map_values(|f: ResolvedFont| resolved_view(f));
            matched.push(ResolvedFont { requested_name: name, matches: ms });
            proof {
                assert(matched@.map_values(|f: ResolvedFont| resolved_view(f)) =~= before.push((name, ms)));
            }
        }
        i += 1;
    }
    proof {
        assert(all.take(n as int) =~= all);
        lemma_first_occurrences(lookup_paths(all));
    }
    let ghost fo = paths@;
    let unique_font_paths = stable_sort(paths);
    proof {
        lemma_sorted_paths(fo, unique_font_paths@, lookup_paths(all));
        let u = unique_font_paths@;
        let lp = lookup_paths(all);
        lemma_lookup_paths_members(all);
        assert forall|k: int, j: int| 0 <= k < all.len() && 0 <= j < all[k].1@.len() implies string_views(u).contains(
            #[trigger] match_file(all, k, j),
        ) by {
            let q = choose|q: int| 0 <= q < string_views(lp).len() && string_views(lp)[q] == match_file(all, k, j);
            assert(string_views(u).contains((lp[q])@));
        }
        assert forall|q: int| 0 <= q < u.len() implies is_match_file(all, (#[trigger] u[q])@) by {
            assert(string_views(lp).contains(u[q]@));
            let m = choose|m: int| 0 <= m < string_views(lp).len() && string_views(lp)[m] == u[q]@;
            assert(is_match_file(all, lp[m]@));
        }
        if paths_name_distinct_files(lp) {
            assert forall|i: int, j: int| 0 <= i < j < u.len() implies path_lt(
                (#[trigger] u[i])@,
                (#[trigger] u[j])@,
            ) by {
                assert(string_views(lp).contains(u[i]@));
                assert(string_views(lp).contains(u[j]@));
                let a = choose|a: int| 0 <= a < string_views(lp).len() && string_views(lp)[a] == u[i]@;
                let b = choose|b: int| 0 <= b < string_views(lp).len() && string_views(lp)[b] == u[j]@;
                assert(lp[a]@ == u[i]@);
                assert(lp[b]@ == u[j]@);
                assert(u[i]@ != u[j]@);
                assert(!path_eq(lp[a]@, lp[b]@));
                assert(!lex_lt(u[j].sort_key(), u[i].sort_key()));
                lemma_lex_total(path_keys(u[i]@), path_keys(u[j]@));
            }
        }
    }
    ResolveReport { matched, missing, unique_font_paths }
}

/// No two different texts among `paths` name the same path (the same
/// components, separators compared as equal).
pub open spec fn paths_name_distinct_files(paths: Seq<String>) -> bool {
    forall|a: int, b: int|
        0 <= a < paths.len() && 0 <= b < paths.len() && path_eq((#[trigger] paths[a])@, (#[trigger] paths[b])@)
            ==> paths[a]@ == paths[b]@
}

// ---------------------------------------------------------------------------
// Integer conversions
// ---------------------------------------------------------------------------

/// `i64::try_from(value)`, or `i64::MAX` when it does not fit.
pub fn u64_to_i64(value: u64) -> (r: i64)
    ensures
        r == (if value <= i64::MAX as u64 { value as int } else { i64::MAX as int }),
{
    if value <= i64::MAX as u64 {
        value as i64
    } else {
        i64::MAX
    }
}

/// `u32::try_from(value)`, or `u32::MAX` when it does not fit.
pub fn i64_to_u32(value: i64) -> (r: u32)
    ensures
        r == (if 0 <= value <= u32::MAX { value as int } else { u32::MAX as int }),
{
    if 0 <= value && value <= u32::MAX as i64 {
        value as u32
    } else {
        u32::MAX
    }
}

/// `u16::try_from(value)`, or `u16::MAX` when it does not fit.
pub fn i64_to_u16(value: i64) -> (r: u16)
    ensures
        r == (if 0 <= value <= u16::MAX { value as int } else { u16::MAX as int }),
{
    if 0 <= value && value <= u16::MAX as i64 {
        value as u16
    } else {
        u16::MAX
    }
}

/// `usize::try_from(value)`, or `usize::MAX` when it does not fit.
pub fn i64_to_usize(value: i64) -> (r: usize)
    ensures
        r == (if 0 <= value <= usize::MAX { value as int } else { usize::MAX as int }),
{
    if value < 0 {
        usize::MAX
    } else if (value as u64) <= (usize::MAX as u64) {
        value as usize
    } else {
        usize::MAX
    }
}

} // verus!
