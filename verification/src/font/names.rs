//! The aliases a font face answers to, read from its `name` table.
//!
//! Each name record is decoded (UTF-16 BE for Windows records, otherwise as
//! the font parser decodes Unicode records), trimmed, and kept when it is a
//! usable name. Family, full and PostScript names become aliases, one per
//! name ID and lower-cased spelling; the best-placed record of each kind
//! (Windows US English first) gives the face's display names.

use vstd::prelude::*;

use crate::subtitle::encoding::{decode_utf16be, utf16be_decoding};
use crate::text::{
    utf16_decode, utf16_units, chars_equal, chars_of, is_control, is_control_char, is_white_space, is_whitespace, lowercase_of,
    string_of_range, trim_range, trim_seq, unicode_lowercase,
};

verus! {

// ---------------------------------------------------------------------------
// Name IDs (OpenType `name` table)
// ---------------------------------------------------------------------------

pub const NAME_ID_FAMILY: u16 = 1;
pub const NAME_ID_SUBFAMILY: u16 = 2;
pub const NAME_ID_FULL_NAME: u16 = 4;
pub const NAME_ID_POST_SCRIPT_NAME: u16 = 6;
pub const NAME_ID_TYPOGRAPHIC_FAMILY: u16 = 16;
pub const NAME_ID_TYPOGRAPHIC_SUBFAMILY: u16 = 17;
pub const NAME_ID_WWS_FAMILY: u16 = 21;
pub const NAME_ID_WWS_SUBFAMILY: u16 = 22;

/// The name IDs whose records become aliases.
pub open spec fn is_alias_name_id(id: u16) -> bool {
    id == NAME_ID_FAMILY || id == NAME_ID_TYPOGRAPHIC_FAMILY || id == NAME_ID_WWS_FAMILY || id
        == NAME_ID_FULL_NAME || id == NAME_ID_POST_SCRIPT_NAME
}

// ---------------------------------------------------------------------------
// Data
// ---------------------------------------------------------------------------

/// The platform of a name record.
#[derive(Debug, Clone, Copy, PartialEq, Eq)]
pub enum Platform {
    Unicode,
    Macintosh,
    Iso,
    Windows,
    Custom,
}

/// One record of a face's `name` table.
#[derive(Debug, Clone, PartialEq, Eq)]
pub struct NameRecord {
    pub platform: Platform,
    pub encoding_id: u16,
    pub language_id: u16,
    pub name_id: u16,
    pub bytes: Vec<u8>,
}

/// A name a face answers to.
#[derive(Debug, Clone, PartialEq, Eq)]
pub struct FontAlias {
    pub name_id: u16,
    pub platform_id: String,
    pub encoding_id: u16,
    pub language_id: u16,
    pub value: String,
}

/// What one face of a font file is called.
#[derive(Debug, Clone, PartialEq, Eq)]
pub struct FontFaceAnalysis {
    pub face_index: u32,
    pub family_name: Option<String>,
    pub subfamily_name: Option<String>,
    pub full_name: Option<String>,
    pub postscript_name: Option<String>,
    pub weight_class: Option<u16>,
    pub is_italic: bool,
    pub aliases: Vec<FontAlias>,
}

/// The faces of one font file.
#[derive(Debug, Clone, PartialEq, Eq)]
pub struct FontFileAnalysis {
    pub path: String,
    pub faces: Vec<FontFaceAnalysis>,
}

/// An optional string as an optional character sequence.
pub open spec fn opt_view(o: Option<String>) -> Option<Seq<char>> {
    match o {
        Some(s) => Some(s@),
        None => None,
    }
}

/// An alias as (name ID, platform, encoding ID, language ID, value).
pub type AliasView = (u16, Seq<char>, u16, u16, Seq<char>);

pub open spec fn alias_view(a: FontAlias) -> AliasView {
    (a.name_id, a.platform_id@, a.encoding_id, a.language_id, a.value@)
}

/// A face as (index, family, subfamily, full name, PostScript name, weight,
/// italic, aliases).
pub struct FaceView {
    pub face_index: u32,
    pub family_name: Option<Seq<char>>,
    pub subfamily_name: Option<Seq<char>>,
    pub full_name: Option<Seq<char>>,
    pub postscript_name: Option<Seq<char>>,
    pub weight_class: Option<u16>,
    pub is_italic: bool,
    pub aliases: Seq<AliasView>,
}

pub open spec fn face_view(f: FontFaceAnalysis) -> FaceView {
    FaceView {
        face_index: f.face_index,
        family_name: opt_view(f.family_name),
        subfamily_name: opt_view(f.subfamily_name),
        full_name: opt_view(f.full_name),
        postscript_name: opt_view(f.postscript_name),
        weight_class: f.weight_class,
        is_italic: f.is_italic,
        aliases: f.aliases@.map_values(|a: FontAlias| alias_view(a)),
    }
}

// ---------------------------------------------------------------------------
// The font parser
// ---------------------------------------------------------------------------

/// The text the font parser (`ttf_parser`'s `Name::to_string`) decodes from a
/// name record: for a Unicode encoding, the big-endian UTF-16 units of its
/// bytes, unless they hold an unpaired surrogate; otherwise none.
pub open spec fn name_record_text(platform: Platform, encoding_id: u16, bytes: Seq<u8>) -> Option<Seq<char>> {
    if is_unicode_encoding(platform, encoding_id) && !utf16_decode(utf16_units(bytes, true)).1 {
        Some(utf16_decode(utf16_units(bytes, true)).0)
    } else {
        None
    }
}

/// The encodings `Name::to_string` decodes: the Unicode platform, and the
/// Windows platform with the Symbol (0) or Unicode BMP (1) encoding.
pub open spec fn is_unicode_encoding(platform: Platform, encoding_id: u16) -> bool {
    match platform {
        Platform::Unicode => true,
        Platform::Windows => encoding_id == 0 || encoding_id == 1,
        _ => false,
    }
}

/// `ttf_parser::name::Name::to_string` for the record: for a Unicode
/// encoding its source reads the bytes as big-endian 16-bit units and
/// decodes them with `String::from_utf16`, failing on an unpaired surrogate;
/// for any other encoding it gives `None`. The units are counted in 16 bits
/// there, so the record's bytes must number at most `0xFFFF`, as a `name`
/// table's 16-bit record length allows.
#[verifier::external_body]
fn record_text(rec: &NameRecord) -> (r: Option<String>)
    requires
        rec.bytes@.len() <= 0xFFFF,
    ensures
        opt_view(r) == name_record_text(rec.platform, rec.encoding_id, rec.bytes@),
{
    let platform_id = match rec.platform {
        Platform::Unicode => ttf_parser::PlatformId::Unicode,
        Platform::Macintosh => ttf_parser::PlatformId::Macintosh,
        Platform::Iso => ttf_parser::PlatformId::Iso,
        Platform::Windows => ttf_parser::PlatformId::Windows,
        Platform::Custom => ttf_parser::PlatformId::Custom,
    };
    let name = ttf_parser::name::Name {
        platform_id,
        encoding_id: rec.encoding_id,
        language_id: rec.language_id,
        name_id: rec.name_id,
        name: rec.bytes.as_slice(),
    };
    name.to_string()
}

// ---------------------------------------------------------------------------
// Specification
// ---------------------------------------------------------------------------

/// `s` without leading NUL characters.
pub open spec fn trim_nul_start(s: Seq<char>) -> Seq<char>
    decreases s.len(),
{
    if s.len() > 0 && s[0] == '\0' {
        trim_nul_start(s.drop_first())
    } else {
        s
    }
}

/// `s` without trailing NUL characters.
pub open spec fn trim_nul_end(s: Seq<char>) -> Seq<char>
    decreases s.len(),
{
    if s.len() > 0 && s.last() == '\0' {
        trim_nul_end(s.drop_last())
    } else {
        s
    }
}

/// A character that makes a name unusable: the replacement character, NUL,
/// or a control character that is not white space.
pub open spec fn is_bad_name_char(c: char) -> bool {
    c == '\u{FFFD}' || c == '\0' || (is_control_char(c) && !is_white_space(c))
}

/// A usable name: something is left after trimming NULs and white space, and
/// none of it is a bad character.
pub open spec fn usable_name(value: Seq<char>) -> bool {
    let t = trim_seq(trim_nul_end(trim_nul_start(value)));
    t.len() > 0 && forall|i: int| 0 <= i < t.len() ==> !is_bad_name_char(#[trigger] t[i])
}

/// A Windows name as UTF-16 BE: `None` for empty or odd-length data or
/// malformed UTF-16.
pub open spec fn utf16be_name(bytes: Seq<u8>) -> Option<Seq<char>> {
    if bytes.len() == 0 || bytes.len() % 2 != 0 {
        None
    } else {
        let (text, had_errors) = utf16be_decoding(bytes);
        if had_errors {
            None
        } else {
            Some(text)
        }
    }
}

/// The text of a name record: for Windows records the UTF-16 BE reading when
/// it is usable, otherwise the font parser's reading when that is usable.
pub open spec fn record_name(platform: Platform, encoding_id: u16, bytes: Seq<u8>) -> Option<Seq<char>> {
    let windows = if platform == Platform::Windows {
        match utf16be_name(bytes) {
            Some(v) => if usable_name(v) {
                Some(v)
            } else {
                None
            },
            None => None,
        }
    } else {
        None
    };
    match windows {
        Some(v) => Some(v),
        None => match name_record_text(platform, encoding_id, bytes) {
            Some(v) => if usable_name(v) {
                Some(v)
            } else {
                None
            },
            None => None,
        },
    }
}

/// A name's value: trimmed, `None` when empty.
pub open spec fn alias_value_of(value: Seq<char>) -> Option<Seq<char>> {
    let t = trim_seq(value);
    if t.len() == 0 {
        None
    } else {
        Some(t)
    }
}

/// How well placed a record is to give a face's display name.
pub open spec fn priority_of(platform: Platform, language_id: u16, name_id: u16) -> u8 {
    let p: u8 = match platform {
        Platform::Windows => if language_id == 0x0409 {
            5
        } else {
            4
        },
        Platform::Unicode => 3,
        Platform::Macintosh => if language_id == 0 {
            2
        } else {
            1
        },
        _ => 0,
    };
    let n: u8 = if name_id == NAME_ID_TYPOGRAPHIC_FAMILY || name_id == NAME_ID_TYPOGRAPHIC_SUBFAMILY {
        3
    } else if name_id == NAME_ID_WWS_FAMILY || name_id == NAME_ID_WWS_SUBFAMILY {
        2
    } else if name_id == NAME_ID_FAMILY || name_id == NAME_ID_SUBFAMILY {
        1
    } else {
        0
    };
    (p * 10 + n) as u8
}

/// The platform's name as aliases record it.
pub open spec fn platform_name_of(p: Platform) -> Seq<char> {
    match p {
        Platform::Unicode => "Unicode"@,
        Platform::Macintosh => "Macintosh"@,
        Platform::Iso => "ISO"@,
        Platform::Windows => "Windows"@,
        Platform::Custom => "Custom"@,
    }
}

/// A candidate display name replaces the current one only when it is better placed.
pub open spec fn prefer(current: Option<(u8, Seq<char>)>, priority: u8, value: Seq<char>) -> Option<(u8, Seq<char>)> {
    match current {
        None => Some((priority, value)),
        Some((p, _)) => if priority > p {
            Some((priority, value))
        } else {
            current
        },
    }
}

/// The state of a face analysis between records.
pub struct FaceState {
    pub seen: Set<(u16, Seq<char>)>,
    pub aliases: Seq<AliasView>,
    pub family: Option<(u8, Seq<char>)>,
    pub subfamily: Option<(u8, Seq<char>)>,
    pub full: Option<(u8, Seq<char>)>,
    pub postscript: Option<(u8, Seq<char>)>,
}

pub open spec fn initial_face_state() -> FaceState {
    FaceState {
        seen: Set::empty(),
        aliases: seq![],
        family: None,
        subfamily: None,
        full: None,
        postscript: None,
    }
}

/// A name record as a plain value: platform, encoding ID, language ID, name
/// ID and the raw bytes of the name.
pub open spec fn record_view(rec: NameRecord) -> (Platform, u16, u16, u16, Seq<u8>) {
    (rec.platform, rec.encoding_id, rec.language_id, rec.name_id, rec.bytes@)
}

/// The records of a `name` table as plain values.
pub open spec fn records_view(recs: Seq<NameRecord>) -> Seq<(Platform, u16, u16, u16, Seq<u8>)> {
    recs.map_values(|rec: NameRecord| record_view(rec))
}

/// Taking one record into account.
pub open spec fn face_step(st: FaceState, rec: (Platform, u16, u16, u16, Seq<u8>)) -> FaceState {
    match record_name(rec.0, rec.1, rec.4) {
        None => st,
        Some(decoded) => match alias_value_of(decoded) {
            None => st,
            Some(value) => {
                let pr = priority_of(rec.0, rec.2, rec.3);
                let id = rec.3;
                let st1 = if id == NAME_ID_FAMILY || id == NAME_ID_TYPOGRAPHIC_FAMILY || id
                    == NAME_ID_WWS_FAMILY {
                    FaceState { family: prefer(st.family, pr, value), ..st }
                } else if id == NAME_ID_SUBFAMILY || id == NAME_ID_TYPOGRAPHIC_SUBFAMILY || id
                    == NAME_ID_WWS_SUBFAMILY {
                    FaceState { subfamily: prefer(st.subfamily, pr, value), ..st }
                } else if id == NAME_ID_FULL_NAME {
                    FaceState { full: prefer(st.full, pr, value), ..st }
                } else if id == NAME_ID_POST_SCRIPT_NAME {
                    FaceState { postscript: prefer(st.postscript, pr, value), ..st }
                } else {
                    st
                };
                let key = (id, lowercase_of(value));
                if !is_alias_name_id(id) || st1.seen.contains(key) {
                    st1
                } else {
                    FaceState {
                        seen: st1.seen.insert(key),
                        aliases: st1.aliases.push(
                            (
                                id,
                                platform_name_of(rec.0),
                                rec.1,
                                rec.2,
                                value,
                            ),
                        ),
                        ..st1
                    }
                }
            },
        },
    }
}

pub open spec fn face_steps(st: FaceState, recs: Seq<(Platform, u16, u16, u16, Seq<u8>)>) -> FaceState
    decreases recs.len(),
{
    if recs.len() == 0 {
        st
    } else {
        face_steps(face_step(st, recs[0]), recs.drop_first())
    }
}

pub open spec fn second(o: Option<(u8, Seq<char>)>) -> Option<Seq<char>> {
    match o {
        Some((_, v)) => Some(v),
        None => None,
    }
}

/// The analysis of a face from its name records, weight and style.
pub open spec fn face_of(face_index: u32, recs: Seq<(Platform, u16, u16, u16, Seq<u8>)>, weight: u16, italic: bool) -> FaceView {
    let st = face_steps(initial_face_state(), recs);
    FaceView {
        face_index,
        family_name: second(st.family),
        subfamily_name: second(st.subfamily),
        full_name: second(st.full),
        postscript_name: second(st.postscript),
        weight_class: Some(weight),
        is_italic: italic,
        aliases: st.aliases,
    }
}

// ---------------------------------------------------------------------------
// Implementation
// ---------------------------------------------------------------------------

/// The bounds of `cs` without leading and trailing NULs.
fn trim_nul_range(cs: &[char]) -> (r: (usize, usize))
    ensures
        r.0 <= r.1 <= cs@.len(),
        cs@.subrange(r.0 as int, r.1 as int) == trim_nul_end(trim_nul_start(cs@)),
{
    let n = cs.len();
    let mut a: usize = 0;
    proof {
        assert(cs@.subrange(0, n as int) =~= cs@);
    }
    while a < n && cs[a] == '\0'
        invariant
            a <= n == cs@.len(),
            trim_nul_start(cs@) == trim_nul_start(cs@.subrange(a as int, n as int)),
        decreases n - a,
    {
        proof {
            assert(cs@.subrange(a as int, n as int).drop_first() =~= cs@.subrange(a + 1, n as int));
        }
        a += 1;
    }
    let mut b: usize = n;
    while b > a && cs[b - 1] == '\0'
        invariant
            a <= b <= n == cs@.len(),
            trim_nul_end(cs@.subrange(a as int, n as int)) == trim_nul_end(cs@.subrange(a as int, b as int)),
        decreases b - a,
    {
        proof {
            assert(cs@.subrange(a as int, b as int).drop_last() =~= cs@.subrange(a as int, b - 1));
        }
        b -= 1;
    }
    (a, b)
}

/// Is `value` a usable name?
pub fn is_usable_name(value: &str) -> (r: bool)
    ensures
        r == usable_name(value@),
{
    let cs = chars_of(value);
    let (a, b) = trim_nul_range(cs.as_slice());
    let (c, d) = trim_range(cs.as_slice(), a, b);
    let ghost t = cs@.subrange(c as int, d as int);
    proof {
        assert(t == trim_seq(trim_nul_end(trim_nul_start(value@))));
    }
    if c == d {
        return false;
    }
    let mut i = c;
    while i < d
        invariant
            c <= i <= d <= cs@.len(),
            t == cs@.subrange(c as int, d as int),
            t == trim_seq(trim_nul_end(trim_nul_start(value@))),
            forall|k: int| 0 <= k < i - c ==> !is_bad_name_char(#[trigger] t[k]),
        decreases d - i,
    {
        let ch = cs[i];
        if ch == '\u{FFFD}' || ch == '\0' || (is_control(ch) && !is_whitespace(ch)) {
            proof {
                assert(t[i - c] == ch);
                assert(is_bad_name_char(t[i - c]));
                assert(is_bad_name_char(trim_seq(trim_nul_end(trim_nul_start(value@)))[i - c]));
            }
            return false;
        }
        proof {
            assert(t[i - c] == ch);
        }
        i += 1;
    }
    true
}

/// A Windows name read as UTF-16 BE.
fn decode_utf16be_name(bytes: &[u8]) -> (r: Option<String>)
    ensures
        opt_view(r) == utf16be_name(bytes@),
{
    if bytes.len() == 0 || bytes.len() % 2 != 0 {
        return None;
    }
    let (value, had_errors) = decode_utf16be(bytes);
    if had_errors {
        None
    } else {
        Some(value)
    }
}

/// The text of a name record, when usable.
fn decode_name_record(rec: &NameRecord) -> (r: Option<String>)
    requires
        rec.bytes@.len() <= 0xFFFF,
    ensures
        opt_view(r) == record_name(rec.platform, rec.encoding_id, rec.bytes@),
{
    if matches!(rec.platform, Platform::Windows) {
        if let Some(value) = decode_utf16be_name(rec.bytes.as_slice()) {
            if is_usable_name(value.as_str()) {
                return Some(value);
            }
        }
    }
    match record_text(rec) {
        Some(value) => if is_usable_name(value.as_str()) {
            Some(value)
        } else {
            None
        },
        None => None,
    }
}

/// A name's value, trimmed; `None` when empty.
pub fn normalize_alias(value: &str) -> (r: Option<String>)
    ensures
        opt_view(r) == alias_value_of(value@),
{
    let cs = chars_of(value);
    proof {
        assert(cs@.subrange(0, cs@.len() as int) =~= cs@);
    }
    let (a, b) = trim_range(cs.as_slice(), 0, cs.len());
    if a == b {
        None
    } else {
        Some(string_of_range(cs.as_slice(), a, b))
    }
}

/// How well placed a record is to give a face's display name.
pub fn name_priority(platform: Platform, language_id: u16, name_id: u16) -> (r: u8)
    ensures
        r == priority_of(platform, language_id, name_id),
{
    let p: u8 = match platform {
        Platform::Windows => if language_id == 0x0409 {
            5
        } else {
            4
        },
        Platform::Unicode => 3,
        Platform::Macintosh => if language_id == 0 {
            2
        } else {
            1
        },
        _ => 0,
    };
    let n: u8 = if name_id == NAME_ID_TYPOGRAPHIC_FAMILY || name_id == NAME_ID_TYPOGRAPHIC_SUBFAMILY {
        3
    } else if name_id == NAME_ID_WWS_FAMILY || name_id == NAME_ID_WWS_SUBFAMILY {
        2
    } else if name_id == NAME_ID_FAMILY || name_id == NAME_ID_SUBFAMILY {
        1
    } else {
        0
    };
    p * 10 + n
}

/// The platform's name as aliases record it.
pub fn platform_id_name(p: Platform) -> (r: &'static str)
    ensures
        r@ == platform_name_of(p),
{
    match p {
        Platform::Unicode => "Unicode",
        Platform::Macintosh => "Macintosh",
        Platform::Iso => "ISO",
        Platform::Windows => "Windows",
        Platform::Custom => "Custom",
    }
}

fn prefer_name(target: &mut Option<(u8, String)>, priority: u8, value: &String)
    ensures
        pair_view(*final(target)) == prefer(pair_view(*old(target)), priority, value@),
{
    let replace = match target {
        None => true,
        Some((current, _)) => priority > *current,
    };
    if replace {
        *target = Some((priority, value.clone()));
    }
}

pub open spec fn pair_view(o: Option<(u8, String)>) -> Option<(u8, Seq<char>)> {
    match o {
        Some((p, s)) => Some((p, s@)),
        None => None,
    }
}

/// The running analysis of a face.
struct FaceAnalyzer {
    seen: Vec<(u16, Vec<char>)>,
    aliases: Vec<FontAlias>,
    family: Option<(u8, String)>,
    subfamily: Option<(u8, String)>,
    full: Option<(u8, String)>,
    postscript: Option<(u8, String)>,
}

spec fn seen_view(seen: Seq<(u16, Vec<char>)>) -> Set<(u16, Seq<char>)> {
    seen.map_values(|e: (u16, Vec<char>)| (e.0, e.1@)).to_set()
}

spec fn face_state_view(f: FaceAnalyzer) -> FaceState {
    FaceState {
        seen: seen_view(f.seen@),
        aliases: f.aliases@.map_values(|a: FontAlias| alias_view(a)),
        family: pair_view(f.family),
        subfamily: pair_view(f.subfamily),
        full: pair_view(f.full),
        postscript: pair_view(f.postscript),
    }
}

impl FaceAnalyzer {
    fn has_seen(&self, id: u16, key: &[char]) -> (r: bool)
        ensures
            r == seen_view(self.seen@).contains((id, key@)),
    {
        let ghost sv = self.seen@.map_values(|e: (u16, Vec<char>)| (e.0, e.1@));
        let mut i: usize = 0;
        while i < self.seen.len()
            invariant
                i <= self.seen.len(),
                sv == self.seen@.map_values(|e: (u16, Vec<char>)| (e.0, e.1@)),
                forall|k: int| 0 <= k < i ==> sv[k] != (id, key@),
            decreases self.seen.len() - i,
        {
            if self.seen[i].0 == id && chars_equal(self.seen[i].1.as_slice(), key) {
                proof {
                    assert(sv[i as int] == (id, key@));
                }
                return true;
            }
            proof {
                assert(sv[i as int] == (self.seen@[i as int].0, self.seen@[i as int].1@));
            }
            i += 1;
        }
        proof {
            if sv.to_set().contains((id, key@)) {
                let k = choose|k: int| 0 <= k < sv.len() && sv[k] == (id, key@);
                assert(sv[k] != (id, key@));
            }
        }
        false
    }
}

/// Each record's bytes number at most `0xFFFF`, as a `name` table's 16-bit
/// record lengths allow.
pub open spec fn records_fit(names: Seq<NameRecord>) -> bool {
    forall|i: int| 0 <= i < names.len() ==> (#[trigger] names[i]).bytes@.len() <= 0xFFFF
}

/// The analysis of a face from its name records, weight and style.
pub fn analyze_face(face_index: u32, names: &Vec<NameRecord>, weight: u16, italic: bool) -> (r: FontFaceAnalysis)
    requires
        records_fit(names@),
    ensures
        face_view(r) == face_of(face_index, records_view(names@), weight, italic),
{
    let mut f = FaceAnalyzer {
        seen: Vec::new(),
        aliases: Vec::new(),
        family: None,
        subfamily: None,
        full: None,
        postscript: None,
    };
    proof {
        assert(face_state_view(f) == initial_face_state()) by {
            assert(seen_view(f.seen@) =~= Set::<(u16, Seq<char>)>::empty());
            assert(f.aliases@.map_values(|a: FontAlias| alias_view(a)) =~= Seq::<AliasView>::empty());
        }
        assert(records_view(names@).skip(0) =~= records_view(names@));
    }
    let ghost rv = records_view(names@);
    let mut i: usize = 0;
    while i < names.len()
        invariant
            i <= names.len(),
            records_fit(names@),
            rv == records_view(names@),
            face_steps(initial_face_state(), rv) == face_steps(face_state_view(f), rv.skip(i as int)),
        decreases names.len() - i,
    {
        let rec = &names[i];
        proof {
            assert(names@[i as int].bytes@.len() <= 0xFFFF);
        }
        let ghost before = face_state_view(f);
        if let Some(decoded) = decode_name_record(rec) {
            if let Some(value) = normalize_alias(decoded.as_str()) {
                let pr = name_priority(rec.platform, rec.language_id, rec.name_id);
                let id = rec.name_id;
                if id == NAME_ID_FAMILY || id == NAME_ID_TYPOGRAPHIC_FAMILY || id == NAME_ID_WWS_FAMILY {
                    prefer_name(&mut f.family, pr, &value);
                } else if id == NAME_ID_SUBFAMILY || id == NAME_ID_TYPOGRAPHIC_SUBFAMILY || id
                    == NAME_ID_WWS_SUBFAMILY {
                    prefer_name(&mut f.subfamily, pr, &value);
                } else if id == NAME_ID_FULL_NAME {
                    prefer_name(&mut f.full, pr, &value);
                } else if id == NAME_ID_POST_SCRIPT_NAME {
                    prefer_name(&mut f.postscript, pr, &value);
                }
                let is_alias = id == NAME_ID_FAMILY || id == NAME_ID_TYPOGRAPHIC_FAMILY || id
                    == NAME_ID_WWS_FAMILY || id == NAME_ID_FULL_NAME || id == NAME_ID_POST_SCRIPT_NAME;
                if is_alias {
                    let lowered = unicode_lowercase(value.as_str());
                    let key = chars_of(lowered.as_str());
                    if !f.has_seen(id, key.as_slice()) {
                        let ghost seen_before = f.seen@;
                        f.seen.push((id, key));
                        let alias = FontAlias {
                            name_id: id,
                            platform_id: platform_id_name(rec.platform).to_owned(),
                            encoding_id: rec.encoding_id,
                            language_id: rec.language_id,
                            value,
                        };
                        let ghost av = alias_view(alias);
                        let ghost aliases_before = f.aliases@;
                        f.aliases.push(alias);
                        proof {
                            let m = |e: (u16, Vec<char>)| (e.0, e.1@);
                            assert(f.seen@.map_values(m) =~= seen_before.map_values(m).push((id, lowercase_of(value@))));
                            assert(seen_view(f.seen@) =~= seen_view(seen_before).insert((id, lowercase_of(value@)))) by {
                                let a = seen_before.map_values(m);
                                let b = a.push((id, lowercase_of(value@)));
                                assert forall|x: (u16, Seq<char>)| b.to_set().contains(x) implies a.to_set().insert((id, lowercase_of(value@))).contains(x) by {
                                    let k = choose|k: int| 0 <= k < b.len() && b[k] == x;
                                    if k < a.len() {
                                        assert(a[k] == x);
                                    }
                                }
                                assert forall|x: (u16, Seq<char>)| a.to_set().insert((id, lowercase_of(value@))).contains(x) implies b.to_set().contains(x) by {
                                    if x == (id, lowercase_of(value@)) {
                                        assert(b[a.len() as int] == x);
                                    } else {
                                        let k = choose|k: int| 0 <= k < a.len() && a[k] == x;
                                        assert(b[k] == x);
                                    }
                                }
                            }
                            assert(f.aliases@.map_values(|a: FontAlias| alias_view(a)) =~= aliases_before.map_values(|a: FontAlias| alias_view(a)).push(av));
                        }
                    }
                }
            }
        }
        proof {
            assert(rv[i as int] == record_view(names@[i as int]));
            assert(face_state_view(f) == face_step(before, rv[i as int]));
            assert(rv.skip(i as int)[0] == rv[i as int]);
            assert(rv.skip(i as int).drop_first() =~= rv.skip(i + 1));
        }
        i += 1;
    }
    proof {
        assert(rv.skip(rv.len() as int) =~= Seq::<(Platform, u16, u16, u16, Seq<u8>)>::empty());
    }
    FontFaceAnalysis {
        face_index,
        family_name: match f.family { Some((_, v)) => Some(v), None => None },
        subfamily_name: match f.subfamily { Some((_, v)) => Some(v), None => None },
        full_name: match f.full { Some((_, v)) => Some(v), None => None },
        postscript_name: match f.postscript { Some((_, v)) => Some(v), None => None },
        weight_class: Some(weight),
        is_italic: italic,
        aliases: f.aliases,
    }
}


// ---------------------------------------------------------------------------
// Font files
// ---------------------------------------------------------------------------

/// A big-endian `u32` at `data[at..at + 4]`.
pub open spec fn be_u32(data: Seq<u8>, at: int) -> int {
    data[at] as int * 0x1000000 + data[at + 1] as int * 0x10000 + data[at + 2] as int * 0x100
        + data[at + 3] as int
}

/// The number of fonts in a TrueType collection (`ttcf` tag, then a version,
/// then the count); `None` for data that is not a collection.
pub open spec fn collection_size_of(data: Seq<u8>) -> Option<u32> {
    if data.len() >= 12 && data[0] == 0x74 && data[1] == 0x74 && data[2] == 0x63 && data[3] == 0x66 {
        Some(be_u32(data, 8) as u32)
    } else {
        None
    }
}

/// How many faces a font file holds: the collection size, or one.
pub open spec fn face_count_of(data: Seq<u8>) -> u32 {
    match collection_size_of(data) {
        Some(n) => n,
        None => 1,
    }
}

/// `ttf_parser::fonts_in_collection`: its source reads the `ttcf` tag, skips
/// the version and reads the count, all big-endian, failing on short data.
#[verifier::external_body]
fn fonts_in_collection(data: &[u8]) -> (r: Option<u32>)
    ensures
        r == collection_size_of(data@),
{
    ttf_parser::fonts_in_collection(data)
}

/// Whether `ttf_parser::Face::parse` reads face `index` of `data`, which
/// nothing here spells out.
pub uninterp spec fn face_parses(data: Seq<u8>, index: u32) -> bool;

/// The records of the `name` table that `ttf_parser::Face::names` lists for
/// face `index` of `data`, in its order.
pub uninterp spec fn face_records_of(data: Seq<u8>, index: u32) -> Seq<(Platform, u16, u16, u16, Seq<u8>)>;

/// The weight class that `ttf_parser::Face::weight` reports for face `index`.
pub uninterp spec fn face_weight_of(data: Seq<u8>, index: u32) -> u16;

/// Whether `ttf_parser::Face::is_italic` holds of face `index`.
pub uninterp spec fn face_italic_of(data: Seq<u8>, index: u32) -> bool;

/// Whether `ttf_parser::Face::is_oblique` holds of face `index`.
pub uninterp spec fn face_oblique_of(data: Seq<u8>, index: u32) -> bool;

/// What is read of one face.
pub struct FaceData {
    pub names: Vec<NameRecord>,
    pub weight: u16,
    pub italic: bool,
    pub oblique: bool,
}

/// `ttf_parser::Face::parse` of face `index`, then the face's `names`, `weight`
/// (as a number), `is_italic` and `is_oblique`, each name record copied field
/// by field; a record's bytes are the `name` table's storage slice of its
/// 16-bit length. A face exactly when `face_parses` holds; each part is what the
/// font parser reports for that face of that data.
#[verifier::external_body]
fn read_face(data: &[u8], index: u32) -> (r: Option<FaceData>)
    ensures
        r is Some <==> face_parses(data@, index),
        r matches Some(f) ==> records_view(f.names@) == face_records_of(data@, index),
        r matches Some(f) ==> records_fit(f.names@),
        r matches Some(f) ==> f.weight == face_weight_of(data@, index),
        r matches Some(f) ==> f.italic == face_italic_of(data@, index),
        r matches Some(f) ==> f.oblique == face_oblique_of(data@, index),
{
    let face = ttf_parser::Face::parse(data, index).ok()?;
    let names = face.names().into_iter().map(|name| NameRecord {
        platform: match name.platform_id {
            ttf_parser::PlatformId::Unicode => Platform::Unicode,
            ttf_parser::PlatformId::Macintosh => Platform::Macintosh,
            ttf_parser::PlatformId::Iso => Platform::Iso,
            ttf_parser::PlatformId::Windows => Platform::Windows,
            ttf_parser::PlatformId::Custom => Platform::Custom,
        },
        encoding_id: name.encoding_id, language_id: name.language_id,
        name_id: name.name_id, bytes: name.name.to_vec(),
    }).collect();
    Some(FaceData { names, weight: face.weight().to_number(), italic: face.is_italic(), oblique: face.is_oblique() })
}

/// The analysis of face `index` of `data` from what the font parser reports
/// for it: its name records, weight, and style (italic or oblique).
pub open spec fn face_from_data(data: Seq<u8>, index: u32) -> FaceView {
    face_of(
        index,
        face_records_of(data, index),
        face_weight_of(data, index),
        face_italic_of(data, index) || face_oblique_of(data, index),
    )
}

/// A face of a font file that the font parser could not read.
#[derive(Debug, Clone, Copy, PartialEq, Eq)]
pub struct FontParseError {
    pub face_index: u32,
}

/// The result of analyzing font data: every face in order, each analyzed from
/// the name records, weight and style that the font parser reports for it.
pub open spec fn is_font_analysis(data: Seq<u8>, path: Seq<char>, a: FontFileAnalysis) -> bool {
    &&& a.path@ == path
    &&& a.faces@.len() == face_count_of(data)
    &&& forall|i: int|
        0 <= i < a.faces@.len() ==> face_view(#[trigger] a.faces@[i]) == face_from_data(data, i as u32)
}

/// The font parser reads every face of `data`.
pub open spec fn all_faces_parse(data: Seq<u8>) -> bool {
    forall|i: u32| i < face_count_of(data) ==> #[trigger] face_parses(data, i)
}

/// Analyzes every face of the font data read from `path`; fails at the first
/// face the font parser cannot read.
pub fn analyze_font_data(path: String, data: &[u8]) -> (r: Result<FontFileAnalysis, FontParseError>)
    ensures
        match r {
            Ok(a) => is_font_analysis(data@, path@, a),
            Err(e) => e.face_index < face_count_of(data@),
        },
        r is Ok <==> all_faces_parse(data@),
        r matches Err(e) ==> !face_parses(data@, e.face_index) && forall|i: u32|
            i < e.face_index ==> #[trigger] face_parses(data@, i),
{
    let face_count = match fonts_in_collection(data) {
        Some(n) => n,
        None => 1,
    };
    let mut faces: Vec<FontFaceAnalysis> = Vec::new();
    let mut i: u32 = 0;
    while i < face_count
        invariant
            i <= face_count == face_count_of(data@),
            faces@.len() == i,
            forall|j: u32| j < i ==> #[trigger] face_parses(data@, j),
            forall|k: int|
                0 <= k < faces@.len() ==> face_view(#[trigger] faces@[k]) == face_from_data(data@, k as u32),
        decreases face_count - i,
    {
        let face = match read_face(data, i) {
            Some(face) => face,
            None => return Err(FontParseError { face_index: i }),
        };
        let italic = face.italic || face.oblique;
        let analysis = analyze_face(i, &face.names, face.weight, italic);
        faces.push(analysis);
        proof {
            assert(face_view(faces@[i as int]) == face_from_data(data@, i));
        }
        i += 1;
    }
    Ok(FontFileAnalysis { path, faces })
}

/// A successful analysis of font data has one face per font the data
/// holds, numbered from zero: for a TrueType collection (at least 12 bytes
/// starting with the tag `ttcf`) as many as the big-endian count at bytes 8
/// to 12, and otherwise exactly one.
pub proof fn lemma_analysis_faces(data: Seq<u8>, path: Seq<char>, a: FontFileAnalysis)
    requires
        is_font_analysis(data, path, a),
    ensures
        (data.len() >= 12 && data[0] == 0x74 && data[1] == 0x74 && data[2] == 0x63 && data[3] == 0x66)
            ==> a.faces@.len() == data[8] as int * 0x1000000 + data[9] as int * 0x10000 + data[10] as int
            * 0x100 + data[11] as int,
        !(data.len() >= 12 && data[0] == 0x74 && data[1] == 0x74 && data[2] == 0x63 && data[3] == 0x66)
            ==> a.faces@.len() == 1,
        forall|i: int| 0 <= i < a.faces@.len() ==> (#[trigger] a.faces@[i]).face_index == i,
{
    if data.len() >= 12 && data[0] == 0x74 && data[1] == 0x74 && data[2] == 0x63 && data[3] == 0x66 {
        let n = be_u32(data, 8);
        assert(0 <= n < 0x1_0000_0000) by (nonlinear_arith)
            requires
                n == data[8] as int * 0x1000000 + data[9] as int * 0x10000 + data[10] as int * 0x100
                    + data[11] as int,
                0 <= data[8] < 256,
                0 <= data[9] < 256,
                0 <= data[10] < 256,
                0 <= data[11] < 256,
        ;
    }
    assert forall|i: int| 0 <= i < a.faces@.len() implies (#[trigger] a.faces@[i]).face_index == i by {
        assert(face_view(a.faces@[i]) == face_from_data(data, i as u32));
    }
}

/// Analyzes several font files given as (path, contents), in order; fails
/// at the first file with a face the font parser cannot read.
pub fn analyze_font_files(files: &Vec<(String, Vec<u8>)>) -> (r: Result<Vec<FontFileAnalysis>, (String, FontParseError)>)
    ensures
        match r {
            Ok(v) => v@.len() == files@.len() && forall|k: int|
                0 <= k < v@.len() ==> is_font_analysis(files@[k].1@, files@[k].0@, #[trigger] v@[k]),
            Err((p, e)) => exists|k: int|
                0 <= k < files@.len() && files@[k].0@ == p@ && e.face_index < face_count_of(#[trigger] files@[k].1@)
                    && !face_parses(files@[k].1@, e.face_index) && (forall|f: u32|
                    f < e.face_index ==> #[trigger] face_parses(files@[k].1@, f)) && forall|j: int|
                    0 <= j < k ==> all_faces_parse(#[trigger] files@[j].1@),
        },
        r is Ok <==> forall|k: int| 0 <= k < files@.len() ==> all_faces_parse(#[trigger] files@[k].1@),
{
    let mut out: Vec<FontFileAnalysis> = Vec::new();
    let mut i: usize = 0;
    while i < files.len()
        invariant
            i <= files@.len(),
            out@.len() == i,
            forall|k: int|
                0 <= k < out@.len() ==> is_font_analysis(files@[k].1@, files@[k].0@, #[trigger] out@[k]),
            forall|k: int| 0 <= k < i ==> all_faces_parse(#[trigger] files@[k].1@),
        decreases files.len() - i,
    {
        let path = files[i].0.clone();
        match analyze_font_data(path, files[i].1.as_slice()) {
            Ok(a) => {
                out.push(a);
                proof {
                    assert(is_font_analysis(files@[i as int].1@, files@[i as int].0@, out@[i as int]));
                }
            },
            Err(e) => {
                let p = files[i].0.clone();
                proof {
                    assert(files@[i as int].0@ == p@);
                }
                return Err((p, e));
            },
        }
        i += 1;
    }
    Ok(out)
}

} // verus!
