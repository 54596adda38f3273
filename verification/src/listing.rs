//! What the command-line tools list: the aliases of analysed fonts (sorted,
//! counted, or as CSV rows), the font families the system shows, and a few
//! small conventions of their options.

use vstd::prelude::*;

use crate::font::names::{FontAlias, FontFaceAnalysis, FontFileAnalysis};
use crate::name_set::{contains_string, string_views};
use crate::sort::{insertion_sorted, sorted_by_key, stable_sort, SortKey};
use crate::subtitle::ass::{lines_of, strip_cr};
use crate::text::{
    chars_of, find_char_in, lowercase_of, push_str, string_of_range, utf16_decode,
    trim_range, trim_seq, unicode_lowercase,
};

verus! {

// ---------------------------------------------------------------------------
// Sorted aliases of a face
// ---------------------------------------------------------------------------

/// A key made of several strings and numbers compares them one after the
/// other; `-1`, below every code point, ends each string.
pub open spec fn text_key(s: Seq<char>) -> Seq<int> {
    char_codes(s) + seq![-1int]
}

/// The code of each character.
pub open spec fn char_codes(s: Seq<char>) -> Seq<int> {
    s.map_values(|c: char| (c as u32) as int)
}

/// An alias as it is listed: ordered by its lower-case form, then as written.
#[derive(Debug, Clone)]
pub struct ListedAlias {
    pub value: String,
}

impl SortKey for ListedAlias {
    open spec fn sort_key(&self) -> Seq<int> {
        text_key(lowercase_of(self.value@)) + char_codes(self.value@)
    }

    fn key_less(&self, other: &Self) -> (r: bool) {
        let la = unicode_lowercase(self.value.as_str());
        let lb = unicode_lowercase(other.value.as_str());
        let a = key_chars(&la, &self.value);
        let b = key_chars(&lb, &other.value);
        int_seq_less(&a, &b)
    }
}

/// Numbers as integers.
pub open spec fn as_ints(s: Seq<i64>) -> Seq<int> {
    s.map_values(|x: i64| x as int)
}

/// The key `text_key(first) + code_points(second)` as numbers.
fn key_chars(first: &String, second: &String) -> (r: Vec<i64>)
    ensures
        as_ints(r@) == text_key(first@) + char_codes(second@),
{
    let a = chars_of(first.as_str());
    let b = chars_of(second.as_str());
    let mut r: Vec<i64> = Vec::new();
    push_codes(&mut r, &a);
    push_int(&mut r, -1);
    push_codes(&mut r, &b);
    proof {
        assert(as_ints(r@) =~= text_key(first@) + char_codes(second@));
    }
    r
}

fn push_int(r: &mut Vec<i64>, v: i64)
    ensures
        as_ints(final(r)@) == as_ints(old(r)@).push(v as int),
{
    let ghost before = r@;
    r.push(v);
    proof {
        assert forall|k: int| 0 <= k < r@.len() implies #[trigger] as_ints(r@)[k] == as_ints(before).push(v as int)[k] by {
            if k < before.len() {
                assert(r@[k] == before[k]);
            }
        }
        assert(as_ints(r@) =~= as_ints(before).push(v as int));
    }
}

fn push_codes(r: &mut Vec<i64>, cs: &Vec<char>)
    ensures
        as_ints(final(r)@) == as_ints(old(r)@) + char_codes(cs@),
{
    let mut i: usize = 0;
    while i < cs.len()
        invariant
            i <= cs@.len(),
            as_ints(r@) == as_ints(old(r)@) + char_codes(cs@.take(i as int)),
        decreases cs.len() - i,
    {
        let c = cs[i];
        let u: u32 = c as u32;
        let v: i64 = u as i64;
        push_int(r, v);
        proof {
            assert(cs@.take(i + 1) =~= cs@.take(i as int).push(cs@[i as int]));
            assert(char_codes(cs@.take(i + 1)) =~= char_codes(cs@.take(i as int)).push((cs@[i as int] as u32) as int));
            assert(as_ints(r@) =~= as_ints(old(r)@) + char_codes(cs@.take(i + 1)));
        }
        i += 1;
    }
    proof {
        assert(cs@.take(cs@.len() as int) =~= cs@);
    }
}

/// `a < b` for integer sequences compared element by element.
fn int_seq_less(a: &Vec<i64>, b: &Vec<i64>) -> (r: bool)
    ensures
        r == crate::text::lex_lt(as_ints(a@), as_ints(b@)),
{
    let ghost ka = as_ints(a@);
    let ghost kb = as_ints(b@);
    let mut i: usize = 0;
    while i < a.len() && i < b.len() && a[i] == b[i]
        invariant
            i <= a@.len(),
            i <= b@.len(),
            ka == as_ints(a@),
            kb == as_ints(b@),
            forall|j: int| 0 <= j < i ==> ka[j] == kb[j],
        decreases a.len() - i,
    {
        proof {
            assert(ka[i as int] == kb[i as int]);
        }
        i += 1;
    }
    proof {
        crate::text::lemma_lex_step(ka, kb, i as int);
    }
    if i == a.len() {
        i < b.len()
    } else if i == b.len() {
        false
    } else {
        proof {
            assert(ka.skip(i as int)[0] == ka[i as int]);
            assert(kb.skip(i as int)[0] == kb[i as int]);
        }
        a[i] < b[i]
    }
}

/// The first alias of each lower-case form, in order.
pub open spec fn first_by_lower(s: Seq<String>) -> Seq<String>
    decreases s.len(),
{
    if s.len() == 0 {
        seq![]
    } else {
        let r = first_by_lower(s.drop_last());
        if lowered(r).contains(lowercase_of(s.last()@)) {
            r
        } else {
            r.push(s.last())
        }
    }
}

pub open spec fn lowered(s: Seq<String>) -> Seq<Seq<char>> {
    s.map_values(|v: String| lowercase_of(v@))
}

pub open spec fn listed(s: Seq<String>) -> Seq<ListedAlias> {
    s.map_values(|v: String| ListedAlias { value: v })
}

pub open spec fn alias_values(aliases: Seq<FontAlias>) -> Seq<String> {
    aliases.map_values(|a: FontAlias| a.value)
}

/// A face's aliases for listing: one per lower-case form (the first seen),
/// sorted by lower-case form and then as written.
pub fn sorted_unique_aliases(face: &FontFaceAnalysis) -> (r: Vec<String>)
    ensures
        listed(r@) == insertion_sorted(
            Seq::<ListedAlias>::empty(),
            listed(first_by_lower(alias_values(face.aliases@))),
        ),
        sorted_by_key(listed(r@)),
{
    let ghost values = alias_values(face.aliases@);
    let mut kept: Vec<ListedAlias> = Vec::new();
    let mut lowers: Vec<String> = Vec::new();
    let mut i: usize = 0;
    proof {
        assert(values.take(0) =~= Seq::<String>::empty());
        assert(kept@ =~= listed(first_by_lower(values.take(0))));
    }
    while i < face.aliases.len()
        invariant
            i <= face.aliases@.len(),
            values == alias_values(face.aliases@),
            kept@ == listed(first_by_lower(values.take(i as int))),
            string_views(lowers@) == lowered(first_by_lower(values.take(i as int))),
        decreases face.aliases.len() - i,
    {
        let value = face.aliases[i].value.clone();
        let lower = unicode_lowercase(value.as_str());
        proof {
            assert(values.take(i + 1).drop_last() =~= values.take(i as int));
            assert(values.take(i + 1).last() == value);
        }
        let ghost lv = lower@;
        if !contains_string(&lowers, &lower) {
            let ghost before = first_by_lower(values.take(i as int));
            let ghost old_lowers = lowers@;
            lowers.push(lower);
            proof {
                assert(string_views(lowers@) =~= string_views(old_lowers).push(lv));
            }
            kept.push(ListedAlias { value });
            proof {
                assert(kept@ =~= listed(before.push(value)));
                assert(string_views(lowers@) =~= lowered(before.push(value)));
            }
        }
        i += 1;
    }
    proof {
        assert(values.take(face.aliases@.len() as int) =~= values);
    }
    let sorted = stable_sort(kept);
    let mut r: Vec<String> = Vec::new();
    let mut k: usize = 0;
    while k < sorted.len()
        invariant
            k <= sorted@.len(),
            listed(r@) == sorted@.take(k as int),
        decreases sorted.len() - k,
    {
        r.push(sorted[k].value.clone());
        proof {
            assert(sorted@.take(k + 1) =~= sorted@.take(k as int).push(sorted@[k as int]));
            assert(listed(r@) =~= sorted@.take(k + 1));
        }
        k += 1;
    }
    proof {
        assert(sorted@.take(sorted@.len() as int) =~= sorted@);
    }
    r
}

// ---------------------------------------------------------------------------
// Counting aliases
// ---------------------------------------------------------------------------

fn add_key(keys: &mut Vec<String>, key: String)
    requires
        string_views(old(keys)@).no_duplicates(),
    ensures
        string_views(final(keys)@).no_duplicates(),
        forall|k: Seq<char>| #[trigger] string_views(final(keys)@).contains(k) <==> (string_views(old(keys)@).contains(k)
            || k == key@),
{
    let ghost kv = key@;
    if !contains_string(keys, &key) {
        let ghost before = keys@;
        keys.push(key);
        proof {
            assert(string_views(keys@) =~= string_views(before).push(kv));
            assert forall|p: int, q: int|
                0 <= p < string_views(keys@).len() && 0 <= q < string_views(keys@).len() && p != q implies
                string_views(keys@)[p] != string_views(keys@)[q] by {
                if p == before.len() {
                    assert(string_views(before)[q] == string_views(keys@)[q]);
                } else if q == before.len() {
                    assert(string_views(before)[p] == string_views(keys@)[p]);
                } else {
                    assert(string_views(before)[p] == string_views(keys@)[p]);
                    assert(string_views(before)[q] == string_views(keys@)[q]);
                }
            }
            assert forall|k: Seq<char>| #[trigger] string_views(keys@).contains(k) <==> (string_views(before).contains(k)
                || k == kv) by {
                if string_views(before).contains(k) {
                    let m = choose|m: int| 0 <= m < string_views(before).len() && string_views(before)[m] == k;
                    assert(string_views(keys@)[m] == k);
                }
                if k == kv {
                    assert(string_views(keys@)[before.len() as int] == k);
                }
                if string_views(keys@).contains(k) {
                    let m = choose|m: int| 0 <= m < string_views(keys@).len() && string_views(keys@)[m] == k;
                    if m < before.len() {
                        assert(string_views(before)[m] == k);
                    }
                }
            }
        }
    }
}

/// The lower-case forms of a list of aliases.
pub open spec fn lower_forms(aliases: Seq<FontAlias>) -> Set<Seq<char>> {
    Set::new(|k: Seq<char>| exists|m: int| 0 <= m < aliases.len() && lowercase_of(#[trigger] aliases[m].value@) == k)
}

/// The lower-case forms of the aliases of a list of faces.
pub open spec fn face_lower_forms(faces: Seq<FontFaceAnalysis>) -> Set<Seq<char>> {
    Set::new(|k: Seq<char>| exists|g: int| 0 <= g < faces.len() && lower_forms(#[trigger] faces[g].aliases@).contains(k))
}

fn add_alias_forms(keys: &mut Vec<String>, aliases: &Vec<FontAlias>)
    requires
        string_views(old(keys)@).no_duplicates(),
    ensures
        string_views(final(keys)@).no_duplicates(),
        forall|k: Seq<char>| #[trigger] string_views(final(keys)@).contains(k) <==> (string_views(old(keys)@).contains(k)
            || lower_forms(aliases@).contains(k)),
{
    let mut l: usize = 0;
    while l < aliases.len()
        invariant
            l <= aliases@.len(),
            string_views(keys@).no_duplicates(),
            forall|k: Seq<char>| #[trigger] string_views(keys@).contains(k) <==> (string_views(old(keys)@).contains(k)
                || lower_forms(aliases@.take(l as int)).contains(k)),
        decreases aliases.len() - l,
    {
        let lower = unicode_lowercase(aliases[l].value.as_str());
        let ghost lk = lower@;
        let ghost kb = keys@;
        add_key(keys, lower);
        proof {
            assert(lk == lowercase_of(aliases@[l as int].value@));
            assert forall|k: Seq<char>| lower_forms(aliases@.take(l + 1)).contains(k) <==> (lower_forms(
                aliases@.take(l as int),
            ).contains(k) || k == lk) by {
                if lower_forms(aliases@.take(l + 1)).contains(k) {
                    let m = choose|m: int| 0 <= m < aliases@.take(l + 1).len() && lowercase_of(
                        #[trigger] aliases@.take(l + 1)[m].value@,
                    ) == k;
                    if m < l {
                        assert(aliases@.take(l as int)[m] == aliases@.take(l + 1)[m]);
                    }
                }
                if lower_forms(aliases@.take(l as int)).contains(k) {
                    let m = choose|m: int| 0 <= m < aliases@.take(l as int).len() && lowercase_of(
                        #[trigger] aliases@.take(l as int)[m].value@,
                    ) == k;
                    assert(aliases@.take(l as int)[m] == aliases@.take(l + 1)[m]);
                }
                if k == lk {
                    assert(aliases@.take(l + 1)[l as int] == aliases@[l as int]);
                }
            }
            assert forall|k: Seq<char>| #[trigger] string_views(keys@).contains(k) <==> (string_views(old(keys)@).contains(k)
                || lower_forms(aliases@.take(l + 1)).contains(k)) by {
                assert(string_views(keys@).contains(k) <==> (string_views(kb).contains(k) || k == lk));
                assert(string_views(kb).contains(k) <==> (string_views(old(keys)@).contains(k) || lower_forms(
                    aliases@.take(l as int),
                ).contains(k)));
                assert(lower_forms(aliases@.take(l + 1)).contains(k) <==> (lower_forms(aliases@.take(l as int)).contains(k)
                    || k == lk));
            }
        }
        l += 1;
    }
    proof {
        assert(aliases@.take(aliases@.len() as int) =~= aliases@);
    }
}

fn add_face_forms(keys: &mut Vec<String>, faces: &Vec<FontFaceAnalysis>)
    requires
        string_views(old(keys)@).no_duplicates(),
    ensures
        string_views(final(keys)@).no_duplicates(),
        forall|k: Seq<char>| #[trigger] string_views(final(keys)@).contains(k) <==> (string_views(old(keys)@).contains(k)
            || face_lower_forms(faces@).contains(k)),
{
    let mut g: usize = 0;
    while g < faces.len()
        invariant
            g <= faces@.len(),
            string_views(keys@).no_duplicates(),
            forall|k: Seq<char>| #[trigger] string_views(keys@).contains(k) <==> (string_views(old(keys)@).contains(k)
                || face_lower_forms(faces@.take(g as int)).contains(k)),
        decreases faces.len() - g,
    {
        add_alias_forms(keys, &faces[g].aliases);
        proof {
            assert forall|k: Seq<char>| face_lower_forms(faces@.take(g + 1)).contains(k) <==> (face_lower_forms(
                faces@.take(g as int),
            ).contains(k) || lower_forms(faces@[g as int].aliases@).contains(k)) by {
                if face_lower_forms(faces@.take(g + 1)).contains(k) {
                    let m = choose|m: int| 0 <= m < faces@.take(g + 1).len() && lower_forms(
                        #[trigger] faces@.take(g + 1)[m].aliases@,
                    ).contains(k);
                    if m < g {
                        assert(faces@.take(g as int)[m] == faces@.take(g + 1)[m]);
                    }
                }
                if face_lower_forms(faces@.take(g as int)).contains(k) {
                    let m = choose|m: int| 0 <= m < faces@.take(g as int).len() && lower_forms(
                        #[trigger] faces@.take(g as int)[m].aliases@,
                    ).contains(k);
                    assert(faces@.take(g as int)[m] == faces@.take(g + 1)[m]);
                }
                if lower_forms(faces@[g as int].aliases@).contains(k) {
                    assert(faces@.take(g + 1)[g as int] == faces@[g as int]);
                }
            }
        }
        g += 1;
    }
    proof {
        assert(faces@.take(faces@.len() as int) =~= faces@);
    }
}

/// The lower-case forms of every alias of every face of the analyses.
pub open spec fn alias_key_set(analyses: Seq<FontFileAnalysis>) -> Set<Seq<char>> {
    Set::new(|k: Seq<char>| exists|a: int| 0 <= a < analyses.len() && face_lower_forms(#[trigger] analyses[a].faces@).contains(k))
}

/// How many different aliases the analyses hold, letters compared by their
/// lower-case forms.
pub fn unique_alias_count(analyses: &Vec<FontFileAnalysis>) -> (r: usize)
    ensures
        alias_key_set(analyses@).finite(),
        r == alias_key_set(analyses@).len(),
{
    let mut keys: Vec<String> = Vec::new();
    let mut a: usize = 0;
    proof {
        assert(string_views(keys@) =~= Seq::<Seq<char>>::empty());
    }
    while a < analyses.len()
        invariant
            a <= analyses@.len(),
            string_views(keys@).no_duplicates(),
            forall|k: Seq<char>| #[trigger] string_views(keys@).contains(k) <==> alias_key_set(analyses@.take(a as int)).contains(k),
        decreases analyses.len() - a,
    {
        let ghost kb = keys@;
        add_face_forms(&mut keys, &analyses[a].faces);
        proof {
            assert forall|k: Seq<char>| alias_key_set(analyses@.take(a + 1)).contains(k) <==> (alias_key_set(
                analyses@.take(a as int),
            ).contains(k) || face_lower_forms(analyses@[a as int].faces@).contains(k)) by {
                if alias_key_set(analyses@.take(a + 1)).contains(k) {
                    let m = choose|m: int| 0 <= m < analyses@.take(a + 1).len() && face_lower_forms(
                        #[trigger] analyses@.take(a + 1)[m].faces@,
                    ).contains(k);
                    if m < a {
                        assert(analyses@.take(a as int)[m] == analyses@.take(a + 1)[m]);
                    }
                }
                if alias_key_set(analyses@.take(a as int)).contains(k) {
                    let m = choose|m: int| 0 <= m < analyses@.take(a as int).len() && face_lower_forms(
                        #[trigger] analyses@.take(a as int)[m].faces@,
                    ).contains(k);
                    assert(analyses@.take(a as int)[m] == analyses@.take(a + 1)[m]);
                }
                if face_lower_forms(analyses@[a as int].faces@).contains(k) {
                    assert(analyses@.take(a + 1)[a as int] == analyses@[a as int]);
                }
            }
            assert forall|k: Seq<char>| #[trigger] string_views(keys@).contains(k) <==> alias_key_set(
                analyses@.take(a + 1),
            ).contains(k) by {
                assert(string_views(keys@).contains(k) <==> (string_views(kb).contains(k) || face_lower_forms(
                    analyses@[a as int].faces@,
                ).contains(k)));
                assert(string_views(kb).contains(k) <==> alias_key_set(analyses@.take(a as int)).contains(k));
            }
        }
        a += 1;
    }
    proof {
        assert(analyses@.take(analyses@.len() as int) =~= analyses@);
        let kv = string_views(keys@);
        assert(kv.to_set() =~= alias_key_set(analyses@));
        kv.unique_seq_to_set();
        vstd::seq_lib::seq_to_set_is_finite(kv);
    }
    keys.len()
}

// ---------------------------------------------------------------------------
// Alias CSV rows
// ---------------------------------------------------------------------------

/// One row of the alias CSV export.
#[derive(Debug, Clone)]
pub struct CsvAliasRow {
    pub font_path: String,
    pub face_index: u32,
    pub name_id: u16,
    pub platform_id: String,
    pub encoding_id: u16,
    pub language_id: u16,
    pub alias: String,
}

/// Rows sort by path, face, the alias's lower-case form, name ID, and the
/// alias as written.
impl SortKey for CsvAliasRow {
    open spec fn sort_key(&self) -> Seq<int> {
        text_key(self.font_path@) + seq![self.face_index as int] + text_key(lowercase_of(self.alias@))
            + seq![self.name_id as int] + char_codes(self.alias@)
    }

    fn key_less(&self, other: &Self) -> (r: bool) {
        let a = row_key_numbers(self);
        let b = row_key_numbers(other);
        int_seq_less(&a, &b)
    }
}

fn row_key_numbers(row: &CsvAliasRow) -> (r: Vec<i64>)
    ensures
        as_ints(r@) == row.sort_key(),
{
    let path = chars_of(row.font_path.as_str());
    let lower = unicode_lowercase(row.alias.as_str());
    let lower_chars = chars_of(lower.as_str());
    let alias = chars_of(row.alias.as_str());
    let mut r: Vec<i64> = Vec::new();
    push_codes(&mut r, &path);
    push_int(&mut r, -1);
    push_int(&mut r, row.face_index as i64);
    push_codes(&mut r, &lower_chars);
    push_int(&mut r, -1);
    push_int(&mut r, row.name_id as i64);
    push_codes(&mut r, &alias);
    proof {
        assert(as_ints(r@) =~= row.sort_key());
    }
    r
}

/// The row of an alias of face `face_index` of the file at `path`.
pub open spec fn row_of(path: String, face_index: u32, a: FontAlias) -> CsvAliasRow {
    CsvAliasRow {
        font_path: path,
        face_index,
        name_id: a.name_id,
        platform_id: a.platform_id,
        encoding_id: a.encoding_id,
        language_id: a.language_id,
        alias: a.value,
    }
}

/// What makes two rows the same row: the file, the face, the name ID and the
/// alias's lower-case form.
pub open spec fn row_identity(r: CsvAliasRow) -> (Seq<char>, u32, u16, Seq<char>) {
    (r.font_path@, r.face_index, r.name_id, lowercase_of(r.alias@))
}

pub open spec fn face_rows(path: String, face: FontFaceAnalysis) -> Seq<CsvAliasRow> {
    face.aliases@.map_values(|a: FontAlias| row_of(path, face.face_index, a))
}

pub open spec fn file_rows(path: String, faces: Seq<FontFaceAnalysis>) -> Seq<CsvAliasRow>
    decreases faces.len(),
{
    if faces.len() == 0 {
        seq![]
    } else {
        file_rows(path, faces.drop_last()) + face_rows(path, faces.last())
    }
}

/// Every alias of every face of every file, as rows, in order.
pub open spec fn all_rows(analyses: Seq<FontFileAnalysis>) -> Seq<CsvAliasRow>
    decreases analyses.len(),
{
    if analyses.len() == 0 {
        seq![]
    } else {
        all_rows(analyses.drop_last()) + file_rows(analyses.last().path, analyses.last().faces@)
    }
}

/// The first row of each identity, in order.
pub open spec fn first_rows(rows: Seq<CsvAliasRow>) -> Seq<CsvAliasRow>
    decreases rows.len(),
{
    if rows.len() == 0 {
        seq![]
    } else {
        let r = first_rows(rows.drop_last());
        if r.map_values(|x: CsvAliasRow| row_identity(x)).contains(row_identity(rows.last())) {
            r
        } else {
            r.push(rows.last())
        }
    }
}

fn has_identity(kept: &Vec<CsvAliasRow>, lowers: &Vec<String>, row: &CsvAliasRow, lower: &String) -> (r: bool)
    requires
        kept@.len() == lowers@.len(),
        forall|i: int| 0 <= i < kept@.len() ==> (#[trigger] lowers@[i])@ == lowercase_of(kept@[i].alias@),
        lower@ == lowercase_of(row.alias@),
    ensures
        r == kept@.map_values(|x: CsvAliasRow| row_identity(x)).contains(row_identity(*row)),
{
    let ghost ids = kept@.map_values(|x: CsvAliasRow| row_identity(x));
    let mut i: usize = 0;
    while i < kept.len()
        invariant
            i <= kept@.len() == lowers@.len(),
            ids == kept@.map_values(|x: CsvAliasRow| row_identity(x)),
            forall|k: int| 0 <= k < kept@.len() ==> (#[trigger] lowers@[k])@ == lowercase_of(kept@[k].alias@),
            lower@ == lowercase_of(row.alias@),
            forall|j: int| 0 <= j < i ==> ids[j] != row_identity(*row),
        decreases kept.len() - i,
    {
        let k = &kept[i];
        if k.font_path == row.font_path && k.face_index == row.face_index && k.name_id == row.name_id
            && lowers[i] == *lower {
            proof {
                assert(ids[i as int] == row_identity(*row));
            }
            return true;
        }
        proof {
            assert(lowers@[i as int]@ == lowercase_of(kept@[i as int].alias@));
        }
        i += 1;
    }
    false
}

/// The rows of the alias CSV export: one per alias of each face of each
/// file, the first of each identity kept, sorted.
pub fn alias_csv_rows(analyses: &Vec<FontFileAnalysis>) -> (r: Vec<CsvAliasRow>)
    ensures
        r@ == insertion_sorted(Seq::<CsvAliasRow>::empty(), first_rows(all_rows(analyses@))),
        sorted_by_key(r@),
{
    let mut kept: Vec<CsvAliasRow> = Vec::new();
    let mut lowers: Vec<String> = Vec::new();
    let mut a: usize = 0;
    proof {
        assert(analyses@.take(0) =~= Seq::<FontFileAnalysis>::empty());
    }
    while a < analyses.len()
        invariant
            a <= analyses@.len(),
            kept@.len() == lowers@.len(),
            forall|i: int| 0 <= i < kept@.len() ==> (#[trigger] lowers@[i])@ == lowercase_of(kept@[i].alias@),
            kept@ == first_rows(all_rows(analyses@.take(a as int))),
        decreases analyses.len() - a,
    {
        let analysis = &analyses[a];
        let ghost base = all_rows(analyses@.take(a as int));
        let mut f: usize = 0;
        proof {
            assert(analysis.faces@.take(0) =~= Seq::<FontFaceAnalysis>::empty());
            assert(base + file_rows(analysis.path, analysis.faces@.take(0)) =~= base);
        }
        while f < analysis.faces.len()
            invariant
                a < analyses@.len(),
                *analysis == analyses@[a as int],
                f <= analysis.faces@.len(),
                kept@.len() == lowers@.len(),
                forall|i: int| 0 <= i < kept@.len() ==> (#[trigger] lowers@[i])@ == lowercase_of(kept@[i].alias@),
                kept@ == first_rows(base + file_rows(analysis.path, analysis.faces@.take(f as int))),
            decreases analysis.faces.len() - f,
        {
            let face = &analysis.faces[f];
            let ghost mid = base + file_rows(analysis.path, analysis.faces@.take(f as int));
            let ghost rows = face_rows(analysis.path, *face);
            let mut l: usize = 0;
            proof {
                assert(mid + rows.take(0) =~= mid);
            }
            while l < face.aliases.len()
                invariant
                    f < analysis.faces@.len(),
                    *face == analysis.faces@[f as int],
                    rows == face_rows(analysis.path, *face),
                    l <= face.aliases@.len(),
                    kept@.len() == lowers@.len(),
                    forall|i: int| 0 <= i < kept@.len() ==> (#[trigger] lowers@[i])@ == lowercase_of(kept@[i].alias@),
                    kept@ == first_rows(mid + rows.take(l as int)),
                decreases face.aliases.len() - l,
            {
                let alias = &face.aliases[l];
                let row = CsvAliasRow {
                    font_path: analysis.path.clone(),
                    face_index: face.face_index,
                    name_id: alias.name_id,
                    platform_id: alias.platform_id.clone(),
                    encoding_id: alias.encoding_id,
                    language_id: alias.language_id,
                    alias: alias.value.clone(),
                };
                let lower = unicode_lowercase(row.alias.as_str());
                proof {
                    assert(row == rows[l as int]);
                    assert((mid + rows.take(l + 1)).drop_last() =~= mid + rows.take(l as int));
                    assert((mid + rows.take(l + 1)).last() == row);
                }
                if !has_identity(&kept, &lowers, &row, &lower) {
                    let ghost before_lowers = lowers@;
                    kept.push(row);
                    lowers.push(lower);
                    proof {
                        assert forall|i: int| 0 <= i < kept@.len() implies (#[trigger] lowers@[i])@ == lowercase_of(
                            kept@[i].alias@,
                        ) by {
                            if i < before_lowers.len() {
                                assert(lowers@[i] == before_lowers[i]);
                            }
                        }
                    }
                }
                l += 1;
            }
            proof {
                assert(rows.take(face.aliases@.len() as int) =~= rows);
                let fs = analysis.faces@.take(f + 1);
                assert(fs.drop_last() =~= analysis.faces@.take(f as int));
                assert(fs.last() == *face);
                assert(mid + rows =~= base + file_rows(analysis.path, fs));
            }
            f += 1;
        }
        proof {
            assert(analysis.faces@.take(analysis.faces@.len() as int) =~= analysis.faces@);
            let an = analyses@.take(a + 1);
            assert(an.drop_last() =~= analyses@.take(a as int));
            assert(an.last() == *analysis);
        }
        a += 1;
    }
    proof {
        assert(analyses@.take(analyses@.len() as int) =~= analyses@);
    }
    stable_sort(kept)
}

// ---------------------------------------------------------------------------
// System font families
// ---------------------------------------------------------------------------

/// A family the system reports is listed unless its name is empty, or it is
/// a vertical (`@`) family and those are not wanted.
pub fn keeps_family_name(name: &str, include_vertical: bool) -> (r: bool)
    ensures
        r == (name@.len() > 0 && (include_vertical || name@[0] != '@')),
{
    let cs = chars_of(name);
    cs.len() > 0 && (include_vertical || cs[0] != '@')
}

/// `needle` occurs in `hay`.
pub open spec fn contains_text(hay: Seq<char>, needle: Seq<char>) -> bool {
    exists|i: int| 0 <= i <= hay.len() - needle.len() && #[trigger] hay.subrange(i, i + needle.len()) == needle
}

fn occurs_at(hay: &Vec<char>, needle: &Vec<char>, i: usize) -> (r: bool)
    requires
        i + needle@.len() <= hay@.len(),
    ensures
        r == (hay@.subrange(i as int, i + needle@.len()) == needle@),
{
    let mut j: usize = 0;
    while j < needle.len()
        invariant
            j <= needle@.len(),
            i <= hay@.len(),
            i + needle.len() <= hay.len(),
            i + needle@.len() <= hay@.len(),
            forall|k: int| 0 <= k < j ==> hay@[i + k] == needle@[k],
        decreases needle.len() - j,
    {
        if hay[i + j] != needle[j] {
            proof {
                assert(hay@.subrange(i as int, i + needle@.len())[j as int] != needle@[j as int]);
            }
            return false;
        }
        j += 1;
    }
    proof {
        assert(hay@.subrange(i as int, i + needle@.len()) =~= needle@);
    }
    true
}

/// Does the family's lower-case name contain `filter` (itself lower-cased
/// by the caller)?
pub fn family_matches(family: &str, filter: &str) -> (r: bool)
    ensures
        r == contains_text(lowercase_of(family@), filter@),
{
    let lower = unicode_lowercase(family);
    let hay = chars_of(lower.as_str());
    let needle = chars_of(filter);
    if needle.len() > hay.len() {
        return false;
    }
    let last = hay.len() - needle.len();
    let mut i: usize = 0;
    loop
        invariant
            i <= last,
            last == hay@.len() - needle@.len(),
            hay@ == lowercase_of(family@),
            needle@ == filter@,
            forall|k: int| 0 <= k < i ==> #[trigger] hay@.subrange(k, k + needle@.len()) != needle@,
        decreases last - i,
    {
        if occurs_at(&hay, &needle, i) {
            return true;
        }
        if i == last {
            return false;
        }
        i += 1;
    }
}

/// `String::from_utf16_lossy`: the UTF-16 decoding of the units, each
/// unpaired surrogate replaced by U+FFFD, as its documentation says.
#[verifier::external_body]
fn from_utf16_lossy(units: &[u16]) -> (r: String)
    ensures
        r@ == utf16_decode(units@).0,
{
    String::from_utf16_lossy(units)
}

/// The units of a zero-terminated UTF-16 buffer: those before the first
/// zero, or all of them.
pub open spec fn before_zero(units: Seq<u16>) -> Seq<u16>
    decreases units.len(),
{
    if units.len() == 0 {
        seq![]
    } else if units[0] == 0 {
        seq![]
    } else {
        seq![units[0]] + before_zero(units.drop_first())
    }
}

/// The text of a zero-terminated UTF-16 buffer, as the system hands out
/// font names.
pub fn wide_z_to_string(value: &[u16]) -> (r: String)
    ensures
        r@ == utf16_decode(before_zero(value@)).0,
{
    let mut end: usize = 0;
    proof {
        assert(value@.skip(0) =~= value@);
        assert(value@.take(0) + before_zero(value@.skip(0)) =~= before_zero(value@));
    }
    while end < value.len() && value[end] != 0
        invariant
            end <= value@.len(),
            value@.take(end as int) + before_zero(value@.skip(end as int)) == before_zero(value@),
        decreases value.len() - end,
    {
        proof {
            let rest = value@.skip(end as int);
            assert(rest[0] == value@[end as int]);
            assert(rest.drop_first() =~= value@.skip(end + 1));
            assert(value@.take(end + 1) =~= value@.take(end as int).push(value@[end as int]));
            assert(value@.take(end + 1) + before_zero(value@.skip(end + 1)) =~= value@.take(end as int)
                + before_zero(rest));
        }
        end += 1;
    }
    proof {
        if end < value@.len() {
            assert(value@.skip(end as int)[0] == 0);
        }
        assert(before_zero(value@.skip(end as int)) =~= Seq::<u16>::empty());
        assert(value@.take(end as int) + Seq::<u16>::empty() =~= value@.take(end as int));
    }
    let head = vstd::slice::slice_subrange(value, 0, end);
    proof {
        assert(head@ =~= value@.take(end as int));
    }
    from_utf16_lossy(head)
}

// ---------------------------------------------------------------------------
// Options
// ---------------------------------------------------------------------------

/// The index database: the one given, or `font_index.redb`.
pub fn db_path(value: Option<String>) -> (r: String)
    ensures
        r@ == match value {
            Some(v) => v@,
            None => "font_index.redb"@,
        },
{
    match value {
        Some(v) => v,
        None => {
            let mut r = String::new();
            push_str(&mut r, "font_index.redb");
            proof {
                assert(Seq::<char>::empty() + "font_index.redb"@ =~= "font_index.redb"@);
            }
            r
        },
    }
}

/// The non-empty lines of `lines`, trimmed.
pub open spec fn trimmed_nonempty(lines: Seq<Seq<char>>) -> Seq<Seq<char>>
    decreases lines.len(),
{
    if lines.len() == 0 {
        seq![]
    } else {
        let t = trim_seq(lines[0]);
        (if t.len() > 0 { seq![t] } else { seq![] }) + trimmed_nonempty(lines.drop_first())
    }
}

/// The paths stored one per line: each line trimmed, blank lines skipped.
pub fn decode_reverse_paths(value: &str) -> (r: Vec<String>)
    ensures
        string_views(r@) == trimmed_nonempty(lines_of(value@)),
{
    let cs = chars_of(value);
    let n = cs.len();
    let mut r: Vec<String> = Vec::new();
    proof {
        assert(cs@.subrange(0, n as int) =~= value@);
        assert(string_views(r@) =~= Seq::<Seq<char>>::empty());
    }
    let mut pos: usize = 0;
    while pos < n
        invariant
            pos <= n == cs@.len(),
            cs@ == value@,
            trimmed_nonempty(lines_of(value@)) == string_views(r@) + trimmed_nonempty(
                lines_of(cs@.subrange(pos as int, n as int)),
            ),
        decreases n - pos,
    {
        let ghost rest = cs@.subrange(pos as int, n as int);
        let (end, next) = match find_char_in(cs.as_slice(), pos, n, '\n') {
            Some(nl) => {
                let end = if nl > pos && cs[nl - 1] == '\r' {
                    nl - 1
                } else {
                    nl
                };
                proof {
                    assert(rest.take(nl - pos) =~= cs@.subrange(pos as int, nl as int));
                    assert(strip_cr(rest.take(nl - pos)) =~= cs@.subrange(pos as int, end as int));
                    assert(rest.skip(nl - pos + 1) =~= cs@.subrange(nl + 1, n as int));
                    let line = strip_cr(rest.take(nl - pos));
                    let tail = lines_of(cs@.subrange(nl + 1, n as int));
                    assert(lines_of(rest) == seq![line] + tail);
                    assert((seq![line] + tail)[0] == line);
                    assert((seq![line] + tail).drop_first() =~= tail);
                }
                (end, nl + 1)
            },
            None => {
                proof {
                    let lines = lines_of(rest);
                    assert(lines =~= seq![rest]);
                    assert(lines.drop_first() =~= Seq::<Seq<char>>::empty());
                    assert(lines_of(cs@.subrange(n as int, n as int)) =~= Seq::<Seq<char>>::empty());
                }
                (n, n)
            },
        };
        let (a, b) = trim_range(cs.as_slice(), pos, end);
        let ghost before = string_views(r@);
        if a < b {
            r.push(string_of_range(cs.as_slice(), a, b));
        }
        proof {
            let lines = lines_of(rest);
            assert(lines[0] == cs@.subrange(pos as int, end as int));
            assert(lines.drop_first() == lines_of(cs@.subrange(next as int, n as int)));
            if a < b {
                assert(string_views(r@) =~= before.push(cs@.subrange(a as int, b as int)));
            }
            assert(string_views(r@) + trimmed_nonempty(lines_of(cs@.subrange(next as int, n as int)))
                =~= before + trimmed_nonempty(lines));
        }
        pos = next;
    }
    proof {
        assert(lines_of(cs@.subrange(n as int, n as int)) =~= Seq::<Seq<char>>::empty());
        assert(string_views(r@) + Seq::<Seq<char>>::empty() =~= string_views(r@));
    }
    r
}

} // verus!
