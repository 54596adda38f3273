//! The lookup keys of the fonts installed on the system, gathered from the
//! analyses of their files.

use vstd::prelude::*;

use crate::font::index::{font_key_of, normalize_font_name};
use crate::font::names::FontFileAnalysis;
use crate::name_set::{contains_string, string_views};

verus! {

/// The non-empty lookup keys of the aliases of every face of `a`.
pub open spec fn analysis_keys(a: FontFileAnalysis) -> Set<Seq<char>> {
    Set::new(
        |k: Seq<char>|
            k.len() > 0 && exists|i: int, j: int|
                0 <= i < a.faces@.len() && 0 <= j < a.faces@[i].aliases@.len() && font_key_of(
                    #[trigger] a.faces@[i].aliases@[j].value@,
                ) == k,
    )
}

/// No key occurs twice.
pub open spec fn keys_unique(keys: Seq<String>) -> bool {
    forall|i: int, j: int| 0 <= i < j < keys.len() ==> (#[trigger] keys[i])@ != (#[trigger] keys[j])@
}

/// Adds the lookup keys of the aliases of an analysed font file to `keys`,
/// each key once; aliases whose key is empty add nothing.
pub fn add_alias_keys(keys: &mut Vec<String>, analysis: &FontFileAnalysis)
    requires
        keys_unique(old(keys)@),
    ensures
        keys_unique(final(keys)@),
        forall|k: Seq<char>| #[trigger] string_views(final(keys)@).contains(k) <==> (string_views(old(keys)@).contains(k)
            || analysis_keys(*analysis).contains(k)),
{
    let ghost start = string_views(keys@);
    let mut i: usize = 0;
    while i < analysis.faces.len()
        invariant
            i <= analysis.faces@.len(),
            keys_unique(keys@),
            forall|k: Seq<char>| #[trigger] string_views(keys@).contains(k) <==> (start.contains(k) || (
                k.len() > 0 && exists|a: int, b: int|
                    0 <= a < i && 0 <= b < analysis.faces@[a].aliases@.len() && font_key_of(
                        #[trigger] analysis.faces@[a].aliases@[b].value@,
                    ) == k)),
        decreases analysis.faces.len() - i,
    {
        let face = &analysis.faces[i];
        let mut j: usize = 0;
        while j < face.aliases.len()
            invariant
                i < analysis.faces@.len(),
                *face == analysis.faces@[i as int],
                j <= face.aliases@.len(),
                keys_unique(keys@),
                forall|k: Seq<char>| #[trigger] string_views(keys@).contains(k) <==> (start.contains(k) || (
                    k.len() > 0 && ((exists|a: int, b: int|
                        0 <= a < i && 0 <= b < analysis.faces@[a].aliases@.len() && font_key_of(
                            #[trigger] analysis.faces@[a].aliases@[b].value@,
                        ) == k) || (exists|b: int| 0 <= b < j && font_key_of(#[trigger] face.aliases@[b].value@) == k)))),
            decreases face.aliases.len() - j,
        {
            let key = normalize_font_name(face.aliases[j].value.as_str());
            if !key.as_str().is_empty() && !contains_string(keys, &key) {
                let ghost before = keys@;
                let ghost kv = key@;
                keys.push(key);
                proof {
                    assert(string_views(keys@) =~= string_views(before).push(kv));
                    assert forall|a: int, b: int| 0 <= a < b < keys@.len() implies (#[trigger] keys@[a])@ != (#[trigger] keys@[b])@ by {
                        if b == before.len() {
                            assert(string_views(before)[a] == before[a]@);
                        }
                    }
                    assert forall|k: Seq<char>| #[trigger] string_views(keys@).contains(k) <==> (string_views(before).contains(k) || k == kv) by {
                        if string_views(before).contains(k) {
                            let m = choose|m: int| 0 <= m < string_views(before).len() && string_views(before)[m] == k;
                            assert(string_views(keys@)[m] == k);
                        }
                        if k == kv {
                            assert(string_views(keys@)[before.len() as int] == k);
                        }
                        if string_views(keys@).contains(k) {
                            let m = choose|m: int| 0 <= m < string_views(keys@).len() && string_views(keys@)[m] == k;
                            if m < before.len() {
                                assert(string_views(before)[m] == k);
                            }
                        }
                    }
                }
            }
            proof {
                assert forall|k: Seq<char>| #[trigger] string_views(keys@).contains(k) <==> (start.contains(k) || (
                    k.len() > 0 && ((exists|a: int, b: int|
                        0 <= a < i && 0 <= b < analysis.faces@[a].aliases@.len() && font_key_of(
                            #[trigger] analysis.faces@[a].aliases@[b].value@,
                        ) == k) || (exists|b: int| 0 <= b < j + 1 && font_key_of(#[trigger] face.aliases@[b].value@) == k)))) by {
                    if k == font_key_of(face.aliases@[j as int].value@) && k.len() > 0 {
                        assert(font_key_of(face.aliases@[j as int].value@) == k);
                    }
                    if exists|b: int| 0 <= b < j + 1 && font_key_of(#[trigger] face.aliases@[b].value@) == k {
                        let b = choose|b: int| 0 <= b < j + 1 && font_key_of(#[trigger] face.aliases@[b].value@) == k;
                        if b < j {
                        }
                    }
                }
            }
            j += 1;
        }
        proof {
            assert forall|k: Seq<char>| #[trigger] string_views(keys@).contains(k) <==> (start.contains(k) || (
                k.len() > 0 && exists|a: int, b: int|
                    0 <= a < i + 1 && 0 <= b < analysis.faces@[a].aliases@.len() && font_key_of(
                        #[trigger] analysis.faces@[a].aliases@[b].value@,
                    ) == k)) by {
                if k.len() > 0 && exists|b: int| 0 <= b < j && font_key_of(#[trigger] face.aliases@[b].value@) == k {
                    let b = choose|b: int| 0 <= b < j && font_key_of(#[trigger] face.aliases@[b].value@) == k;
                    assert(font_key_of(analysis.faces@[i as int].aliases@[b].value@) == k);
                }
                if k.len() > 0 && exists|a: int, b: int|
                    0 <= a < i + 1 && 0 <= b < analysis.faces@[a].aliases@.len() && font_key_of(
                        #[trigger] analysis.faces@[a].aliases@[b].value@,
                    ) == k {
                    let (a, b) = choose|a: int, b: int|
                        0 <= a < i + 1 && 0 <= b < analysis.faces@[a].aliases@.len() && font_key_of(
                            #[trigger] analysis.faces@[a].aliases@[b].value@,
                        ) == k;
                    if a == i {
                        assert(font_key_of(face.aliases@[b].value@) == k);
                    }
                }
            }
        }
        i += 1;
    }
}

} // verus!
