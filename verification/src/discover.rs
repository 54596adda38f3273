//! Which files are fonts and which are subtitles, judged by the extension of
//! their path.
//!
//! Paths are Windows paths: `/` and `\` both separate components, a leading
//! drive such as `C:` is not part of the first component, and `.` components
//! are skipped. (UNC and device prefixes are not recognised as prefixes.)

use vstd::prelude::*;

use crate::text::{ascii_lower, ascii_lower_seq, chars_of, is_separator, to_ascii_lower_char};

verus! {

/// `s` starts with a drive such as `C:`.
pub open spec fn has_drive(s: Seq<char>) -> bool {
    s.len() >= 2 && s[1] == ':' && (('a' <= s[0] && s[0] <= 'z') || ('A' <= s[0] && s[0] <= 'Z'))
}

/// Where the last run of non-separators of `s` starts.
pub open spec fn part_start(s: Seq<char>) -> int
    decreases s.len(),
{
    if s.len() == 0 {
        0
    } else if is_separator(s.last()) {
        s.len() as int
    } else {
        part_start(s.drop_last())
    }
}

/// The last component of `s` other than `.`, or nothing.
pub open spec fn last_component(s: Seq<char>) -> Seq<char>
    decreases s.len(),
{
    if s.len() == 0 {
        seq![]
    } else if is_separator(s.last()) {
        last_component(s.drop_last())
    } else {
        let k = part_start(s);
        proof {
            lemma_part_start_bounds(s);
        }
        if k < s.len() && s.subrange(k, s.len() as int) == seq!['.'] {
            last_component(s.subrange(0, k))
        } else {
            s.subrange(k, s.len() as int)
        }
    }
}

/// The file name of a path, as `Path::file_name` gives it.
pub open spec fn file_name_of(s: Seq<char>) -> Option<Seq<char>> {
    let p = if has_drive(s) { s.skip(2) } else { s };
    let c = last_component(p);
    if c.len() == 0 || c == seq!['.', '.'] {
        None
    } else {
        Some(c)
    }
}

/// The position of the last `.` in `s`.
pub open spec fn last_dot(s: Seq<char>) -> Option<int>
    decreases s.len(),
{
    if s.len() == 0 {
        None
    } else if s.last() == '.' {
        Some(s.len() - 1)
    } else {
        last_dot(s.drop_last())
    }
}

/// The extension of a path, as `Path::extension` gives it: what follows the
/// last `.` of the file name, unless that `.` starts the name.
pub open spec fn extension_of(s: Seq<char>) -> Option<Seq<char>> {
    match file_name_of(s) {
        None => None,
        Some(name) => match last_dot(name) {
            Some(i) => if i > 0 {
                Some(name.subrange(i + 1, name.len() as int))
            } else {
                None
            },
            None => None,
        },
    }
}

/// The extension, ASCII-lower-cased, is one of `exts`.
pub open spec fn has_extension_in(path: Seq<char>, exts: Seq<Seq<char>>) -> bool {
    match extension_of(path) {
        Some(e) => exts.contains(ascii_lower_seq(e)),
        None => false,
    }
}

pub open spec fn font_extensions() -> Seq<Seq<char>> {
    seq!["ttf"@, "otf"@, "ttc"@]
}

pub open spec fn subtitle_extensions() -> Seq<Seq<char>> {
    seq!["ass"@, "ssa"@]
}

/// The last run of non-separators starts within the string, before its end
/// when the string does not end in a separator.
pub proof fn lemma_part_start_bounds(s: Seq<char>)
    ensures
        0 <= part_start(s) <= s.len(),
        s.len() > 0 && !is_separator(s.last()) ==> part_start(s) < s.len(),
    decreases s.len(),
{
    if s.len() > 0 {
        lemma_part_start_bounds(s.drop_last());
    }
}

proof fn lemma_part_start(s: Seq<char>, j: int)
    requires
        0 <= j <= s.len(),
        j == 0 || is_separator(s[j - 1]),
        forall|k: int| j <= k < s.len() ==> !is_separator(#[trigger] s[k]),
    ensures
        part_start(s) == j,
    decreases s.len(),
{
    if s.len() > j {
        assert(!is_separator(s[s.len() - 1]));
        lemma_part_start(s.drop_last(), j);
    }
}

/// The range of the last component of `cs[lo..hi]` other than `.`.
fn last_component_range(cs: &[char], lo: usize, hi: usize) -> (r: (usize, usize))
    requires
        lo <= hi <= cs@.len(),
    ensures
        lo <= r.0 <= r.1 <= hi,
        cs@.subrange(r.0 as int, r.1 as int) == last_component(cs@.subrange(lo as int, hi as int)),
{
    let mut end = hi;
    loop
        invariant
            lo <= end <= hi <= cs@.len(),
            last_component(cs@.subrange(lo as int, hi as int)) == last_component(cs@.subrange(lo as int, end as int)),
        decreases end,
    {
        let ghost end0 = end;
        while end > lo && (cs[end - 1] == '/' || cs[end - 1] == '\\')
            invariant
                lo <= end <= end0 <= hi <= cs@.len(),
                last_component(cs@.subrange(lo as int, hi as int)) == last_component(cs@.subrange(lo as int, end as int)),
            decreases end,
        {
            proof {
                assert(cs@.subrange(lo as int, end as int).drop_last() =~= cs@.subrange(lo as int, end - 1));
            }
            end -= 1;
        }
        if end == lo {
            proof {
                assert(cs@.subrange(lo as int, end as int) =~= Seq::<char>::empty());
            }
            return (lo, lo);
        }
        let mut start = end;
        while start > lo && !(cs[start - 1] == '/' || cs[start - 1] == '\\')
            invariant
                lo <= start <= end <= hi <= cs@.len(),
                forall|k: int| start <= k < end ==> !is_separator(#[trigger] cs@[k]),
            decreases start,
        {
            start -= 1;
        }
        let ghost s = cs@.subrange(lo as int, end as int);
        proof {
            lemma_part_start(s, start - lo);
            assert(s.subrange(start - lo, s.len() as int) =~= cs@.subrange(start as int, end as int));
            assert(s.subrange(0, start - lo) =~= cs@.subrange(lo as int, start as int));
        }
        if end - start == 1 && cs[start] == '.' {
            proof {
                assert(cs@.subrange(start as int, end as int) =~= seq!['.']);
            }
            end = start;
        } else {
            proof {
                if cs@.subrange(start as int, end as int) == seq!['.'] {
                    assert(cs@.subrange(start as int, end as int)[0] == cs@[start as int]);
                }
            }
            return (start, end);
        }
    }
}

/// The extension of `path`, lower-cased, or `None`.
fn lower_extension(path: &str) -> (r: Option<Vec<char>>)
    ensures
        match extension_of(path@) {
            Some(e) => r is Some && r->0@ == ascii_lower_seq(e),
            None => r is None,
        },
{
    let cs = chars_of(path);
    let n = cs.len();
    let lo: usize = if n >= 2 && cs[1] == ':' && (('a' <= cs[0] && cs[0] <= 'z') || ('A' <= cs[0] && cs[0] <= 'Z')) {
        2
    } else {
        0
    };
    proof {
        if lo == 2 {
            assert(cs@.subrange(2, n as int) =~= path@.skip(2));
        } else {
            assert(cs@.subrange(0, n as int) =~= path@);
        }
    }
    let (a, b) = last_component_range(cs.as_slice(), lo, n);
    let ghost name = cs@.subrange(a as int, b as int);
    if a == b || (b - a == 2 && cs[a] == '.' && cs[a + 1] == '.') {
        proof {
            if b - a == 2 && cs[a as int] == '.' && cs[a + 1] == '.' {
                assert(name =~= seq!['.', '.']);
            }
        }
        return None;
    }
    proof {
        if name == seq!['.', '.'] {
            assert(name[0] == cs@[a as int]);
            assert(name[1] == cs@[a + 1]);
        }
    }
    // Find the last dot of the name.
    let mut k = b;
    while k > a && cs[k - 1] != '.'
        invariant
            a <= k <= b <= cs@.len(),
            name == cs@.subrange(a as int, b as int),
            last_dot(name) == last_dot(cs@.subrange(a as int, k as int)),
        decreases k,
    {
        proof {
            assert(cs@.subrange(a as int, k as int).drop_last() =~= cs@.subrange(a as int, k - 1));
        }
        k -= 1;
    }
    if k == a {
        proof {
            assert(cs@.subrange(a as int, k as int) =~= Seq::<char>::empty());
        }
        return None;
    }
    // The dot is at `k - 1`.
    proof {
        assert(last_dot(cs@.subrange(a as int, k as int)) == Some(k - 1 - a));
    }
    if k - 1 == a {
        return None;
    }
    let mut ext: Vec<char> = Vec::new();
    let mut i = k;
    while i < b
        invariant
            k <= i <= b <= cs@.len(),
            ext@ == ascii_lower_seq(cs@.subrange(k as int, i as int)),
        decreases b - i,
    {
        ext.push(to_ascii_lower_char(cs[i]));
        proof {
            assert(cs@.subrange(k as int, i + 1) =~= cs@.subrange(k as int, i as int).push(cs@[i as int]));
            assert(ascii_lower_seq(cs@.subrange(k as int, i + 1)) =~= ascii_lower_seq(
                cs@.subrange(k as int, i as int),
            ).push(ascii_lower(cs@[i as int])));
        }
        i += 1;
    }
    proof {
        assert(name.subrange(k - a, name.len() as int) =~= cs@.subrange(k as int, b as int));
    }
    Some(ext)
}

fn is_one_of(ext: &Vec<char>, options: &[&str]) -> (r: bool)
    ensures
        r == options@.map_values(|o: &str| o@).contains(ext@),
{
    let mut i: usize = 0;
    while i < options.len()
        invariant
            i <= options@.len(),
            forall|j: int| 0 <= j < i ==> (#[trigger] options@[j])@ != ext@,
        decreases options.len() - i,
    {
        let o = chars_of(options[i]);
        if crate::text::chars_equal(o.as_slice(), ext.as_slice()) {
            proof {
                assert(options@.map_values(|o: &str| o@)[i as int] == ext@);
            }
            return true;
        }
        i += 1;
    }
    false
}

/// The extension of `path`, ASCII-lower-cased; empty when it has none.
pub fn file_extension_lower(path: &str) -> (r: String)
    ensures
        r@ == match extension_of(path@) {
            Some(e) => ascii_lower_seq(e),
            None => Seq::<char>::empty(),
        },
{
    match lower_extension(path) {
        Some(ext) => crate::text::string_of(ext.as_slice()),
        None => String::new(),
    }
}

/// Is `path` a TrueType or OpenType font, or a font collection, by its
/// extension (`.ttf`, `.otf` or `.ttc`, in any ASCII case)?
pub fn is_supported_font(path: &str) -> (r: bool)
    ensures
        r == has_extension_in(path@, font_extensions()),
{
    match lower_extension(path) {
        Some(ext) => {
            let options = ["ttf", "otf", "ttc"];
            let r = is_one_of(&ext, options.as_slice());
            proof {
                assert(options@.map_values(|o: &str| o@) =~= font_extensions());
            }
            r
        },
        None => false,
    }
}

/// Is `path` an ASS or SSA subtitle by its extension (`.ass` or `.ssa`, in
/// any ASCII case)?
pub fn is_supported_subtitle(path: &str) -> (r: bool)
    ensures
        r == has_extension_in(path@, subtitle_extensions()),
{
    match lower_extension(path) {
        Some(ext) => {
            let options = ["ass", "ssa"];
            let r = is_one_of(&ext, options.as_slice());
            proof {
                assert(options@.map_values(|o: &str| o@) =~= subtitle_extensions());
            }
            r
        },
        None => false,
    }
}

} // verus!
