//! Character and string helpers shared by the parsers and report builders.
//!
//! Strings are processed as sequences of `char`s: a `str` is turned into a
//! `Vec<char>` once, the logic works on indices into it, and results are
//! turned back into `String`s.

use vstd::prelude::*;

verus! {

/// `String::push` appends one character.
pub assume_specification[ String::push ](s: &mut String, ch: char)
    ensures
        final(s)@ == old(s)@.push(ch),
;

// ---------------------------------------------------------------------------
// Conversions between strings and character vectors
// ---------------------------------------------------------------------------

/// Returns the characters of `s`, in order.
pub fn chars_of(s: &str) -> (v: Vec<char>)
    ensures
        v@ == s@,
{
    let mut v: Vec<char> = Vec::new();
    for c in it: s.chars()
        invariant
            v@ == it.seq().take(it.index() as int),
    {
        v.push(c);
    }
    v
}

/// Builds a `String` from a slice of characters.
pub fn string_of(cs: &[char]) -> (s: String)
    ensures
        s@ == cs@,
{
    string_of_range(cs, 0, cs.len())
}

/// Builds a `String` from the characters `cs[lo..hi]`.
pub fn string_of_range(cs: &[char], lo: usize, hi: usize) -> (s: String)
    requires
        lo <= hi <= cs.len(),
    ensures
        s@ == cs@.subrange(lo as int, hi as int),
{
    let mut s = String::new();
    let mut i: usize = lo;
    while i < hi
        invariant
            lo <= i <= hi <= cs.len(),
            s@ == cs@.subrange(lo as int, i as int),
        decreases hi - i,
    {
        s.push(cs[i]);
        i += 1;
        proof {
            assert(cs@.subrange(lo as int, i as int) =~= cs@.subrange(lo as int, i - 1).push(
                cs@[i - 1],
            ));
        }
    }
    s
}

/// Appends the characters of `tail` to `s`.
pub fn push_chars(s: &mut String, tail: &[char])
    ensures
        final(s)@ == old(s)@ + tail@,
{
    let mut i: usize = 0;
    while i < tail.len()
        invariant
            i <= tail.len(),
            s@ == old(s)@ + tail@.take(i as int),
        decreases tail.len() - i,
    {
        s.push(tail[i]);
        i += 1;
        proof {
            assert(tail@.take(i as int) =~= tail@.take(i - 1).push(tail@[i - 1]));
        }
    }
    proof {
        assert(tail@.take(tail@.len() as int) =~= tail@);
    }
}

/// Appends the characters of `tail` to `s`.
pub fn push_str(s: &mut String, tail: &str)
    ensures
        final(s)@ == old(s)@ + tail@,
{
    let cs = chars_of(tail);
    push_chars(s, cs.as_slice());
}

// ---------------------------------------------------------------------------
// ASCII case
// ---------------------------------------------------------------------------

/// The ASCII lower-case form of `c`; other characters are unchanged.
pub open spec fn ascii_lower(c: char) -> char {
    if 'A' <= c && c <= 'Z' {
        ((c as u32) + 32) as char
    } else {
        c
    }
}

/// The ASCII lower-case form of every character of `s`.
pub open spec fn ascii_lower_seq(s: Seq<char>) -> Seq<char> {
    s.map_values(|c: char| ascii_lower(c))
}

/// Two strings are equal when ASCII letters are compared without case.
pub open spec fn eq_ignore_ascii_case_seq(a: Seq<char>, b: Seq<char>) -> bool {
    ascii_lower_seq(a) == ascii_lower_seq(b)
}

pub fn to_ascii_lower_char(c: char) -> (r: char)
    ensures
        r == ascii_lower(c),
{
    if 'A' <= c && c <= 'Z' {
        let b: u8 = c as u8;
        let lowered: u8 = b + 32;
        proof {
            assert((c as u32) + 32 == lowered as u32);
        }
        lowered as char
    } else {
        c
    }
}

/// Equality ignoring ASCII case is symmetric.
pub proof fn lemma_eq_ci_symmetric(a: Seq<char>, b: Seq<char>)
    ensures
        eq_ignore_ascii_case_seq(a, b) == eq_ignore_ascii_case_seq(b, a),
{
}

/// Compares `a[alo..ahi]` with `b[blo..bhi]` without ASCII case.
pub fn eq_ignore_ascii_case_range(
    a: &[char],
    alo: usize,
    ahi: usize,
    b: &[char],
    blo: usize,
    bhi: usize,
) -> (r: bool)
    requires
        alo <= ahi <= a.len(),
        blo <= bhi <= b.len(),
    ensures
        r == eq_ignore_ascii_case_seq(
            a@.subrange(alo as int, ahi as int),
            b@.subrange(blo as int, bhi as int),
        ),
{
    let ghost sa = a@.subrange(alo as int, ahi as int);
    let ghost sb = b@.subrange(blo as int, bhi as int);
    if ahi - alo != bhi - blo {
        proof {
            assert(ascii_lower_seq(sa).len() != ascii_lower_seq(sb).len());
        }
        return false;
    }
    let n = ahi - alo;
    let mut i: usize = 0;
    while i < n
        invariant
            n == ahi - alo == bhi - blo,
            alo <= ahi <= a.len(),
            blo <= bhi <= b.len(),
            sa == a@.subrange(alo as int, ahi as int),
            sb == b@.subrange(blo as int, bhi as int),
            i <= n,
            forall|k: int| 0 <= k < i ==> ascii_lower(#[trigger] sa[k]) == ascii_lower(sb[k]),
        decreases n - i,
    {
        let ca = to_ascii_lower_char(a[alo + i]);
        let cb = to_ascii_lower_char(b[blo + i]);
        if ca != cb {
            proof {
                assert(ascii_lower_seq(sa)[i as int] != ascii_lower_seq(sb)[i as int]);
            }
            return false;
        }
        i += 1;
    }
    proof {
        assert(ascii_lower_seq(sa) =~= ascii_lower_seq(sb));
    }
    true
}

/// Compares two strings without ASCII case.
pub fn eq_ignore_ascii_case(a: &str, b: &str) -> (r: bool)
    ensures
        r == eq_ignore_ascii_case_seq(a@, b@),
{
    let ca = chars_of(a);
    let cb = chars_of(b);
    let r = eq_ignore_ascii_case_range(ca.as_slice(), 0, ca.len(), cb.as_slice(), 0, cb.len());
    proof {
        assert(ca@.subrange(0, ca@.len() as int) =~= ca@);
        assert(cb@.subrange(0, cb@.len() as int) =~= cb@);
    }
    r
}

/// The ASCII lower-case form of `s[lo..hi]`.
pub fn to_ascii_lowercase_range(s: &[char], lo: usize, hi: usize) -> (r: Vec<char>)
    requires
        lo <= hi <= s.len(),
    ensures
        r@ == ascii_lower_seq(s@.subrange(lo as int, hi as int)),
{
    let ghost sub = s@.subrange(lo as int, hi as int);
    let mut r: Vec<char> = Vec::new();
    let mut i: usize = lo;
    while i < hi
        invariant
            lo <= i <= hi <= s.len(),
            sub == s@.subrange(lo as int, hi as int),
            r@ == ascii_lower_seq(sub).take(i - lo),
        decreases hi - i,
    {
        let c = to_ascii_lower_char(s[i]);
        r.push(c);
        i += 1;
        proof {
            assert(ascii_lower_seq(sub).take(i - lo) =~= ascii_lower_seq(sub).take(i - 1 - lo).push(
                c,
            ));
        }
    }
    proof {
        assert(ascii_lower_seq(sub).take(hi - lo) =~= ascii_lower_seq(sub));
    }
    r
}

// ---------------------------------------------------------------------------
// Unicode white space and trimming
// ---------------------------------------------------------------------------

/// The characters with the Unicode `White_Space` property, which is what
/// `char::is_whitespace` tests.
pub open spec fn is_white_space(c: char) -> bool {
    let v = c as u32;
    ||| 0x09 <= v <= 0x0D
    ||| v == 0x20
    ||| v == 0x85
    ||| v == 0xA0
    ||| v == 0x1680
    ||| 0x2000 <= v <= 0x200A
    ||| v == 0x2028
    ||| v == 0x2029
    ||| v == 0x202F
    ||| v == 0x205F
    ||| v == 0x3000
}

pub fn is_whitespace(c: char) -> (r: bool)
    ensures
        r == is_white_space(c),
{
    let v = c as u32;
    (0x09 <= v && v <= 0x0D) || v == 0x20 || v == 0x85 || v == 0xA0 || v == 0x1680 || (0x2000
        <= v && v <= 0x200A) || v == 0x2028 || v == 0x2029 || v == 0x202F || v == 0x205F || v
        == 0x3000
}

/// `s` without its leading white space.
pub open spec fn trim_start_seq(s: Seq<char>) -> Seq<char>
    decreases s.len(),
{
    if s.len() > 0 && is_white_space(s[0]) {
        trim_start_seq(s.drop_first())
    } else {
        s
    }
}

/// `s` without its trailing white space.
pub open spec fn trim_end_seq(s: Seq<char>) -> Seq<char>
    decreases s.len(),
{
    if s.len() > 0 && is_white_space(s.last()) {
        trim_end_seq(s.drop_last())
    } else {
        s
    }
}

/// `s` without leading and trailing white space, as `str::trim` gives it.
pub open spec fn trim_seq(s: Seq<char>) -> Seq<char> {
    trim_end_seq(trim_start_seq(s))
}

proof fn lemma_trim_start_last_white(s: Seq<char>)
    requires
        s.len() > 0,
        is_white_space(s.last()),
    ensures
        trim_start_seq(s) == trim_start_seq(s.drop_last()).push(s.last()) || (trim_start_seq(s).len()
            == 0 && trim_start_seq(s.drop_last()).len() == 0),
    decreases s.len(),
{
    if s.len() == 1 {
        assert(s[0] == s.last());
        assert(s.drop_first() =~= Seq::<char>::empty());
        assert(trim_start_seq(s.drop_first()) == s.drop_first());
        assert(trim_start_seq(s) == trim_start_seq(s.drop_first()));
        assert(s.drop_last() =~= Seq::<char>::empty());
        assert(trim_start_seq(s.drop_last()) == s.drop_last());
    } else if is_white_space(s[0]) {
        assert(s.drop_first().last() == s.last());
        assert(s.drop_last().drop_first() =~= s.drop_first().drop_last());
        assert(s.drop_last()[0] == s[0]);
        assert(trim_start_seq(s) == trim_start_seq(s.drop_first()));
        assert(trim_start_seq(s.drop_last()) == trim_start_seq(s.drop_last().drop_first()));
        lemma_trim_start_last_white(s.drop_first());
    } else {
        assert(s.drop_last()[0] == s[0]);
        assert(trim_start_seq(s) == s);
        assert(trim_start_seq(s.drop_last()) == s.drop_last());
        assert(s.drop_last().push(s.last()) =~= s);
    }
}

/// Trimming ignores one more white-space character at the end.
pub proof fn lemma_trim_drop_last_white(s: Seq<char>)
    requires
        s.len() > 0,
        is_white_space(s.last()),
    ensures
        trim_seq(s.drop_last()) == trim_seq(s),
{
    lemma_trim_start_last_white(s);
    let t = trim_start_seq(s.drop_last());
    if trim_start_seq(s) == t.push(s.last()) {
        assert(t.push(s.last()).drop_last() =~= t);
    } else {
        assert(trim_start_seq(s) =~= t);
    }
}

/// The 16-bit units of `bytes`, big- or little-endian; an odd last byte is
/// left out.
pub open spec fn utf16_units(bytes: Seq<u8>, big_endian: bool) -> Seq<u16> {
    Seq::new(
        bytes.len() / 2,
        |i: int|
            if big_endian {
                (bytes[2 * i] as int * 256 + bytes[2 * i + 1] as int) as u16
            } else {
                (bytes[2 * i + 1] as int * 256 + bytes[2 * i] as int) as u16
            },
    )
}

/// UTF-16 decoding as `char::decode_utf16` does it: a unit outside the
/// surrogate range is that character, a high surrogate followed by a low one
/// is the character the pair encodes, and any other surrogate is an error,
/// which the text shows as U+FFFD (the next unit is read afresh). The flag
/// tells whether there was an error.
pub open spec fn utf16_decode(units: Seq<u16>) -> (Seq<char>, bool)
    decreases units.len(),
{
    if units.len() == 0 {
        (seq![], false)
    } else {
        let u = units[0] as int;
        if u < 0xD800 || 0xE000 <= u {
            let r = utf16_decode(units.drop_first());
            (seq![u as char] + r.0, r.1)
        } else if u < 0xDC00 && units.len() >= 2 && 0xDC00 <= units[1] && units[1] < 0xE000 {
            let r = utf16_decode(units.subrange(2, units.len() as int));
            (seq![(0x10000 + (u - 0xD800) * 0x400 + (units[1] - 0xDC00)) as char] + r.0, r.1)
        } else {
            let r = utf16_decode(units.drop_first());
            (seq!['\u{FFFD}'] + r.0, true)
        }
    }
}

/// A string is trimmed when it neither starts nor ends with white space.
pub open spec fn is_trimmed(s: Seq<char>) -> bool {
    s.len() > 0 ==> !is_white_space(s[0]) && !is_white_space(s.last())
}

proof fn lemma_trim_start_shape(s: Seq<char>)
    ensures
        exists|k: int|
            0 <= k <= s.len() && trim_start_seq(s) == s.subrange(k, s.len() as int) && (forall|
                j: int,
            | 0 <= j < k ==> is_white_space(#[trigger] s[j])),
        trim_start_seq(s).len() > 0 ==> !is_white_space(trim_start_seq(s)[0]),
    decreases s.len(),
{
    if s.len() > 0 && is_white_space(s[0]) {
        lemma_trim_start_shape(s.drop_first());
        let k = choose|k: int|
            0 <= k <= s.drop_first().len() && trim_start_seq(s.drop_first())
                == s.drop_first().subrange(k, s.drop_first().len() as int) && (forall|j: int|
                0 <= j < k ==> is_white_space(#[trigger] s.drop_first()[j]));
        assert(s.drop_first().subrange(k, s.drop_first().len() as int) =~= s.subrange(
            k + 1,
            s.len() as int,
        ));
        assert forall|j: int| 0 <= j < k + 1 implies is_white_space(#[trigger] s[j]) by {
            if j > 0 {
                assert(s[j] == s.drop_first()[j - 1]);
            }
        }
    } else {
        assert(s.subrange(0, s.len() as int) =~= s);
    }
}

proof fn lemma_trim_end_shape(s: Seq<char>)
    ensures
        exists|k: int|
            0 <= k <= s.len() && trim_end_seq(s) == s.subrange(0, k) && (forall|j: int|
                k <= j < s.len() ==> is_white_space(#[trigger] s[j])),
        trim_end_seq(s).len() > 0 ==> !is_white_space(trim_end_seq(s).last()),
    decreases s.len(),
{
    if s.len() > 0 && is_white_space(s.last()) {
        lemma_trim_end_shape(s.drop_last());
        let k = choose|k: int|
            0 <= k <= s.drop_last().len() && trim_end_seq(s.drop_last()) == s.drop_last().subrange(
                0,
                k,
            ) && (forall|j: int|
                k <= j < s.drop_last().len() ==> is_white_space(#[trigger] s.drop_last()[j]));
        assert(s.drop_last().subrange(0, k) =~= s.subrange(0, k));
        assert forall|j: int| k <= j < s.len() implies is_white_space(#[trigger] s[j]) by {
            if j < s.len() - 1 {
                assert(s[j] == s.drop_last()[j]);
            }
        }
    } else {
        assert(s.subrange(0, s.len() as int) =~= s);
    }
}

/// The result of trimming has no white space at either end.
pub proof fn lemma_trim_is_trimmed(s: Seq<char>)
    ensures
        is_trimmed(trim_seq(s)),
        trim_seq(trim_seq(s)) == trim_seq(s),
{
    let t = trim_start_seq(s);
    lemma_trim_start_shape(s);
    lemma_trim_end_shape(t);
    let k = choose|k: int|
        0 <= k <= t.len() && trim_end_seq(t) == t.subrange(0, k) && (forall|j: int|
            k <= j < t.len() ==> is_white_space(#[trigger] t[j]));
    if trim_seq(s).len() > 0 {
        assert(trim_seq(s)[0] == t[0]);
    }
    lemma_trim_of_trimmed(trim_seq(s));
}

/// Trimming a trimmed string changes nothing.
pub proof fn lemma_trim_of_trimmed(s: Seq<char>)
    requires
        is_trimmed(s),
    ensures
        trim_start_seq(s) == s,
        trim_end_seq(s) == s,
        trim_seq(s) == s,
{
}

/// Finds the bounds of `trim_seq(s[lo..hi])`.
pub fn trim_range(s: &[char], lo: usize, hi: usize) -> (r: (usize, usize))
    requires
        lo <= hi <= s.len(),
    ensures
        lo <= r.0 <= r.1 <= hi,
        s@.subrange(r.0 as int, r.1 as int) == trim_seq(s@.subrange(lo as int, hi as int)),
{
    let a = trim_start_range(s, lo, hi);
    let b = trim_end_range(s, a, hi);
    proof {
        assert(trim_seq(s@.subrange(lo as int, hi as int)) == trim_end_seq(
            s@.subrange(a as int, hi as int),
        ));
    }
    (a, b)
}

/// Finds where `trim_start_seq(s[lo..hi])` begins.
pub fn trim_start_range(s: &[char], lo: usize, hi: usize) -> (r: usize)
    requires
        lo <= hi <= s.len(),
    ensures
        lo <= r <= hi,
        s@.subrange(r as int, hi as int) == trim_start_seq(s@.subrange(lo as int, hi as int)),
{
    let mut i = lo;
    while i < hi && is_whitespace(s[i])
        invariant
            lo <= i <= hi <= s.len(),
            trim_start_seq(s@.subrange(lo as int, hi as int)) == trim_start_seq(
                s@.subrange(i as int, hi as int),
            ),
        decreases hi - i,
    {
        proof {
            assert(s@.subrange(i as int, hi as int).drop_first() =~= s@.subrange(
                i + 1,
                hi as int,
            ));
        }
        i += 1;
    }
    i
}

/// Finds where `trim_end_seq(s[lo..hi])` ends.
pub fn trim_end_range(s: &[char], lo: usize, hi: usize) -> (r: usize)
    requires
        lo <= hi <= s.len(),
    ensures
        lo <= r <= hi,
        s@.subrange(lo as int, r as int) == trim_end_seq(s@.subrange(lo as int, hi as int)),
{
    let mut j = hi;
    while j > lo && is_whitespace(s[j - 1])
        invariant
            lo <= j <= hi <= s.len(),
            trim_end_seq(s@.subrange(lo as int, hi as int)) == trim_end_seq(
                s@.subrange(lo as int, j as int),
            ),
        decreases j - lo,
    {
        proof {
            assert(s@.subrange(lo as int, j as int).drop_last() =~= s@.subrange(
                lo as int,
                j - 1,
            ));
        }
        j -= 1;
    }
    j
}

/// `str::trim` as a `String`.
pub fn trim_string(s: &str) -> (r: String)
    ensures
        r@ == trim_seq(s@),
{
    let cs = chars_of(s);
    let (a, b) = trim_range(cs.as_slice(), 0, cs.len());
    proof {
        assert(cs@.subrange(0, cs@.len() as int) =~= cs@);
    }
    string_of_range(cs.as_slice(), a, b)
}


// ---------------------------------------------------------------------------
// Unicode case and control characters
// ---------------------------------------------------------------------------

/// What `str::to_lowercase` gives for `s` (full Unicode lower-casing, which
/// nothing here spells out).
pub uninterp spec fn lowercase_of(s: Seq<char>) -> Seq<char>;

/// `str::to_lowercase`.
#[verifier::external_body]
pub(crate) fn unicode_lowercase(s: &str) -> (r: String)
    ensures
        r@ == lowercase_of(s@),
{
    s.to_lowercase()
}

/// The control characters (general category `Cc`), which is what
/// `char::is_control` tests.
pub open spec fn is_control_char(c: char) -> bool {
    let v = c as u32;
    v <= 0x1F || (0x7F <= v && v <= 0x9F)
}

pub fn is_control(c: char) -> (r: bool)
    ensures
        r == is_control_char(c),
{
    let v = c as u32;
    v <= 0x1F || (0x7F <= v && v <= 0x9F)
}

// ---------------------------------------------------------------------------
// Searching
// ---------------------------------------------------------------------------

/// The position of the first `c` in `s`, if any.
pub open spec fn find_char(s: Seq<char>, c: char) -> Option<int>
    decreases s.len(),
{
    if s.len() == 0 {
        None
    } else if s[0] == c {
        Some(0)
    } else {
        match find_char(s.drop_first(), c) {
            Some(i) => Some(i + 1),
            None => None,
        }
    }
}

/// `find_char` is the first occurrence.
pub proof fn lemma_find_char(s: Seq<char>, c: char)
    ensures
        match find_char(s, c) {
            Some(i) => 0 <= i < s.len() && s[i] == c && forall|j: int| 0 <= j < i ==> s[j] != c,
            None => forall|j: int| 0 <= j < s.len() ==> s[j] != c,
        },
    decreases s.len(),
{
    if s.len() > 0 && s[0] != c {
        lemma_find_char(s.drop_first(), c);
        assert forall|j: int| 0 < j < s.len() implies s[j] == s.drop_first()[j - 1] by {}
    }
}

/// A position is `find_char` exactly when it is the first occurrence.
pub proof fn lemma_find_char_at(s: Seq<char>, c: char, i: int)
    requires
        0 <= i < s.len(),
        s[i] == c,
        forall|j: int| 0 <= j < i ==> s[j] != c,
    ensures
        find_char(s, c) == Some(i),
{
    lemma_find_char(s, c);
    match find_char(s, c) {
        Some(k) => {
            if k < i {
                assert(s[k] != c);
            }
            if k > i {
                assert(s[i] != c);
            }
        },
        None => {
            assert(s[i] != c);
        },
    }
}

/// A string without `c` has no `find_char`.
pub proof fn lemma_find_char_none(s: Seq<char>, c: char)
    requires
        forall|j: int| 0 <= j < s.len() ==> s[j] != c,
    ensures
        find_char(s, c) is None,
{
    lemma_find_char(s, c);
    if let Some(k) = find_char(s, c) {
        assert(s[k] != c);
    }
}

/// Finds the first `c` in `s[lo..hi]`; the index is absolute.
pub fn find_char_in(s: &[char], lo: usize, hi: usize, c: char) -> (r: Option<usize>)
    requires
        lo <= hi <= s.len(),
    ensures
        match r {
            Some(i) => lo <= i < hi && find_char(s@.subrange(lo as int, hi as int), c) == Some(
                i - lo,
            ),
            None => find_char(s@.subrange(lo as int, hi as int), c) is None,
        },
{
    let ghost sub = s@.subrange(lo as int, hi as int);
    let mut i = lo;
    while i < hi
        invariant
            lo <= i <= hi <= s.len(),
            sub == s@.subrange(lo as int, hi as int),
            forall|j: int| 0 <= j < i - lo ==> sub[j] != c,
        decreases hi - i,
    {
        if s[i] == c {
            proof {
                lemma_find_char_at(sub, c, i - lo);
            }
            return Some(i);
        }
        i += 1;
    }
    proof {
        lemma_find_char_none(sub, c);
    }
    None
}

// ---------------------------------------------------------------------------
// Lexicographic order
// ---------------------------------------------------------------------------

/// Lexicographic order on sequences of integers; a proper prefix comes first.
pub open spec fn lex_lt(a: Seq<int>, b: Seq<int>) -> bool
    decreases a.len(),
{
    if a.len() == 0 {
        b.len() > 0
    } else if b.len() == 0 {
        false
    } else if a[0] != b[0] {
        a[0] < b[0]
    } else {
        lex_lt(a.drop_first(), b.drop_first())
    }
}

pub proof fn lemma_lex_irreflexive(a: Seq<int>)
    ensures
        !lex_lt(a, a),
    decreases a.len(),
{
    if a.len() > 0 {
        lemma_lex_irreflexive(a.drop_first());
    }
}

pub proof fn lemma_lex_asymmetric(a: Seq<int>, b: Seq<int>)
    ensures
        !(lex_lt(a, b) && lex_lt(b, a)),
    decreases a.len(),
{
    if a.len() > 0 && b.len() > 0 && a[0] == b[0] {
        lemma_lex_asymmetric(a.drop_first(), b.drop_first());
    }
}

pub proof fn lemma_lex_transitive(a: Seq<int>, b: Seq<int>, c: Seq<int>)
    requires
        lex_lt(a, b),
        lex_lt(b, c),
    ensures
        lex_lt(a, c),
    decreases a.len(),
{
    if a.len() > 0 && b.len() > 0 && c.len() > 0 && a[0] == b[0] && b[0] == c[0] {
        lemma_lex_transitive(a.drop_first(), b.drop_first(), c.drop_first());
    }
}

pub proof fn lemma_lex_total(a: Seq<int>, b: Seq<int>)
    ensures
        lex_lt(a, b) || lex_lt(b, a) || a == b,
    decreases a.len(),
{
    if a.len() > 0 && b.len() > 0 && a[0] == b[0] {
        lemma_lex_total(a.drop_first(), b.drop_first());
        if a.drop_first() == b.drop_first() {
            assert(a =~= seq![a[0]] + a.drop_first());
            assert(b =~= seq![b[0]] + b.drop_first());
        }
    } else if a.len() == 0 && b.len() == 0 {
        assert(a =~= b);
    }
}

/// The code points of a string, the order `String`'s `Ord` follows (UTF-8
/// byte order and code point order agree).
pub open spec fn code_points(s: Seq<char>) -> Seq<int> {
    s.map_values(|c: char| c as int)
}

/// `a < b` for `String`s.
pub open spec fn str_lt(a: Seq<char>, b: Seq<char>) -> bool {
    lex_lt(code_points(a), code_points(b))
}

pub proof fn lemma_code_points_injective(a: Seq<char>, b: Seq<char>)
    requires
        code_points(a) == code_points(b),
    ensures
        a == b,
{
    assert(a.len() == code_points(a).len());
    assert(b.len() == code_points(b).len());
    assert forall|i: int| 0 <= i < a.len() implies a[i] == b[i] by {
        assert(code_points(a)[i] == code_points(b)[i]);
        assert(a.map_values(|c: char| c as int)[i] == a[i] as int);
        assert(b.map_values(|c: char| c as int)[i] == b[i] as int);
    }
    assert(a =~= b);
}

/// Decides `lex_lt` on two integer sequences given position by position.
pub proof fn lemma_lex_step(a: Seq<int>, b: Seq<int>, i: int)
    requires
        0 <= i <= a.len(),
        i <= b.len(),
        forall|j: int| 0 <= j < i ==> a[j] == b[j],
    ensures
        lex_lt(a, b) == lex_lt(a.skip(i), b.skip(i)),
    decreases i,
{
    if i > 0 {
        lemma_lex_step(a.drop_first(), b.drop_first(), i - 1);
        assert(a.drop_first().skip(i - 1) =~= a.skip(i));
        assert(b.drop_first().skip(i - 1) =~= b.skip(i));
    } else {
        assert(a.skip(0) =~= a);
        assert(b.skip(0) =~= b);
    }
}

/// `a < b` for strings given as character slices.
pub fn str_less(a: &[char], b: &[char]) -> (r: bool)
    ensures
        r == str_lt(a@, b@),
{
    let ghost ca = code_points(a@);
    let ghost cb = code_points(b@);
    let mut i: usize = 0;
    while i < a.len() && i < b.len() && a[i] == b[i]
        invariant
            i <= a.len(),
            i <= b.len(),
            ca == code_points(a@),
            cb == code_points(b@),
            forall|j: int| 0 <= j < i ==> ca[j] == cb[j],
        decreases a.len() - i,
    {
        proof {
            assert(ca[i as int] == cb[i as int]);
        }
        i += 1;
    }
    proof {
        lemma_lex_step(ca, cb, i as int);
    }
    if i == a.len() {
        i < b.len()
    } else if i == b.len() {
        false
    } else {
        proof {
            assert(ca.skip(i as int)[0] == ca[i as int]);
            assert(cb.skip(i as int)[0] == cb[i as int]);
            assert(a@.map_values(|c: char| c as int)[i as int] == a@[i as int] as int);
            assert(b@.map_values(|c: char| c as int)[i as int] == b@[i as int] as int);
        }
        a[i] < b[i]
    }
}


/// The characters `cs[lo..hi]` as a vector.
pub fn copy_range(cs: &[char], lo: usize, hi: usize) -> (r: Vec<char>)
    requires
        lo <= hi <= cs.len(),
    ensures
        r@ == cs@.subrange(lo as int, hi as int),
{
    let mut r: Vec<char> = Vec::new();
    let mut i = lo;
    while i < hi
        invariant
            lo <= i <= hi <= cs.len(),
            r@ == cs@.subrange(lo as int, i as int),
        decreases hi - i,
    {
        r.push(cs[i]);
        i += 1;
        proof {
            assert(cs@.subrange(lo as int, i as int) =~= cs@.subrange(lo as int, i - 1).push(
                cs@[i - 1],
            ));
        }
    }
    r
}


/// Are `a` and `b` the same characters?
pub fn chars_equal(a: &[char], b: &[char]) -> (r: bool)
    ensures
        r == (a@ == b@),
{
    if a.len() != b.len() {
        return false;
    }
    let mut i: usize = 0;
    while i < a.len()
        invariant
            i <= a.len() == b.len(),
            forall|j: int| 0 <= j < i ==> a@[j] == b@[j],
        decreases a.len() - i,
    {
        if a[i] != b[i] {
            return false;
        }
        i += 1;
    }
    proof {
        assert(a@ =~= b@);
    }
    true
}

// ---------------------------------------------------------------------------
// Path order
// ---------------------------------------------------------------------------

/// Path separators (`/` and `\`, as on Windows).
pub open spec fn is_separator(c: char) -> bool {
    c == '/' || c == '\\'
}

/// Adds one component to a normalized path: empty components (from
/// repeated or trailing separators) and `.` components other than the first
/// are left out, and components are joined by single separators.
pub open spec fn emit_component(out: Seq<char>, comp: Seq<char>) -> Seq<char> {
    if comp.len() == 0 || (comp == seq!['.'] && out.len() > 0) {
        out
    } else if out.len() == 0 || out == seq!['/'] {
        out + comp
    } else {
        out + seq!['/'] + comp
    }
}

/// Reading a path from the left: the normalized text of the components
/// completed so far (a leading separator becomes a root `/`), and the
/// component being read.
pub open spec fn path_scan(s: Seq<char>) -> (Seq<char>, Seq<char>)
    decreases s.len(),
{
    if s.len() == 0 {
        (seq![], seq![])
    } else {
        let (out, cur) = path_scan(s.drop_last());
        let c = s.last();
        if is_separator(c) {
            if s.len() == 1 {
                (seq!['/'], seq![])
            } else {
                (emit_component(out, cur), seq![])
            }
        } else {
            (out, cur.push(c))
        }
    }
}

/// A path as its components, as `Path::components` gives them: a root when
/// it starts with a separator, then the components joined by single `/`,
/// without empty components or `.` components after the first.
pub open spec fn normalized_path(s: Seq<char>) -> Seq<char> {
    emit_component(path_scan(s).0, path_scan(s).1)
}

/// A path's sort keys: its normalized text with separators below every
/// other character, so that comparing keys compares components one by one.
pub open spec fn path_keys(s: Seq<char>) -> Seq<int> {
    normalized_path(s).map_values(|c: char| if is_separator(c) { 0 } else { c as int + 1 })
}

/// The order of paths, which compares their components one by one; drive
/// and network-share prefixes are compared as text.
pub open spec fn path_lt(a: Seq<char>, b: Seq<char>) -> bool {
    lex_lt(path_keys(a), path_keys(b))
}

/// Two paths name the same components.
pub open spec fn path_eq(a: Seq<char>, b: Seq<char>) -> bool {
    path_keys(a) == path_keys(b)
}

fn emit_component_exec(out: &mut Vec<char>, comp: &Vec<char>)
    ensures
        final(out)@ == emit_component(old(out)@, comp@),
{
    if comp.len() == 0 || (comp.len() == 1 && comp[0] == '.' && out.len() > 0) {
        proof {
            if comp.len() == 1 && comp[0] == '.' {
                assert(comp@ =~= seq!['.']);
            }
        }
        return;
    }
    proof {
        if comp@ == seq!['.'] {
            assert(comp@.len() == 1 && comp@[0] == '.');
        }
    }
    let ghost start = out@;
    let root_only = out.len() == 1 && out[0] == '/';
    proof {
        if out@ == seq!['/'] {
            assert(root_only);
        }
        if root_only {
            assert(out@ =~= seq!['/']);
        }
    }
    if out.len() > 0 && !root_only {
        out.push('/');
    }
    let ghost mid = out@;
    let mut i: usize = 0;
    while i < comp.len()
        invariant
            i <= comp.len(),
            out@ == mid + comp@.take(i as int),
        decreases comp.len() - i,
    {
        out.push(comp[i]);
        proof {
            assert(comp@.take(i + 1) =~= comp@.take(i as int).push(comp@[i as int]));
        }
        i += 1;
    }
    proof {
        assert(comp@.take(comp@.len() as int) =~= comp@);
        if start.len() == 0 || start == seq!['/'] {
            assert(mid == start);
        } else {
            assert(mid == start + seq!['/']);
        }
        assert(out@ =~= emit_component(start, comp@));
    }
}

/// The normalized text of a path (see `normalized_path`).
pub fn normalize_path(a: &[char]) -> (r: Vec<char>)
    ensures
        r@ == normalized_path(a@),
{
    let mut out: Vec<char> = Vec::new();
    let mut cur: Vec<char> = Vec::new();
    let mut i: usize = 0;
    proof {
        assert(a@.take(0) =~= Seq::<char>::empty());
    }
    while i < a.len()
        invariant
            i <= a.len(),
            (out@, cur@) == path_scan(a@.take(i as int)),
        decreases a.len() - i,
    {
        let c = a[i];
        proof {
            assert(a@.take(i + 1).drop_last() =~= a@.take(i as int));
            assert(a@.take(i + 1).last() == c);
        }
        if c == '/' || c == '\\' {
            if i == 0 {
                out.push('/');
                proof {
                    assert(out@ =~= seq!['/']);
                    assert(cur@ =~= Seq::<char>::empty());
                }
            } else {
                emit_component_exec(&mut out, &cur);
                cur = Vec::new();
                proof {
                    assert(cur@ =~= Seq::<char>::empty());
                }
            }
        } else {
            cur.push(c);
        }
        i += 1;
    }
    proof {
        assert(a@.take(a@.len() as int) =~= a@);
    }
    emit_component_exec(&mut out, &cur);
    out
}

/// `a < b` for paths given as character slices.
pub fn path_less(a: &[char], b: &[char]) -> (r: bool)
    ensures
        r == path_lt(a@, b@),
{
    let na = normalize_path(a);
    let nb = normalize_path(b);
    let ghost ka = path_keys(a@);
    let ghost kb = path_keys(b@);
    let mut i: usize = 0;
    while i < na.len() && i < nb.len() && path_key(na[i]) == path_key(nb[i])
        invariant
            i <= na.len(),
            i <= nb.len(),
            ka == path_keys(a@),
            kb == path_keys(b@),
            na@ == normalized_path(a@),
            nb@ == normalized_path(b@),
            forall|j: int| 0 <= j < i ==> ka[j] == kb[j],
        decreases na.len() - i,
    {
        i += 1;
    }
    proof {
        lemma_lex_step(ka, kb, i as int);
    }
    if i == na.len() {
        i < nb.len()
    } else if i == nb.len() {
        false
    } else {
        proof {
            assert(ka.skip(i as int)[0] == ka[i as int]);
            assert(kb.skip(i as int)[0] == kb[i as int]);
        }
        path_key(na[i]) < path_key(nb[i])
    }
}

/// Do two paths name the same components?
pub fn path_equal(a: &[char], b: &[char]) -> (r: bool)
    ensures
        r == path_eq(a@, b@),
{
    let na = normalize_path(a);
    let nb = normalize_path(b);
    if na.len() != nb.len() {
        proof {
            assert(path_keys(a@).len() != path_keys(b@).len());
        }
        return false;
    }
    let mut i: usize = 0;
    while i < na.len()
        invariant
            i <= na.len() == nb.len(),
            na@ == normalized_path(a@),
            nb@ == normalized_path(b@),
            forall|j: int| 0 <= j < i ==> path_keys(a@)[j] == path_keys(b@)[j],
        decreases na.len() - i,
    {
        if path_key(na[i]) != path_key(nb[i]) {
            proof {
                assert(path_keys(a@)[i as int] != path_keys(b@)[i as int]);
            }
            return false;
        }
        i += 1;
    }
    proof {
        assert(path_keys(a@) =~= path_keys(b@));
    }
    true
}

fn path_key(c: char) -> (r: u64)
    ensures
        r as int == (if is_separator(c) { 0 } else { c as int + 1 }),
{
    if c == '/' || c == '\\' {
        0
    } else {
        (c as u32) as u64 + 1
    }
}

// ---------------------------------------------------------------------------
// Decimal numbers
// ---------------------------------------------------------------------------

/// The decimal digit for `d < 10`.
pub open spec fn digit_char(d: nat) -> char {
    (('0' as nat) + d) as char
}

/// The decimal representation of `n`, as `Display` writes it.
pub open spec fn decimal(n: nat) -> Seq<char>
    decreases n,
{
    if n < 10 {
        seq![digit_char(n)]
    } else {
        decimal(n / 10).push(digit_char(n % 10))
    }
}

/// The decimal representation of a signed integer.
pub open spec fn signed_decimal(n: int) -> Seq<char> {
    if n < 0 {
        seq!['-'] + decimal((-n) as nat)
    } else {
        decimal(n as nat)
    }
}

fn digit(d: u64) -> (c: char)
    requires
        d < 10,
    ensures
        c == digit_char(d as nat),
{
    let b: u8 = 48u8 + (d as u8);
    proof {
        assert(('0' as nat) + d == b as nat);
    }
    b as char
}

/// The decimal text of `n`.
pub fn decimal_chars(n: u64) -> (r: Vec<char>)
    ensures
        r@ == decimal(n as nat),
    decreases n,
{
    if n < 10 {
        let mut r: Vec<char> = Vec::new();
        r.push(digit(n));
        proof {
            assert(r@ =~= seq![digit_char(n as nat)]);
        }
        r
    } else {
        let mut r = decimal_chars(n / 10);
        r.push(digit(n % 10));
        r
    }
}

/// Appends the decimal text of `n` to `s`.
pub fn push_decimal(s: &mut String, n: u64)
    ensures
        final(s)@ == old(s)@ + decimal(n as nat),
{
    let d = decimal_chars(n);
    push_chars(s, d.as_slice());
}

/// Appends the decimal text of a signed `n` to `s`.
pub fn push_signed_decimal(s: &mut String, n: i64)
    ensures
        final(s)@ == old(s)@ + signed_decimal(n as int),
{
    if n < 0 {
        s.push('-');
        let m: u64 = if n == i64::MIN {
            9223372036854775808u64
        } else {
            (-n) as u64
        };
        let d = decimal_chars(m);
        push_chars(s, d.as_slice());
        proof {
            assert(old(s)@.push('-') + decimal(m as nat) =~= old(s)@ + (seq!['-'] + decimal(
                m as nat,
            )));
        }
    } else {
        push_decimal(s, n as u64);
    }
}

} // verus!
