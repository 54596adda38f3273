//! Line endings for a multi-line edit control, which shows a line break only
//! where it finds `\r\n`.

use std::borrow::Cow;

use vstd::prelude::*;

use crate::text::chars_of;

verus! {

/// A line break at `i` that is not part of a `\r\n` pair.
pub open spec fn bare_at(s: Seq<char>, i: int) -> bool {
    ||| (s[i] == '\n' && (i == 0 || s[i - 1] != '\r'))
    ||| (s[i] == '\r' && (i + 1 >= s.len() || s[i + 1] != '\n'))
}

/// `s` has a `\n` or `\r` that is not part of a `\r\n` pair.
pub open spec fn has_bare_line_break(s: Seq<char>) -> bool {
    exists|i: int| 0 <= i < s.len() && #[trigger] bare_at(s, i)
}

/// `s` with every line break (`\r\n`, a lone `\n` or a lone `\r`) written as `\r\n`.
pub open spec fn crlf_normalized(s: Seq<char>) -> Seq<char>
    decreases s.len(),
{
    if s.len() == 0 {
        seq![]
    } else if s[0] == '\r' {
        if s.len() > 1 && s[1] == '\n' {
            seq!['\r', '\n'] + crlf_normalized(s.skip(2))
        } else {
            seq!['\r', '\n'] + crlf_normalized(s.skip(1))
        }
    } else if s[0] == '\n' {
        seq!['\r', '\n'] + crlf_normalized(s.skip(1))
    } else {
        seq![s[0]] + crlf_normalized(s.skip(1))
    }
}

proof fn lemma_bare_in_suffix(s: Seq<char>, k: int, j: int)
    requires
        1 <= k <= s.len(),
        s[k - 1] != '\r',
        0 <= j < s.len() - k,
        bare_at(s.skip(k), j),
    ensures
        bare_at(s, j + k),
{
    assert(s.skip(k)[j] == s[j + k]);
    if j > 0 {
        assert(s.skip(k)[j - 1] == s[j + k - 1]);
    }
    if j + 1 < s.len() - k {
        assert(s.skip(k)[j + 1] == s[j + k + 1]);
    }
}

proof fn lemma_normalized_start(s: Seq<char>)
    ensures
        crlf_normalized(s).len() == 0 <==> s.len() == 0,
        crlf_normalized(s).len() > 0 ==> crlf_normalized(s)[0] != '\n',
    decreases s.len(),
{
    if s.len() > 0 {
        if s[0] == '\r' && s.len() > 1 && s[1] == '\n' {
            lemma_normalized_start(s.skip(2));
        } else {
            lemma_normalized_start(s.skip(1));
        }
    }
}

/// Text without bare line breaks is already normalized; normalized text has
/// no bare line breaks; so normalizing twice is normalizing once.
pub proof fn lemma_crlf_laws(s: Seq<char>)
    ensures
        !has_bare_line_break(crlf_normalized(s)),
        !has_bare_line_break(s) ==> crlf_normalized(s) == s,
        crlf_normalized(crlf_normalized(s)) == crlf_normalized(s),
    decreases s.len(),
{
    lemma_no_bare_after(s);
    if !has_bare_line_break(s) {
        lemma_fixed_point(s);
    }
    lemma_fixed_point(crlf_normalized(s));
}

proof fn lemma_fixed_point(s: Seq<char>)
    requires
        !has_bare_line_break(s),
    ensures
        crlf_normalized(s) == s,
    decreases s.len(),
{
    if s.len() > 0 {
        if s[0] == '\r' {
            if !(s.len() > 1 && s[1] == '\n') {
                assert(bare_at(s, 0));
            }
            let t = s.skip(2);
            assert forall|j: int| 0 <= j < t.len() implies !bare_at(t, j) by {
                if bare_at(t, j) {
                    lemma_bare_in_suffix(s, 2, j);
                    assert(bare_at(s, j + 2));
                }
            }
            lemma_fixed_point(t);
            assert(seq!['\r', '\n'] + t =~= s);
        } else {
            if s[0] == '\n' {
                assert(bare_at(s, 0));
            }
            let t = s.skip(1);
            assert forall|j: int| 0 <= j < t.len() implies !bare_at(t, j) by {
                if bare_at(t, j) {
                    lemma_bare_in_suffix(s, 1, j);
                    assert(bare_at(s, j + 1));
                }
            }
            lemma_fixed_point(t);
            assert(seq![s[0]] + t =~= s);
        }
    }
}

proof fn lemma_no_bare_after(s: Seq<char>)
    ensures
        !has_bare_line_break(crlf_normalized(s)),
    decreases s.len(),
{
    if s.len() > 0 {
        let rest = if s[0] == '\r' && s.len() > 1 && s[1] == '\n' {
            s.skip(2)
        } else {
            s.skip(1)
        };
        lemma_no_bare_after(rest);
        lemma_normalized_start(rest);
        let t = crlf_normalized(rest);
        let head = if s[0] == '\r' || s[0] == '\n' {
            seq!['\r', '\n']
        } else {
            seq![s[0]]
        };
        let out = crlf_normalized(s);
        assert(out =~= head + t);
        assert forall|i: int| 0 <= i < out.len() implies !bare_at(out, i) by {
            if i >= head.len() {
                let j = i - head.len();
                assert(out[i] == t[j]);
                if j > 0 {
                    assert(out[i - 1] == t[j - 1]);
                }
                if j + 1 < t.len() {
                    assert(out[i + 1] == t[j + 1]);
                }
                if bare_at(out, i) {
                    assert(!bare_at(t, j));
                    assert(j == 0);
                }
            } else if i == 0 && head.len() == 2 {
                assert(out[1] == '\n');
            } else if i == 0 && t.len() > 0 {
                assert(out[1] == t[0]);
            }
        }
    }
}

/// Does `text` hold a line break that an edit control would not show?
pub fn needs_edit_line_ending_normalization(text: &str) -> (r: bool)
    ensures
        r == has_bare_line_break(text@),
{
    let cs = chars_of(text);
    let n = cs.len();
    let mut i: usize = 0;
    while i < n
        invariant
            i <= n == cs@.len(),
            cs@ == text@,
            forall|j: int| 0 <= j < i ==> !#[trigger] bare_at(cs@, j),
        decreases n - i,
    {
        let c = cs[i];
        if c == '\n' && (i == 0 || cs[i - 1] != '\r') {
            proof {
                assert(bare_at(cs@, i as int));
            }
            return true;
        }
        if c == '\r' && (i + 1 >= n || cs[i + 1] != '\n') {
            proof {
                assert(bare_at(cs@, i as int));
            }
            return true;
        }
        i += 1;
    }
    false
}

/// `text` with every line break written as `\r\n`, borrowed unchanged when
/// it has none to rewrite.
pub fn edit_multiline_text(text: &str) -> (r: Cow<'_, str>)
    ensures
        r@ == crlf_normalized(text@),
        (r matches Cow::Borrowed(_)) == !has_bare_line_break(text@),
{
    if !needs_edit_line_ending_normalization(text) {
        proof {
            lemma_crlf_laws(text@);
        }
        return Cow::Borrowed(text);
    }
    let cs = chars_of(text);
    let n = cs.len();
    let mut normalized = String::new();
    let mut i: usize = 0;
    proof {
        assert(cs@.skip(0) =~= cs@);
    }
    while i < n
        invariant
            i <= n == cs@.len(),
            cs@ == text@,
            normalized@ + crlf_normalized(cs@.skip(i as int)) == crlf_normalized(text@),
        decreases n - i,
    {
        let ghost rest = cs@.skip(i as int);
        let c = cs[i];
        proof {
            assert(rest[0] == c);
        }
        if c == '\r' {
            normalized.push('\r');
            normalized.push('\n');
            if i + 1 < n && cs[i + 1] == '\n' {
                proof {
                    assert(rest[1] == cs@[i + 1]);
                    assert(rest.skip(2) =~= cs@.skip(i + 2));
                }
                i += 2;
            } else {
                proof {
                    assert(rest.skip(1) =~= cs@.skip(i + 1));
                }
                i += 1;
            }
        } else if c == '\n' {
            normalized.push('\r');
            normalized.push('\n');
            proof {
                assert(rest.skip(1) =~= cs@.skip(i + 1));
            }
            i += 1;
        } else {
            normalized.push(c);
            proof {
                assert(rest.skip(1) =~= cs@.skip(i + 1));
            }
            i += 1;
        }
        proof {
            assert(normalized@ + crlf_normalized(cs@.skip(i as int)) =~= crlf_normalized(text@));
        }
    }
    proof {
        assert(cs@.skip(n as int) =~= Seq::<char>::empty());
        assert(normalized@ + Seq::<char>::empty() =~= normalized@);
    }
    Cow::Owned(normalized)
}

} // verus!
