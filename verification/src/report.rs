//! The machine-readable report of a load: a JSON object with the input, the
//! fonts found, and what loading each of them did.

use vstd::prelude::*;

use crate::session::{FailedFont, LoadSummary, LoadedFont};
use crate::text::{
    chars_of, decimal, is_control, is_control_char, push_decimal, push_signed_decimal, push_str,
    signed_decimal,
};

verus! {

/// What the report tells of one load.
pub struct LoadReport<'a> {
    pub input: &'a str,
    pub source: &'a str,
    pub scan_root: &'a str,
    pub extracted_to: Option<&'a str>,
    pub recursive: bool,
    pub discovered: &'a [String],
    pub load: &'a LoadSummary,
}

// ---------------------------------------------------------------------------
// Resource counts
// ---------------------------------------------------------------------------

/// The sum of the resource counts of `fonts`.
pub open spec fn resource_sum(fonts: Seq<LoadedFont>) -> int
    decreases fonts.len(),
{
    if fonts.len() == 0 {
        0
    } else {
        resource_sum(fonts.drop_last()) + fonts.last().resource_count
    }
}

/// Every running total of the resource counts fits in an `i32`.
pub open spec fn resource_sums_fit(fonts: Seq<LoadedFont>) -> bool {
    forall|k: int| 0 <= k <= fonts.len() ==> i32::MIN <= #[trigger] resource_sum(fonts.take(k)) <= i32::MAX
}

/// The number of font resources that a load added.
pub fn loaded_resource_count(summary: &LoadSummary) -> (r: i32)
    requires
        resource_sums_fit(summary.loaded@),
    ensures
        r == resource_sum(summary.loaded@),
{
    let fonts = &summary.loaded;
    let mut total: i32 = 0;
    let mut i: usize = 0;
    proof {
        assert(fonts@.take(0) =~= Seq::<LoadedFont>::empty());
    }
    while i < fonts.len()
        invariant
            i <= fonts@.len(),
            resource_sums_fit(fonts@),
            total == resource_sum(fonts@.take(i as int)),
        decreases fonts.len() - i,
    {
        proof {
            assert(fonts@.take(i + 1).drop_last() =~= fonts@.take(i as int));
            assert(fonts@.take(i + 1).last() == fonts@[i as int]);
            assert(i32::MIN <= resource_sum(fonts@.take(i + 1)) <= i32::MAX);
        }
        total = total + fonts[i].resource_count;
        i += 1;
    }
    proof {
        assert(fonts@.take(fonts@.len() as int) =~= fonts@);
    }
    total
}

// ---------------------------------------------------------------------------
// JSON strings
// ---------------------------------------------------------------------------

/// The lower-case hexadecimal digit for `d < 16`.
pub open spec fn hex_digit(d: nat) -> char {
    if d < 10 {
        (('0' as nat) + d) as char
    } else {
        (('a' as nat) + (d - 10)) as char
    }
}

/// `n < 0x10000` as four lower-case hexadecimal digits.
pub open spec fn hex4(n: nat) -> Seq<char> {
    seq![hex_digit((n / 4096) % 16), hex_digit((n / 256) % 16), hex_digit((n / 16) % 16), hex_digit(n % 16)]
}

/// How one character is written inside a JSON string.
pub open spec fn escape_char(c: char) -> Seq<char> {
    if c == '"' {
        seq!['\\', '"']
    } else if c == '\\' {
        seq!['\\', '\\']
    } else if c == '\n' {
        seq!['\\', 'n']
    } else if c == '\r' {
        seq!['\\', 'r']
    } else if c == '\t' {
        seq!['\\', 't']
    } else if is_control_char(c) {
        seq!['\\', 'u'] + hex4(c as nat)
    } else {
        seq![c]
    }
}

pub open spec fn escape_chars(s: Seq<char>) -> Seq<char>
    decreases s.len(),
{
    if s.len() == 0 {
        seq![]
    } else {
        escape_chars(s.drop_last()) + escape_char(s.last())
    }
}

/// `s` as a JSON string literal.
pub open spec fn json_text(s: Seq<char>) -> Seq<char> {
    seq!['"'] + escape_chars(s) + seq!['"']
}

fn hex_char(d: u32) -> (c: char)
    requires
        d < 16,
    ensures
        c == hex_digit(d as nat),
{
    if d < 10 {
        let b: u8 = 48u8 + (d as u8);
        proof {
            assert(('0' as nat) + d == b as nat);
        }
        b as char
    } else {
        let b: u8 = 97u8 + ((d - 10) as u8);
        proof {
            assert(('a' as nat) + (d - 10) == b as nat);
        }
        b as char
    }
}

fn push_escaped(out: &mut String, c: char)
    ensures
        final(out)@ == old(out)@ + escape_char(c),
{
    if c == '"' {
        out.push('\\');
        out.push('"');
    } else if c == '\\' {
        out.push('\\');
        out.push('\\');
    } else if c == '\n' {
        out.push('\\');
        out.push('n');
    } else if c == '\r' {
        out.push('\\');
        out.push('r');
    } else if c == '\t' {
        out.push('\\');
        out.push('t');
    } else if is_control(c) {
        let v = c as u32;
        out.push('\\');
        out.push('u');
        out.push(hex_char((v / 4096) % 16));
        out.push(hex_char((v / 256) % 16));
        out.push(hex_char((v / 16) % 16));
        out.push(hex_char(v % 16));
    } else {
        out.push(c);
    }
    proof {
        assert(final(out)@ =~= old(out)@ + escape_char(c));
    }
}

/// Writes `value` as a JSON string literal: quotes, backslashes and the
/// control characters are escaped, the last as `\u` and four hex digits
/// unless they have a short form.
pub fn json_string(value: &str) -> (r: String)
    ensures
        r@ == json_text(value@),
{
    let cs = chars_of(value);
    let mut out = String::new();
    out.push('"');
    let mut i: usize = 0;
    proof {
        assert(cs@.take(0) =~= Seq::<char>::empty());
        assert(out@ =~= seq!['"'] + escape_chars(cs@.take(0)));
    }
    while i < cs.len()
        invariant
            i <= cs@.len(),
            out@ == seq!['"'] + escape_chars(cs@.take(i as int)),
        decreases cs.len() - i,
    {
        push_escaped(&mut out, cs[i]);
        proof {
            assert(cs@.take(i + 1).drop_last() =~= cs@.take(i as int));
            assert(cs@.take(i + 1).last() == cs@[i as int]);
            assert(out@ =~= seq!['"'] + escape_chars(cs@.take(i + 1)));
        }
        i += 1;
    }
    out.push('"');
    proof {
        assert(cs@.take(cs@.len() as int) =~= cs@);
        assert(out@ =~= json_text(value@));
    }
    out
}

// ---------------------------------------------------------------------------
// Reading JSON strings back
// ---------------------------------------------------------------------------

/// The value of a hexadecimal digit, either case.
pub open spec fn hex_value(c: char) -> Option<nat> {
    let v = c as nat;
    if 0x30 <= v && v <= 0x39 {
        Some((v - 0x30) as nat)
    } else if 0x61 <= v && v <= 0x66 {
        Some((v - 0x61 + 10) as nat)
    } else if 0x41 <= v && v <= 0x46 {
        Some((v - 0x41 + 10) as nat)
    } else {
        None
    }
}

/// The value of four hexadecimal digits `s[at..at + 4]`.
pub open spec fn hex4_value(s: Seq<char>, at: int) -> Option<nat> {
    match (hex_value(s[at]), hex_value(s[at + 1]), hex_value(s[at + 2]), hex_value(s[at + 3])) {
        (Some(a), Some(b), Some(c), Some(d)) => Some(a * 4096 + b * 256 + c * 16 + d),
        _ => None,
    }
}

/// The character a two-character escape `\c` stands for.
pub open spec fn short_escape(c: char) -> Option<char> {
    if c == '"' {
        Some('"')
    } else if c == '\\' {
        Some('\\')
    } else if c == '/' {
        Some('/')
    } else if c == 'b' {
        Some('\u{8}')
    } else if c == 'f' {
        Some('\u{c}')
    } else if c == 'n' {
        Some('\n')
    } else if c == 'r' {
        Some('\r')
    } else if c == 't' {
        Some('\t')
    } else {
        None
    }
}

pub open spec fn prepend(c: char, r: Option<Seq<char>>) -> Option<Seq<char>> {
    match r {
        Some(t) => Some(seq![c] + t),
        None => None,
    }
}

/// The characters that the inside of a JSON string literal stands for, or
/// `None` where it is not valid JSON: a bare quote or control character, an
/// unknown escape, or a `\u` escape that is not four hex digits naming a
/// character (a surrogate must be the first of a pair of `\u` escapes).
pub open spec fn json_unescape(s: Seq<char>) -> Option<Seq<char>>
    decreases s.len(),
{
    if s.len() == 0 {
        Some(seq![])
    } else if s[0] == '"' || (s[0] as nat) < 0x20 {
        None
    } else if s[0] != '\\' {
        prepend(s[0], json_unescape(s.drop_first()))
    } else if s.len() < 2 {
        None
    } else if s[1] != 'u' {
        match short_escape(s[1]) {
            Some(c) => prepend(c, json_unescape(s.subrange(2, s.len() as int))),
            None => None,
        }
    } else if s.len() < 6 {
        None
    } else {
        match hex4_value(s, 2) {
            None => None,
            Some(v) => if v < 0xD800 || 0xE000 <= v {
                prepend(v as char, json_unescape(s.subrange(6, s.len() as int)))
            } else if v < 0xDC00 && s.len() >= 12 && s[6] == '\\' && s[7] == 'u' {
                match hex4_value(s, 8) {
                    Some(w) => if 0xDC00 <= w && w < 0xE000 {
                        prepend(
                            (0x10000 + (v - 0xD800) * 1024 + (w - 0xDC00)) as char,
                            json_unescape(s.subrange(12, s.len() as int)),
                        )
                    } else {
                        None
                    },
                    None => None,
                }
            } else {
                None
            },
        }
    }
}

/// The string a JSON string literal stands for, or `None` when `t` is not one.
pub open spec fn json_decode(t: Seq<char>) -> Option<Seq<char>> {
    if t.len() >= 2 && t[0] == '"' && t[t.len() - 1] == '"' {
        json_unescape(t.subrange(1, t.len() - 1))
    } else {
        None
    }
}

proof fn lemma_escape_chars_append(a: Seq<char>, b: Seq<char>)
    ensures
        escape_chars(a + b) == escape_chars(a) + escape_chars(b),
    decreases b.len(),
{
    if b.len() == 0 {
        assert(a + b =~= a);
        assert(escape_chars(a) + escape_chars(b) =~= escape_chars(a));
    } else {
        lemma_escape_chars_append(a, b.drop_last());
        assert((a + b).drop_last() =~= a + b.drop_last());
        assert((a + b).last() == b.last());
        assert(escape_chars(a + b) =~= escape_chars(a) + escape_chars(b));
    }
}

proof fn lemma_escape_chars_front(s: Seq<char>)
    requires
        s.len() > 0,
    ensures
        escape_chars(s) == escape_char(s[0]) + escape_chars(s.drop_first()),
{
    assert(s =~= seq![s[0]] + s.drop_first());
    lemma_escape_chars_append(seq![s[0]], s.drop_first());
    let one = seq![s[0]];
    assert(one.drop_last() =~= Seq::<char>::empty());
    assert(escape_chars(one.drop_last()) =~= Seq::<char>::empty());
    assert(one.last() == s[0]);
    assert(escape_chars(one) =~= escape_chars(one.drop_last()) + escape_char(one.last()));
    assert(escape_chars(one) =~= escape_char(s[0]));
}

proof fn lemma_hex_digit_value(d: nat)
    requires
        d < 16,
    ensures
        hex_value(hex_digit(d)) == Some(d),
{
    if d < 10 {
        assert((('0' as nat) + d) as char as nat == 0x30 + d);
    } else {
        assert((('a' as nat) + (d - 10)) as char as nat == 0x61 + (d - 10));
    }
}

proof fn lemma_hex4_value(n: nat, rest: Seq<char>)
    requires
        n < 0x10000,
    ensures
        hex4_value(hex4(n) + rest, 0) == Some(n),
{
    let t = hex4(n) + rest;
    lemma_hex_digit_value((n / 4096) % 16);
    lemma_hex_digit_value((n / 256) % 16);
    lemma_hex_digit_value((n / 16) % 16);
    lemma_hex_digit_value(n % 16);
    assert(t[0] == hex_digit((n / 4096) % 16));
    assert(t[1] == hex_digit((n / 256) % 16));
    assert(t[2] == hex_digit((n / 16) % 16));
    assert(t[3] == hex_digit(n % 16));
    assert(((n / 4096) % 16) * 4096 + ((n / 256) % 16) * 256 + ((n / 16) % 16) * 16 + n % 16 == n)
        by (nonlinear_arith)
        requires
            n < 0x10000,
    {
        assert(n / 4096 < 16);
        assert((n / 4096) % 16 == n / 4096);
        assert(n == (n / 4096) * 4096 + n % 4096);
        assert(n % 4096 == ((n / 256) % 16) * 256 + n % 256);
        assert(n % 256 == ((n / 16) % 16) * 16 + n % 16);
    }
}

proof fn lemma_unescape_one(c: char, rest: Seq<char>)
    ensures
        json_unescape(escape_char(c) + rest) == prepend(c, json_unescape(rest)),
{
    let s = escape_char(c) + rest;
    if c == '"' || c == '\\' || c == '\n' || c == '\r' || c == '\t' {
        assert(s.subrange(2, s.len() as int) =~= rest);
    } else if is_control_char(c) {
        assert(s[0] == '\\');
        assert(s[1] == 'u');
        assert(s.subrange(2, s.len() as int) =~= hex4(c as nat) + rest);
        lemma_hex4_value(c as nat, rest);
        assert(hex4_value(s, 2) == hex4_value(hex4(c as nat) + rest, 0));
        assert((c as nat) as char == c);
        assert(s.subrange(6, s.len() as int) =~= rest);
    } else {
        assert(s[0] == c);
        assert(s.drop_first() =~= rest);
    }
}

proof fn lemma_unescape_escape(s: Seq<char>)
    ensures
        json_unescape(escape_chars(s)) == Some(s),
    decreases s.len(),
{
    if s.len() == 0 {
        assert(escape_chars(s) =~= Seq::<char>::empty());
    } else {
        lemma_escape_chars_front(s);
        lemma_unescape_escape(s.drop_first());
        lemma_unescape_one(s[0], escape_chars(s.drop_first()));
        assert(seq![s[0]] + s.drop_first() =~= s);
    }
}

proof fn lemma_escape_no_control(s: Seq<char>)
    ensures
        forall|i: int| 0 <= i < escape_chars(s).len() ==> !is_control_char(#[trigger] escape_chars(s)[i]),
    decreases s.len(),
{
    if s.len() > 0 {
        lemma_escape_no_control(s.drop_last());
        let a = escape_chars(s.drop_last());
        let e = escape_char(s.last());
        assert(escape_chars(s) == a + e);
        assert forall|i: int| 0 <= i < e.len() implies !is_control_char(#[trigger] e[i]) by {
            let c = s.last();
            if is_control_char(c) && !(c == '"' || c == '\\' || c == '\n' || c == '\r' || c == '\t') {
                let n = c as nat;
                if i >= 2 {
                    assert(e[i] == hex_digit(if i == 2 { (n / 4096) % 16 } else if i == 3 { (n / 256) % 16 } else if i == 4 { (n / 16) % 16 } else { n % 16 }));
                }
            }
        }
        assert forall|i: int| 0 <= i < escape_chars(s).len() implies !is_control_char(#[trigger] escape_chars(s)[i]) by {
            if i < a.len() {
                assert(escape_chars(s)[i] == a[i]);
            } else {
                assert(escape_chars(s)[i] == e[i - a.len()]);
            }
        }
    }
}

/// What `json_string` writes reads back, as JSON, as the string written,
/// and holds no raw control character.
pub proof fn lemma_json_round_trip(s: Seq<char>)
    ensures
        json_decode(json_text(s)) == Some(s),
        forall|i: int| 0 <= i < json_text(s).len() ==> !is_control_char(#[trigger] json_text(s)[i]),
{
    let t = json_text(s);
    assert(t.subrange(1, t.len() - 1) =~= escape_chars(s));
    lemma_unescape_escape(s);
    lemma_escape_no_control(s);
    assert forall|i: int| 0 <= i < t.len() implies !is_control_char(#[trigger] t[i]) by {
        if 0 < i < t.len() - 1 {
            assert(t[i] == escape_chars(s)[i - 1]);
        }
    }
}

// ---------------------------------------------------------------------------
// The report
// ---------------------------------------------------------------------------

/// A line `  "name": "value"`, with a comma when more follows.
pub open spec fn json_field(name: Seq<char>, value: Seq<char>, comma: bool) -> Seq<char> {
    "  "@ + json_text(name) + ": "@ + json_text(value) + (if comma { ","@ } else { ""@ }) + "\n"@
}

/// Appends a line `  "name": "value"` to `output`, with a comma when `comma`.
pub fn push_json_field(output: &mut String, name: &str, value: &str, comma: bool)
    ensures
        final(output)@ == old(output)@ + json_field(name@, value@, comma),
{
    push_str(output, "  ");
    let n = json_string(name);
    push_str(output, n.as_str());
    push_str(output, ": ");
    let v = json_string(value);
    push_str(output, v.as_str());
    if comma {
        push_str(output, ",");
    } else {
        push_str(output, "");
    }
    push_str(output, "\n");
    proof {
        assert(final(output)@ =~= old(output)@ + json_field(name@, value@, comma));
    }
}

pub open spec fn bool_text(b: bool) -> Seq<char> {
    if b { "true"@ } else { "false"@ }
}

/// `", "` before every item but the first.
pub open spec fn separator(k: int) -> Seq<char> {
    if k > 0 { ", "@ } else { ""@ }
}

pub open spec fn path_items(s: Seq<String>) -> Seq<char>
    decreases s.len(),
{
    if s.len() == 0 {
        seq![]
    } else {
        path_items(s.drop_last()) + separator(s.len() - 1) + json_text(s.last()@)
    }
}

pub open spec fn loaded_item(f: LoadedFont) -> Seq<char> {
    "{\"path\": "@ + json_text(f.path@) + ", \"resource_count\": "@ + signed_decimal(
        f.resource_count as int,
    ) + "}"@
}

pub open spec fn loaded_items(s: Seq<LoadedFont>) -> Seq<char>
    decreases s.len(),
{
    if s.len() == 0 {
        seq![]
    } else {
        loaded_items(s.drop_last()) + separator(s.len() - 1) + loaded_item(s.last())
    }
}

pub open spec fn failed_item(f: FailedFont) -> Seq<char> {
    "{\"path\": "@ + json_text(f.path@) + ", \"error\": "@ + json_text(f.error@) + "}"@
}

pub open spec fn failed_items(s: Seq<FailedFont>) -> Seq<char>
    decreases s.len(),
{
    if s.len() == 0 {
        seq![]
    } else {
        failed_items(s.drop_last()) + separator(s.len() - 1) + failed_item(s.last())
    }
}

pub open spec fn extracted_text(e: Option<&str>) -> Seq<char> {
    match e {
        Some(p) => json_text(p@),
        None => "null"@,
    }
}

/// The JSON text of a load report.
pub open spec fn report_json(r: LoadReport) -> Seq<char> {
    "{\n"@ + json_field("input"@, r.input@, true) + json_field("source"@, r.source@, true)
        + json_field("scan_root"@, r.scan_root@, true) + "  \"extracted_to\": "@ + extracted_text(
        r.extracted_to,
    ) + ",\n"@ + "  \"recursive\": "@ + bool_text(r.recursive) + ",\n"@ + "  \"discovered_count\": "@
        + decimal(r.discovered@.len()) + ",\n"@ + "  \"loaded_count\": "@ + decimal(r.load.loaded@.len())
        + ",\n"@ + "  \"loaded_resource_count\": "@ + signed_decimal(resource_sum(r.load.loaded@))
        + ",\n"@ + "  \"failed_count\": "@ + decimal(r.load.failed@.len()) + ",\n"@
        + "  \"discovered\": ["@ + path_items(r.discovered@) + "],\n"@ + "  \"loaded\": ["@
        + loaded_items(r.load.loaded@) + "],\n"@ + "  \"failed\": ["@ + failed_items(r.load.failed@)
        + "]\n"@ + "}"@
}

fn push_separator(output: &mut String, k: usize)
    ensures
        final(output)@ == old(output)@ + separator(k as int),
{
    if k > 0 {
        push_str(output, ", ");
    } else {
        push_str(output, "");
    }
}

fn push_path_items(output: &mut String, paths: &[String])
    ensures
        final(output)@ == old(output)@ + path_items(paths@),
{
    let mut i: usize = 0;
    proof {
        assert(paths@.take(0) =~= Seq::<String>::empty());
        assert(output@ =~= old(output)@ + path_items(paths@.take(0)));
    }
    while i < paths.len()
        invariant
            i <= paths@.len(),
            output@ == old(output)@ + path_items(paths@.take(i as int)),
        decreases paths.len() - i,
    {
        push_separator(output, i);
        let text = json_string(paths[i].as_str());
        push_str(output, text.as_str());
        proof {
            assert(paths@.take(i + 1).drop_last() =~= paths@.take(i as int));
            assert(paths@.take(i + 1).last() == paths@[i as int]);
            assert(output@ =~= old(output)@ + path_items(paths@.take(i + 1)));
        }
        i += 1;
    }
    proof {
        assert(paths@.take(paths@.len() as int) =~= paths@);
    }
}

fn push_loaded_items(output: &mut String, fonts: &Vec<LoadedFont>)
    ensures
        final(output)@ == old(output)@ + loaded_items(fonts@),
{
    let mut i: usize = 0;
    proof {
        assert(fonts@.take(0) =~= Seq::<LoadedFont>::empty());
        assert(output@ =~= old(output)@ + loaded_items(fonts@.take(0)));
    }
    while i < fonts.len()
        invariant
            i <= fonts@.len(),
            output@ == old(output)@ + loaded_items(fonts@.take(i as int)),
        decreases fonts.len() - i,
    {
        push_separator(output, i);
        push_str(output, "{\"path\": ");
        let text = json_string(fonts[i].path.as_str());
        push_str(output, text.as_str());
        push_str(output, ", \"resource_count\": ");
        push_signed_decimal(output, fonts[i].resource_count as i64);
        push_str(output, "}");
        proof {
            assert(fonts@.take(i + 1).drop_last() =~= fonts@.take(i as int));
            assert(fonts@.take(i + 1).last() == fonts@[i as int]);
            assert(output@ =~= old(output)@ + loaded_items(fonts@.take(i + 1)));
        }
        i += 1;
    }
    proof {
        assert(fonts@.take(fonts@.len() as int) =~= fonts@);
    }
}

fn push_failed_items(output: &mut String, fonts: &Vec<FailedFont>)
    ensures
        final(output)@ == old(output)@ + failed_items(fonts@),
{
    let mut i: usize = 0;
    proof {
        assert(fonts@.take(0) =~= Seq::<FailedFont>::empty());
        assert(output@ =~= old(output)@ + failed_items(fonts@.take(0)));
    }
    while i < fonts.len()
        invariant
            i <= fonts@.len(),
            output@ == old(output)@ + failed_items(fonts@.take(i as int)),
        decreases fonts.len() - i,
    {
        push_separator(output, i);
        push_str(output, "{\"path\": ");
        let path = json_string(fonts[i].path.as_str());
        push_str(output, path.as_str());
        push_str(output, ", \"error\": ");
        let error = json_string(fonts[i].error.as_str());
        push_str(output, error.as_str());
        push_str(output, "}");
        proof {
            assert(fonts@.take(i + 1).drop_last() =~= fonts@.take(i as int));
            assert(fonts@.take(i + 1).last() == fonts@[i as int]);
            assert(output@ =~= old(output)@ + failed_items(fonts@.take(i + 1)));
        }
        i += 1;
    }
    proof {
        assert(fonts@.take(fonts@.len() as int) =~= fonts@);
    }
}

fn push_count_field(output: &mut String, prefix: &str, n: usize)
    ensures
        final(output)@ == old(output)@ + prefix@ + decimal(n as nat) + ",\n"@,
{
    push_str(output, prefix);
    push_decimal(output, n as u64);
    push_str(output, ",\n");
}

/// The load report as a JSON object, one field per line.
pub fn to_json(report: &LoadReport) -> (r: String)
    requires
        resource_sums_fit(report.load.loaded@),
    ensures
        r@ == report_json(*report),
{
    let mut output = String::new();
    push_str(&mut output, "{\n");
    push_json_field(&mut output, "input", report.input, true);
    push_json_field(&mut output, "source", report.source, true);
    push_json_field(&mut output, "scan_root", report.scan_root, true);
    push_str(&mut output, "  \"extracted_to\": ");
    match report.extracted_to {
        Some(extracted_to) => {
            let text = json_string(extracted_to);
            push_str(&mut output, text.as_str());
        },
        None => push_str(&mut output, "null"),
    }
    push_str(&mut output, ",\n");
    push_str(&mut output, "  \"recursive\": ");
    if report.recursive {
        push_str(&mut output, "true");
    } else {
        push_str(&mut output, "false");
    }
    push_str(&mut output, ",\n");
    push_count_field(&mut output, "  \"discovered_count\": ", report.discovered.len());
    push_count_field(&mut output, "  \"loaded_count\": ", report.load.loaded.len());
    push_str(&mut output, "  \"loaded_resource_count\": ");
    let total = loaded_resource_count(report.load);
    push_signed_decimal(&mut output, total as i64);
    push_str(&mut output, ",\n");
    push_count_field(&mut output, "  \"failed_count\": ", report.load.failed.len());
    push_str(&mut output, "  \"discovered\": [");
    push_path_items(&mut output, report.discovered);
    push_str(&mut output, "],\n");
    push_str(&mut output, "  \"loaded\": [");
    push_loaded_items(&mut output, &report.load.loaded);
    push_str(&mut output, "],\n");
    push_str(&mut output, "  \"failed\": [");
    push_failed_items(&mut output, &report.load.failed);
    push_str(&mut output, "]\n");
    push_str(&mut output, "}");
    proof {
        assert(output@ =~= report_json(*report));
    }
    output
}

} // verus!
