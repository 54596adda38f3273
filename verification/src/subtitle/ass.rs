//! A line-oriented reader for the parts of an ASS/SSA script that name fonts:
//! the styles of the `[V4+ Styles]` (or `[V4 Styles]`) section and the
//! dialogue lines of the `[Events]` section.
//!
//! Each section's `Format:` line says which comma-separated field holds what;
//! `Style:` and `Dialogue:` lines that come before a usable `Format:` line, or
//! that have too few fields, are skipped. Section names and line prefixes are
//! matched without regard to ASCII case.

use vstd::prelude::*;

use crate::text::{
    chars_of, eq_ignore_ascii_case_range, eq_ignore_ascii_case_seq, find_char, find_char_in,
    is_white_space, lemma_find_char, lemma_find_char_at, lemma_find_char_none,
    lemma_trim_drop_last_white, string_of_range, trim_end_seq, trim_range, trim_seq, trim_start_seq,
};

verus! {

// ---------------------------------------------------------------------------
// Data
// ---------------------------------------------------------------------------

/// What a script declares: its styles and its dialogue lines, in order.
#[derive(Debug, Clone, PartialEq, Eq)]
pub struct AssDocument {
    pub styles: Vec<AssStyle>,
    pub dialogues: Vec<AssDialogue>,
}

/// A style's name and the font it uses.
#[derive(Debug, Clone, PartialEq, Eq)]
pub struct AssStyle {
    pub name: String,
    pub font_name: String,
}

/// A dialogue line's style name and its text, override tags included.
#[derive(Debug, Clone, PartialEq, Eq)]
pub struct AssDialogue {
    pub style: String,
    pub text: String,
}

/// The section a line belongs to.
#[derive(Debug, Clone, Copy)]
pub enum Section {
    Styles,
    Events,
    Other,
}

/// Where the name and the font name stand among a style line's fields.
#[derive(Debug, Clone, Copy)]
pub struct StyleFormat {
    pub field_count: usize,
    pub name_index: usize,
    pub font_name_index: usize,
}

/// Where the style and the text stand among a dialogue line's fields.
#[derive(Debug, Clone, Copy)]
pub struct EventFormat {
    pub field_count: usize,
    pub style_index: usize,
    pub text_index: usize,
}

/// A style as (name, font name).
pub type StyleView = (Seq<char>, Seq<char>);

/// A dialogue line as (style, text).
pub type DialogueView = (Seq<char>, Seq<char>);

pub open spec fn style_view(s: AssStyle) -> StyleView {
    (s.name@, s.font_name@)
}

pub open spec fn dialogue_view(d: AssDialogue) -> DialogueView {
    (d.style@, d.text@)
}

impl AssDocument {
    pub open spec fn styles_view(&self) -> Seq<StyleView> {
        self.styles@.map_values(|s: AssStyle| style_view(s))
    }

    pub open spec fn dialogues_view(&self) -> Seq<DialogueView> {
        self.dialogues@.map_values(|d: AssDialogue| dialogue_view(d))
    }
}

/// The reader's state between lines.
pub struct ParseState {
    pub section: Section,
    pub style_format: Option<StyleFormat>,
    pub event_format: Option<EventFormat>,
    pub styles: Seq<StyleView>,
    pub dialogues: Seq<DialogueView>,
}

// ---------------------------------------------------------------------------
// Specification
// ---------------------------------------------------------------------------

/// `s` without one trailing carriage return.
pub open spec fn strip_cr(s: Seq<char>) -> Seq<char> {
    if s.len() > 0 && s.last() == '\r' {
        s.drop_last()
    } else {
        s
    }
}

/// The lines of `s` as `str::lines` yields them: split at `\n`, a `\r` just
/// before the `\n` removed, and no empty line after a final `\n`.
pub open spec fn lines_of(s: Seq<char>) -> Seq<Seq<char>>
    decreases s.len(),
{
    if s.len() == 0 {
        seq![]
    } else {
        match find_char(s, '\n') {
            None => seq![s],
            Some(i) => if 0 <= i < s.len() {
                seq![strip_cr(s.take(i))] + lines_of(s.skip(i + 1))
            } else {
                seq![]
            },
        }
    }
}

/// The pieces of `s` between commas, as `str::split(',')` yields them.
pub open spec fn split_commas(s: Seq<char>) -> Seq<Seq<char>>
    decreases s.len(),
{
    match find_char(s, ',') {
        None => seq![s],
        Some(i) => if 0 <= i < s.len() {
            seq![s.take(i)] + split_commas(s.skip(i + 1))
        } else {
            seq![s]
        },
    }
}

/// At most `n` pieces of `s`, the last holding the rest, as
/// `str::splitn(n, ',')` yields them for `n >= 1`.
pub open spec fn splitn_commas(s: Seq<char>, n: nat) -> Seq<Seq<char>>
    decreases n,
{
    if n <= 1 {
        seq![s]
    } else {
        match find_char(s, ',') {
            None => seq![s],
            Some(i) => if 0 <= i < s.len() {
                seq![s.take(i)] + splitn_commas(s.skip(i + 1), (n - 1) as nat)
            } else {
                seq![s]
            },
        }
    }
}

/// The first position of a field equal to `name` ignoring ASCII case.
pub open spec fn find_field(fields: Seq<Seq<char>>, name: Seq<char>) -> Option<int>
    decreases fields.len(),
{
    if fields.len() == 0 {
        None
    } else if eq_ignore_ascii_case_seq(fields[0], name) {
        Some(0)
    } else {
        match find_field(fields.drop_first(), name) {
            Some(i) => Some(i + 1),
            None => None,
        }
    }
}

/// The trimmed field names of a `Format:` line.
pub open spec fn format_fields(rest: Seq<char>) -> Seq<Seq<char>> {
    split_commas(rest).map_values(|f: Seq<char>| trim_seq(f))
}

pub open spec fn style_format_of(rest: Seq<char>) -> Option<StyleFormat> {
    let fields = format_fields(rest);
    match (find_field(fields, "Name"@), find_field(fields, "Fontname"@)) {
        (Some(n), Some(f)) => Some(
            StyleFormat {
                field_count: fields.len() as usize,
                name_index: n as usize,
                font_name_index: f as usize,
            },
        ),
        _ => None,
    }
}

pub open spec fn event_format_of(rest: Seq<char>) -> Option<EventFormat> {
    let fields = format_fields(rest);
    match (find_field(fields, "Style"@), find_field(fields, "Text"@)) {
        (Some(s), Some(t)) => Some(
            EventFormat {
                field_count: fields.len() as usize,
                style_index: s as usize,
                text_index: t as usize,
            },
        ),
        _ => None,
    }
}

/// The fields of a `Style:` or `Dialogue:` line when it has exactly
/// `count` of them (the last one keeping any further commas).
pub open spec fn line_fields(rest: Seq<char>, count: nat) -> Option<Seq<Seq<char>>> {
    if count == 0 {
        None
    } else if splitn_commas(rest, count).len() == count {
        Some(splitn_commas(rest, count))
    } else {
        None
    }
}

pub open spec fn style_of(rest: Seq<char>, format: StyleFormat) -> Option<StyleView> {
    match line_fields(rest, format.field_count as nat) {
        Some(fields) => if format.name_index < fields.len() && format.font_name_index
            < fields.len() {
            Some(
                (
                    trim_seq(fields[format.name_index as int]),
                    trim_seq(fields[format.font_name_index as int]),
                ),
            )
        } else {
            None
        },
        None => None,
    }
}

pub open spec fn dialogue_of(rest: Seq<char>, format: EventFormat) -> Option<DialogueView> {
    match line_fields(rest, format.field_count as nat) {
        Some(fields) => if format.style_index < fields.len() && format.text_index
            < fields.len() {
            Some((trim_seq(fields[format.style_index as int]), fields[format.text_index as int]))
        } else {
            None
        },
        None => None,
    }
}

/// `line` without a leading `prefix`, ASCII case ignored.
pub open spec fn strip_prefix_ci(line: Seq<char>, prefix: Seq<char>) -> Option<Seq<char>> {
    if prefix.len() <= line.len() && eq_ignore_ascii_case_seq(line.take(prefix.len() as int), prefix) {
        Some(line.skip(prefix.len() as int))
    } else {
        None
    }
}

/// The section a `[...]` header line opens; `None` for other lines.
pub open spec fn section_of(line: Seq<char>) -> Option<Section> {
    if line.len() >= 2 && line[0] == '[' && line.last() == ']' {
        let name = trim_seq(line.subrange(1, line.len() - 1));
        if eq_ignore_ascii_case_seq(name, "V4+ Styles"@) || eq_ignore_ascii_case_seq(
            name,
            "V4 Styles"@,
        ) {
            Some(Section::Styles)
        } else if eq_ignore_ascii_case_seq(name, "Events"@) {
            Some(Section::Events)
        } else {
            Some(Section::Other)
        }
    } else {
        None
    }
}

/// What reading one (untrimmed) line does to the state.
pub open spec fn step(st: ParseState, raw: Seq<char>) -> ParseState {
    let line = trim_seq(raw);
    match section_of(line) {
        Some(section) => ParseState { section, ..st },
        None => match st.section {
            Section::Styles => match strip_prefix_ci(line, "Format:"@) {
                Some(rest) => ParseState { style_format: style_format_of(rest), ..st },
                None => match (strip_prefix_ci(line, "Style:"@), st.style_format) {
                    (Some(rest), Some(format)) => match style_of(rest, format) {
                        Some(style) => ParseState { styles: st.styles.push(style), ..st },
                        None => st,
                    },
                    _ => st,
                },
            },
            Section::Events => match strip_prefix_ci(line, "Format:"@) {
                Some(rest) => ParseState { event_format: event_format_of(rest), ..st },
                None => match (strip_prefix_ci(line, "Dialogue:"@), st.event_format) {
                    (Some(rest), Some(format)) => match dialogue_of(rest, format) {
                        Some(d) => ParseState { dialogues: st.dialogues.push(d), ..st },
                        None => st,
                    },
                    _ => st,
                },
            },
            Section::Other => st,
        },
    }
}

/// Reading the lines in order.
pub open spec fn read_lines(st: ParseState, lines: Seq<Seq<char>>) -> ParseState
    decreases lines.len(),
{
    if lines.len() == 0 {
        st
    } else {
        read_lines(step(st, lines[0]), lines.drop_first())
    }
}

/// The state before the first line.
pub open spec fn initial_state() -> ParseState {
    ParseState {
        section: Section::Other,
        style_format: None,
        event_format: None,
        styles: seq![],
        dialogues: seq![],
    }
}

/// The styles and dialogue lines of a script.
pub open spec fn parse_ass_spec(text: Seq<char>) -> ParseState {
    read_lines(initial_state(), lines_of(text))
}


// ---------------------------------------------------------------------------
// Lemmas
// ---------------------------------------------------------------------------

/// `find_field` is the first match.
proof fn lemma_find_field(fields: Seq<Seq<char>>, name: Seq<char>)
    ensures
        match find_field(fields, name) {
            Some(i) => 0 <= i < fields.len() && eq_ignore_ascii_case_seq(fields[i], name) && forall|
                j: int,
            | 0 <= j < i ==> !eq_ignore_ascii_case_seq(#[trigger] fields[j], name),
            None => forall|j: int|
                0 <= j < fields.len() ==> !eq_ignore_ascii_case_seq(#[trigger] fields[j], name),
        },
    decreases fields.len(),
{
    if fields.len() > 0 && !eq_ignore_ascii_case_seq(fields[0], name) {
        lemma_find_field(fields.drop_first(), name);
        assert forall|j: int| 0 < j < fields.len() implies fields[j] == fields.drop_first()[j
            - 1] by {}
    }
}

proof fn lemma_find_field_at(fields: Seq<Seq<char>>, name: Seq<char>, i: int)
    requires
        0 <= i < fields.len(),
        eq_ignore_ascii_case_seq(fields[i], name),
        forall|j: int| 0 <= j < i ==> !eq_ignore_ascii_case_seq(#[trigger] fields[j], name),
    ensures
        find_field(fields, name) == Some(i),
{
    lemma_find_field(fields, name);
    match find_field(fields, name) {
        Some(k) => {
            if k < i {
                assert(!eq_ignore_ascii_case_seq(fields[k], name));
            }
            if k > i {
                assert(!eq_ignore_ascii_case_seq(fields[i], name));
            }
        },
        None => {
            assert(!eq_ignore_ascii_case_seq(fields[i], name));
        },
    }
}

proof fn lemma_find_field_none(fields: Seq<Seq<char>>, name: Seq<char>)
    requires
        forall|j: int| 0 <= j < fields.len() ==> !eq_ignore_ascii_case_seq(#[trigger] fields[j], name),
    ensures
        find_field(fields, name) is None,
{
    lemma_find_field(fields, name);
    if let Some(k) = find_field(fields, name) {
        assert(!eq_ignore_ascii_case_seq(fields[k], name));
    }
}

// ---------------------------------------------------------------------------
// Implementation
// ---------------------------------------------------------------------------

/// The pieces `cs[a..b]` named by `ranges`.
pub open spec fn pieces(cs: Seq<char>, ranges: Seq<(usize, usize)>) -> Seq<Seq<char>> {
    ranges.map_values(|r: (usize, usize)| cs.subrange(r.0 as int, r.1 as int))
}

pub open spec fn ranges_within(ranges: Seq<(usize, usize)>, lo: int, hi: int) -> bool {
    forall|k: int| 0 <= k < ranges.len() ==> lo <= (#[trigger] ranges[k]).0 <= ranges[k].1 <= hi
}

/// Splits `cs[lo..hi]` at every comma.
fn split_all(cs: &[char], lo: usize, hi: usize) -> (r: Vec<(usize, usize)>)
    requires
        lo <= hi <= cs.len(),
    ensures
        ranges_within(r@, lo as int, hi as int),
        pieces(cs@, r@) == split_commas(cs@.subrange(lo as int, hi as int)),
{
    let mut r: Vec<(usize, usize)> = Vec::new();
    let mut cur = lo;
    loop
        invariant
            lo <= cur <= hi <= cs.len(),
            ranges_within(r@, lo as int, hi as int),
            split_commas(cs@.subrange(lo as int, hi as int)) == pieces(cs@, r@) + split_commas(
                cs@.subrange(cur as int, hi as int),
            ),
        decreases hi - cur,
    {
        let ghost sub = cs@.subrange(cur as int, hi as int);
        let ghost before = pieces(cs@, r@);
        match find_char_in(cs, cur, hi, ',') {
            Some(c) => {
                proof {
                    assert(sub.take(c - cur) =~= cs@.subrange(cur as int, c as int));
                    assert(sub.skip(c - cur + 1) =~= cs@.subrange(c + 1, hi as int));
                }
                r.push((cur, c));
                proof {
                    assert(pieces(cs@, r@) =~= before.push(cs@.subrange(cur as int, c as int)));
                    assert(before.push(cs@.subrange(cur as int, c as int)) + split_commas(
                        cs@.subrange(c + 1, hi as int),
                    ) =~= before + (seq![cs@.subrange(cur as int, c as int)] + split_commas(
                        cs@.subrange(c + 1, hi as int),
                    )));
                }
                cur = c + 1;
            },
            None => {
                r.push((cur, hi));
                proof {
                    assert(pieces(cs@, r@) =~= before.push(sub));
                    assert(before + seq![sub] =~= before.push(sub));
                }
                return r;
            },
        }
    }
}

/// Splits `cs[lo..hi]` into at most `n` comma-separated pieces.
fn split_n(cs: &[char], lo: usize, hi: usize, n: usize) -> (r: Vec<(usize, usize)>)
    requires
        lo <= hi <= cs.len(),
        n >= 1,
    ensures
        ranges_within(r@, lo as int, hi as int),
        pieces(cs@, r@) == splitn_commas(cs@.subrange(lo as int, hi as int), n as nat),
{
    let mut r: Vec<(usize, usize)> = Vec::new();
    let mut cur = lo;
    let mut left = n;
    loop
        invariant
            lo <= cur <= hi <= cs.len(),
            1 <= left <= n,
            ranges_within(r@, lo as int, hi as int),
            splitn_commas(cs@.subrange(lo as int, hi as int), n as nat) == pieces(cs@, r@)
                + splitn_commas(cs@.subrange(cur as int, hi as int), left as nat),
        decreases left,
    {
        let ghost sub = cs@.subrange(cur as int, hi as int);
        let ghost before = pieces(cs@, r@);
        if left == 1 {
            r.push((cur, hi));
            proof {
                assert(pieces(cs@, r@) =~= before.push(sub));
                assert(before + seq![sub] =~= before.push(sub));
            }
            return r;
        }
        match find_char_in(cs, cur, hi, ',') {
            Some(c) => {
                proof {
                    assert(sub.take(c - cur) =~= cs@.subrange(cur as int, c as int));
                    assert(sub.skip(c - cur + 1) =~= cs@.subrange(c + 1, hi as int));
                }
                r.push((cur, c));
                proof {
                    assert(pieces(cs@, r@) =~= before.push(cs@.subrange(cur as int, c as int)));
                    assert(before.push(cs@.subrange(cur as int, c as int)) + splitn_commas(
                        cs@.subrange(c + 1, hi as int),
                        (left - 1) as nat,
                    ) =~= before + (seq![cs@.subrange(cur as int, c as int)] + splitn_commas(
                        cs@.subrange(c + 1, hi as int),
                        (left - 1) as nat,
                    )));
                }
                cur = c + 1;
                left = left - 1;
            },
            None => {
                r.push((cur, hi));
                proof {
                    assert(pieces(cs@, r@) =~= before.push(sub));
                    assert(before + seq![sub] =~= before.push(sub));
                }
                return r;
            },
        }
    }
}

/// The trimmed comma-separated names of a `Format:` line.
fn format_field_ranges(cs: &[char], lo: usize, hi: usize) -> (r: Vec<(usize, usize)>)
    requires
        lo <= hi <= cs.len(),
    ensures
        ranges_within(r@, lo as int, hi as int),
        pieces(cs@, r@) == format_fields(cs@.subrange(lo as int, hi as int)),
{
    let raw = split_all(cs, lo, hi);
    let mut r: Vec<(usize, usize)> = Vec::new();
    let mut i: usize = 0;
    while i < raw.len()
        invariant
            i <= raw.len(),
            lo <= hi <= cs.len(),
            ranges_within(raw@, lo as int, hi as int),
            ranges_within(r@, lo as int, hi as int),
            pieces(cs@, raw@) == split_commas(cs@.subrange(lo as int, hi as int)),
            pieces(cs@, r@) == pieces(cs@, raw@).take(i as int).map_values(
                |f: Seq<char>| trim_seq(f),
            ),
        decreases raw.len() - i,
    {
        let (a, b) = raw[i];
        proof {
            assert(lo <= raw@[i as int].0 <= raw@[i as int].1 <= hi);
        }
        let t = trim_range(cs, a, b);
        let ghost before = pieces(cs@, r@);
        r.push(t);
        proof {
            assert(pieces(cs@, r@) =~= before.push(cs@.subrange(t.0 as int, t.1 as int)));
            assert(pieces(cs@, raw@)[i as int] == cs@.subrange(a as int, b as int));
            assert(pieces(cs@, raw@).take(i + 1).map_values(|f: Seq<char>| trim_seq(f))
                =~= pieces(cs@, raw@).take(i as int).map_values(|f: Seq<char>| trim_seq(f)).push(
                trim_seq(cs@.subrange(a as int, b as int)),
            ));
        }
        i += 1;
    }
    proof {
        assert(pieces(cs@, raw@).take(raw@.len() as int) =~= pieces(cs@, raw@));
    }
    r
}

/// The position of the first field equal to `name` ignoring ASCII case.
fn find_field_exec(cs: &[char], fields: &Vec<(usize, usize)>, name: &[char]) -> (r: Option<usize>)
    requires
        ranges_within(fields@, 0, cs@.len() as int),
    ensures
        match r {
            Some(i) => find_field(pieces(cs@, fields@), name@) == Some(i as int),
            None => find_field(pieces(cs@, fields@), name@) is None,
        },
{
    let ghost ps = pieces(cs@, fields@);
    let mut i: usize = 0;
    while i < fields.len()
        invariant
            i <= fields.len(),
            ranges_within(fields@, 0, cs@.len() as int),
            ps == pieces(cs@, fields@),
            forall|j: int| 0 <= j < i ==> !eq_ignore_ascii_case_seq(#[trigger] ps[j], name@),
        decreases fields.len() - i,
    {
        let (a, b) = fields[i];
        proof {
            assert(0 <= fields@[i as int].0 <= fields@[i as int].1 <= cs@.len());
            assert(name@.subrange(0, name@.len() as int) =~= name@);
        }
        if eq_ignore_ascii_case_range(cs, a, b, name, 0, name.len()) {
            proof {
                lemma_find_field_at(ps, name@, i as int);
            }
            return Some(i);
        }
        i += 1;
    }
    proof {
        lemma_find_field_none(ps, name@);
    }
    None
}

fn parse_style_format(cs: &[char], lo: usize, hi: usize) -> (r: Option<StyleFormat>)
    requires
        lo <= hi <= cs.len(),
    ensures
        r == style_format_of(cs@.subrange(lo as int, hi as int)),
{
    let fields = format_field_ranges(cs, lo, hi);
    let name = chars_of("Name");
    let font = chars_of("Fontname");
    match find_field_exec(cs, &fields, name.as_slice()) {
        Some(n) => match find_field_exec(cs, &fields, font.as_slice()) {
            Some(f) => Some(StyleFormat { field_count: fields.len(), name_index: n, font_name_index: f }),
            None => None,
        },
        None => None,
    }
}

fn parse_event_format(cs: &[char], lo: usize, hi: usize) -> (r: Option<EventFormat>)
    requires
        lo <= hi <= cs.len(),
    ensures
        r == event_format_of(cs@.subrange(lo as int, hi as int)),
{
    let fields = format_field_ranges(cs, lo, hi);
    let style = chars_of("Style");
    let text = chars_of("Text");
    match find_field_exec(cs, &fields, style.as_slice()) {
        Some(s) => match find_field_exec(cs, &fields, text.as_slice()) {
            Some(t) => Some(EventFormat { field_count: fields.len(), style_index: s, text_index: t }),
            None => None,
        },
        None => None,
    }
}

/// The fields of `cs[lo..hi]` when there are exactly `count`.
fn split_fields(cs: &[char], lo: usize, hi: usize, count: usize) -> (r: Option<Vec<(usize, usize)>>)
    requires
        lo <= hi <= cs.len(),
    ensures
        match r {
            Some(v) => ranges_within(v@, lo as int, hi as int) && line_fields(
                cs@.subrange(lo as int, hi as int),
                count as nat,
            ) == Some(pieces(cs@, v@)),
            None => line_fields(cs@.subrange(lo as int, hi as int), count as nat) is None,
        },
{
    if count == 0 {
        return None;
    }
    let v = split_n(cs, lo, hi, count);
    if v.len() == count {
        Some(v)
    } else {
        None
    }
}

fn parse_style_line(cs: &[char], lo: usize, hi: usize, format: StyleFormat) -> (r: Option<AssStyle>)
    requires
        lo <= hi <= cs.len(),
    ensures
        match r {
            Some(s) => style_of(cs@.subrange(lo as int, hi as int), format) == Some(style_view(s)),
            None => style_of(cs@.subrange(lo as int, hi as int), format) is None,
        },
{
    match split_fields(cs, lo, hi, format.field_count) {
        Some(fields) => {
            if format.name_index < fields.len() && format.font_name_index < fields.len() {
                let (na, nb) = fields[format.name_index];
                let (fa, fb) = fields[format.font_name_index];
                proof {
                    assert(lo <= fields@[format.name_index as int].0);
                    assert(fields@[format.name_index as int].1 <= hi);
                    assert(lo <= fields@[format.font_name_index as int].0);
                    assert(fields@[format.font_name_index as int].1 <= hi);
                }
                let (na2, nb2) = trim_range(cs, na, nb);
                let (fa2, fb2) = trim_range(cs, fa, fb);
                Some(AssStyle { name: string_of_range(cs, na2, nb2), font_name: string_of_range(cs, fa2, fb2) })
            } else {
                None
            }
        },
        None => None,
    }
}

fn parse_dialogue_line(cs: &[char], lo: usize, hi: usize, format: EventFormat) -> (r: Option<AssDialogue>)
    requires
        lo <= hi <= cs.len(),
    ensures
        match r {
            Some(d) => dialogue_of(cs@.subrange(lo as int, hi as int), format) == Some(dialogue_view(d)),
            None => dialogue_of(cs@.subrange(lo as int, hi as int), format) is None,
        },
{
    match split_fields(cs, lo, hi, format.field_count) {
        Some(fields) => {
            if format.style_index < fields.len() && format.text_index < fields.len() {
                let (sa, sb) = fields[format.style_index];
                let (ta, tb) = fields[format.text_index];
                proof {
                    assert(lo <= fields@[format.style_index as int].0);
                    assert(fields@[format.style_index as int].1 <= hi);
                    assert(lo <= fields@[format.text_index as int].0);
                    assert(fields@[format.text_index as int].1 <= hi);
                }
                let (sa2, sb2) = trim_range(cs, sa, sb);
                Some(AssDialogue { style: string_of_range(cs, sa2, sb2), text: string_of_range(cs, ta, tb) })
            } else {
                None
            }
        },
        None => None,
    }
}

/// Where the rest of `cs[lo..hi]` starts after a case-insensitive `prefix`.
fn strip_prefix_ci_exec(cs: &[char], lo: usize, hi: usize, prefix: &[char]) -> (r: Option<usize>)
    requires
        lo <= hi <= cs.len(),
    ensures
        match r {
            Some(p) => lo <= p <= hi && strip_prefix_ci(cs@.subrange(lo as int, hi as int), prefix@)
                == Some(cs@.subrange(p as int, hi as int)),
            None => strip_prefix_ci(cs@.subrange(lo as int, hi as int), prefix@) is None,
        },
{
    let ghost line = cs@.subrange(lo as int, hi as int);
    if prefix.len() <= hi - lo {
        proof {
            assert(line.take(prefix@.len() as int) =~= cs@.subrange(lo as int, lo + prefix@.len()));
            assert(prefix@.subrange(0, prefix@.len() as int) =~= prefix@);
            assert(line.skip(prefix@.len() as int) =~= cs@.subrange(lo + prefix@.len(), hi as int));
        }
        if eq_ignore_ascii_case_range(cs, lo, lo + prefix.len(), prefix, 0, prefix.len()) {
            return Some(lo + prefix.len());
        }
    }
    None
}

/// The section opened by the trimmed line `cs[lo..hi]`, if it is a header.
fn parse_section(cs: &[char], lo: usize, hi: usize) -> (r: Option<Section>)
    requires
        lo <= hi <= cs.len(),
    ensures
        r == section_of(cs@.subrange(lo as int, hi as int)),
{
    let ghost line = cs@.subrange(lo as int, hi as int);
    if hi - lo >= 2 && cs[lo] == '[' && cs[hi - 1] == ']' {
        let (a, b) = trim_range(cs, lo + 1, hi - 1);
        proof {
            assert(line.subrange(1, line.len() - 1) =~= cs@.subrange(lo + 1, hi - 1));
        }
        let v4p = chars_of("V4+ Styles");
        let v4 = chars_of("V4 Styles");
        let ev = chars_of("Events");
        proof {
            assert(v4p@.subrange(0, v4p@.len() as int) =~= v4p@);
            assert(v4@.subrange(0, v4@.len() as int) =~= v4@);
            assert(ev@.subrange(0, ev@.len() as int) =~= ev@);
        }
        if eq_ignore_ascii_case_range(cs, a, b, v4p.as_slice(), 0, v4p.len())
            || eq_ignore_ascii_case_range(cs, a, b, v4.as_slice(), 0, v4.len()) {
            Some(Section::Styles)
        } else if eq_ignore_ascii_case_range(cs, a, b, ev.as_slice(), 0, ev.len()) {
            Some(Section::Events)
        } else {
            Some(Section::Other)
        }
    } else {
        None
    }
}

/// The reader's state while going through a script.
struct Reader {
    section: Section,
    style_format: Option<StyleFormat>,
    event_format: Option<EventFormat>,
    document: AssDocument,
}

spec fn reader_view(r: Reader) -> ParseState {
    ParseState {
        section: r.section,
        style_format: r.style_format,
        event_format: r.event_format,
        styles: r.document.styles_view(),
        dialogues: r.document.dialogues_view(),
    }
}

/// Reads the line `cs[lo..hi]` (before trimming).
fn read_line(reader: &mut Reader, cs: &[char], lo: usize, hi: usize)
    requires
        lo <= hi <= cs.len(),
    ensures
        reader_view(*final(reader)) == step(reader_view(*old(reader)), cs@.subrange(lo as int, hi as int)),
{
    let ghost st = reader_view(*reader);
    let (a, b) = trim_range(cs, lo, hi);
    if let Some(section) = parse_section(cs, a, b) {
        reader.section = section;
        return;
    }
    let format_label = chars_of("Format:");
    match reader.section {
        Section::Styles => {
            if let Some(rest) = strip_prefix_ci_exec(cs, a, b, format_label.as_slice()) {
                reader.style_format = parse_style_format(cs, rest, b);
                return;
            }
            let style_label = chars_of("Style:");
            if let Some(rest) = strip_prefix_ci_exec(cs, a, b, style_label.as_slice()) {
                if let Some(format) = reader.style_format {
                    if let Some(style) = parse_style_line(cs, rest, b, format) {
                        let ghost sv = style_view(style);
                        reader.document.styles.push(style);
                        proof {
                            assert(reader.document.styles_view() =~= st.styles.push(sv));
                        }
                    }
                }
            }
        },
        Section::Events => {
            if let Some(rest) = strip_prefix_ci_exec(cs, a, b, format_label.as_slice()) {
                reader.event_format = parse_event_format(cs, rest, b);
                return;
            }
            let dialogue_label = chars_of("Dialogue:");
            if let Some(rest) = strip_prefix_ci_exec(cs, a, b, dialogue_label.as_slice()) {
                if let Some(format) = reader.event_format {
                    if let Some(d) = parse_dialogue_line(cs, rest, b, format) {
                        let ghost dv = dialogue_view(d);
                        reader.document.dialogues.push(d);
                        proof {
                            assert(reader.document.dialogues_view() =~= st.dialogues.push(dv));
                        }
                    }
                }
            }
        },
        Section::Other => {},
    }
}

/// Reads the styles and dialogue lines of an ASS/SSA script.
pub fn parse_ass(text: &str) -> (doc: AssDocument)
    ensures
        doc.styles_view() == parse_ass_spec(text@).styles,
        doc.dialogues_view() == parse_ass_spec(text@).dialogues,
{
    let cs = chars_of(text);
    let n = cs.len();
    let mut reader = Reader {
        section: Section::Other,
        style_format: None,
        event_format: None,
        document: AssDocument { styles: Vec::new(), dialogues: Vec::new() },
    };
    proof {
        assert(reader_view(reader) == initial_state()) by {
            assert(reader.document.styles_view() =~= Seq::<StyleView>::empty());
            assert(reader.document.dialogues_view() =~= Seq::<DialogueView>::empty());
        }
        assert(cs@.subrange(0, n as int) =~= text@);
    }
    let mut pos: usize = 0;
    while pos < n
        invariant
            pos <= n == cs@.len(),
            cs@ == text@,
            parse_ass_spec(text@) == read_lines(
                reader_view(reader),
                lines_of(cs@.subrange(pos as int, n as int)),
            ),
        decreases n - pos,
    {
        let ghost rest = cs@.subrange(pos as int, n as int);
        match find_char_in(cs.as_slice(), pos, n, '\n') {
            Some(nl) => {
                let end = if nl > pos && cs[nl - 1] == '\r' {
                    nl - 1
                } else {
                    nl
                };
                proof {
                    assert(rest.take(nl - pos) =~= cs@.subrange(pos as int, nl as int));
                    assert(strip_cr(rest.take(nl - pos)) =~= cs@.subrange(pos as int, end as int));
                    assert(rest.skip(nl - pos + 1) =~= cs@.subrange(nl + 1, n as int));
                }
                let ghost before = reader_view(reader);
                read_line(&mut reader, cs.as_slice(), pos, end);
                proof {
                    let line = strip_cr(rest.take(nl - pos));
                    let tail = lines_of(cs@.subrange(nl + 1, n as int));
                    assert(lines_of(rest) == seq![line] + tail);
                    assert((seq![line] + tail)[0] == line);
                    assert((seq![line] + tail).drop_first() =~= tail);
                }
                pos = nl + 1;
            },
            None => {
                read_line(&mut reader, cs.as_slice(), pos, n);
                proof {
                    let lines = lines_of(rest);
                    assert(lines =~= seq![rest]);
                    assert(lines.drop_first() =~= Seq::<Seq<char>>::empty());
                    assert(lines_of(cs@.subrange(n as int, n as int)) =~= Seq::<Seq<char>>::empty());
                }
                pos = n;
            },
        }
    }
    proof {
        assert(lines_of(cs@.subrange(n as int, n as int)) =~= Seq::<Seq<char>>::empty());
    }
    reader.document
}


// ---------------------------------------------------------------------------
// Laws
// ---------------------------------------------------------------------------

/// The lines of `a` when a line break follows it: as `lines_of`, but the
/// last line always ends (it may be empty, and loses a final `\r`).
pub open spec fn lines_nl(a: Seq<char>) -> Seq<Seq<char>>
    decreases a.len(),
{
    match find_char(a, '\n') {
        None => seq![strip_cr(a)],
        Some(i) => if 0 <= i < a.len() {
            seq![strip_cr(a.take(i))] + lines_nl(a.skip(i + 1))
        } else {
            seq![]
        },
    }
}

/// Every line break turned into a carriage return and a line break, as
/// `text.replace('\n', "\r\n")` does.
pub open spec fn lf_to_crlf(s: Seq<char>) -> Seq<char>
    decreases s.len(),
{
    if s.len() == 0 {
        seq![]
    } else {
        (if s[0] == '\n' {
            seq!['\r', '\n']
        } else {
            seq![s[0]]
        }) + lf_to_crlf(s.drop_first())
    }
}

proof fn lemma_strip_cr_trim(x: Seq<char>)
    ensures
        trim_seq(strip_cr(x)) == trim_seq(x),
{
    if x.len() > 0 && x.last() == '\r' {
        assert(is_white_space('\r'));
        lemma_trim_drop_last_white(x);
    }
}

proof fn lemma_lines_split(a: Seq<char>, b: Seq<char>)
    ensures
        lines_of(a + seq!['\n'] + b) == lines_nl(a) + lines_of(b),
    decreases a.len(),
{
    let s = a + seq!['\n'] + b;
    lemma_find_char(a, '\n');
    match find_char(a, '\n') {
        None => {
            assert forall|j: int| 0 <= j < a.len() implies s[j] != '\n' by {
                assert(s[j] == a[j]);
            }
            lemma_find_char_at(s, '\n', a.len() as int);
            assert(s.take(a.len() as int) =~= a);
            assert(s.skip(a.len() as int + 1) =~= b);
            assert(lines_of(s) =~= lines_nl(a) + lines_of(b));
        },
        Some(i) => {
            assert forall|j: int| 0 <= j < i implies s[j] != '\n' by {
                assert(s[j] == a[j]);
            }
            assert(s[i] == a[i]);
            lemma_find_char_at(s, '\n', i);
            assert(s.take(i) =~= a.take(i));
            assert(s.skip(i + 1) =~= a.skip(i + 1) + seq!['\n'] + b);
            lemma_lines_split(a.skip(i + 1), b);
            assert(lines_of(s) =~= lines_nl(a) + lines_of(b));
        },
    }
}

proof fn lemma_read_lines_append(st: ParseState, x: Seq<Seq<char>>, y: Seq<Seq<char>>)
    ensures
        read_lines(st, x + y) == read_lines(read_lines(st, x), y),
    decreases x.len(),
{
    if x.len() == 0 {
        assert(x + y =~= y);
    } else {
        assert((x + y)[0] == x[0]);
        assert((x + y).drop_first() =~= x.drop_first() + y);
        lemma_read_lines_append(step(st, x[0]), x.drop_first(), y);
    }
}

/// Lines that agree once trimmed are read alike.
proof fn lemma_read_lines_trimmed(st: ParseState, x: Seq<Seq<char>>, y: Seq<Seq<char>>)
    requires
        x.len() == y.len(),
        forall|i: int| 0 <= i < x.len() ==> trim_seq(#[trigger] x[i]) == trim_seq(y[i]),
    ensures
        read_lines(st, x) == read_lines(st, y),
    decreases x.len(),
{
    if x.len() > 0 {
        assert(trim_seq(x[0]) == trim_seq(y[0]));
        assert(step(st, x[0]) == step(st, y[0]));
        assert forall|i: int| 0 <= i < x.drop_first().len() implies trim_seq(#[trigger] x.drop_first()[i])
            == trim_seq(y.drop_first()[i]) by {
            assert(x.drop_first()[i] == x[i + 1]);
            assert(y.drop_first()[i] == y[i + 1]);
        }
        lemma_read_lines_trimmed(step(st, x[0]), x.drop_first(), y.drop_first());
    }
}

proof fn lemma_step_empty(st: ParseState)
    ensures
        step(st, seq![]) == st,
{
    let e = Seq::<char>::empty();
    reveal_strlit("Format:");
    reveal_strlit("Style:");
    reveal_strlit("Dialogue:");
    assert(trim_start_seq(e) == e);
    assert(trim_end_seq(e) == e);
    assert(trim_seq(e) == e);
}

/// Ending the text with a line break changes nothing that is read.
proof fn lemma_read_lines_nl(st: ParseState, a: Seq<char>)
    ensures
        read_lines(st, lines_nl(a)) == read_lines(st, lines_of(a)),
    decreases a.len(),
{
    lemma_find_char(a, '\n');
    if a.len() == 0 {
        assert(find_char(a, '\n') is None);
        assert(strip_cr(a) =~= a);
        assert(a =~= Seq::<char>::empty());
        lemma_step_empty(st);
        assert(lines_nl(a).drop_first() =~= Seq::<Seq<char>>::empty());
        assert(read_lines(step(st, lines_nl(a)[0]), lines_nl(a).drop_first()) == step(st, a));
    } else {
        match find_char(a, '\n') {
            None => {
                lemma_strip_cr_trim(a);
                assert(lines_nl(a).drop_first() =~= Seq::<Seq<char>>::empty());
                assert(lines_of(a).drop_first() =~= Seq::<Seq<char>>::empty());
                assert(step(st, strip_cr(a)) == step(st, a));
            },
            Some(i) => {
                let h = strip_cr(a.take(i));
                assert(lines_nl(a)[0] == h);
                assert(lines_of(a)[0] == h);
                assert(lines_nl(a).drop_first() =~= lines_nl(a.skip(i + 1)));
                assert(lines_of(a).drop_first() =~= lines_of(a.skip(i + 1)));
                lemma_read_lines_nl(step(st, h), a.skip(i + 1));
            },
        }
    }
}

/// Lines that open no section leave a state outside the known sections as it is.
proof fn lemma_read_lines_other(st: ParseState, lines: Seq<Seq<char>>)
    requires
        st.section is Other,
        forall|i: int| 0 <= i < lines.len() ==> section_of(trim_seq(#[trigger] lines[i])) is None,
    ensures
        read_lines(st, lines) == st,
    decreases lines.len(),
{
    if lines.len() > 0 {
        assert(section_of(trim_seq(lines[0])) is None);
        assert forall|i: int| 0 <= i < lines.drop_first().len() implies section_of(
            trim_seq(#[trigger] lines.drop_first()[i]),
        ) is None by {
            assert(lines.drop_first()[i] == lines[i + 1]);
        }
        lemma_read_lines_other(st, lines.drop_first());
    }
}

/// Appending a section the reader does not know, whose lines open no other
/// section, leaves the styles and dialogue lines read as they were.
pub proof fn lemma_unknown_section_ignored(text: Seq<char>, junk: Seq<char>)
    requires
        forall|i: int| 0 <= i < lines_of(junk).len() ==> section_of(trim_seq(#[trigger] lines_of(junk)[i])) is None,
    ensures
        parse_ass_spec(text + "\n[Fonts]\n"@ + junk).styles == parse_ass_spec(text).styles,
        parse_ass_spec(text + "\n[Fonts]\n"@ + junk).dialogues == parse_ass_spec(text).dialogues,
{
    reveal_strlit("\n[Fonts]\n");
    reveal_strlit("[Fonts]");
    let head = "[Fonts]"@;
    let rest = head + seq!['\n'] + junk;
    assert(text + "\n[Fonts]\n"@ + junk =~= text + seq!['\n'] + rest);
    lemma_lines_split(text, rest);
    lemma_lines_split(head, junk);
    assert forall|j: int| 0 <= j < head.len() implies head[j] != '\n' by {}
    lemma_find_char_none(head, '\n');
    assert(strip_cr(head) == head);
    assert(lines_nl(head) =~= seq![head]);
    let lines = lines_nl(text) + (seq![head] + lines_of(junk));
    assert(lines_of(text + "\n[Fonts]\n"@ + junk) == lines);
    lemma_read_lines_append(initial_state(), lines_nl(text), seq![head] + lines_of(junk));
    lemma_read_lines_nl(initial_state(), text);
    let p = parse_ass_spec(text);
    assert(read_lines(initial_state(), lines_nl(text)) == p);
    assert(trim_start_seq(head) == head);
    assert(trim_end_seq(head) == head);
    assert(trim_seq(head) == head);
    let name = trim_seq(head.subrange(1, head.len() - 1));
    assert(head.subrange(1, head.len() - 1) =~= "Fonts"@) by {
        reveal_strlit("Fonts");
    }
    assert(section_of(head) == Some(Section::Other)) by {
        reveal_strlit("Fonts");
        reveal_strlit("V4+ Styles");
        reveal_strlit("V4 Styles");
        reveal_strlit("Events");
        let f = "Fonts"@;
        assert(trim_start_seq(f) == f);
        assert(trim_end_seq(f) == f);
        assert(name == f);
        assert(crate::text::ascii_lower_seq(f).len() == 5);
        assert(crate::text::ascii_lower_seq("V4+ Styles"@).len() == 10);
        assert(crate::text::ascii_lower_seq("V4 Styles"@).len() == 9);
        assert(crate::text::ascii_lower_seq("Events"@).len() == 6);
    }
    let q = step(p, head);
    assert(q.styles == p.styles && q.dialogues == p.dialogues && q.section is Other);
    assert((seq![head] + lines_of(junk))[0] == head);
    assert((seq![head] + lines_of(junk)).drop_first() =~= lines_of(junk));
    lemma_read_lines_other(q, lines_of(junk));
}

proof fn lemma_crlf_append(a: Seq<char>, b: Seq<char>)
    ensures
        lf_to_crlf(a + b) == lf_to_crlf(a) + lf_to_crlf(b),
    decreases a.len(),
{
    if a.len() == 0 {
        assert(a + b =~= b);
        assert(lf_to_crlf(a) =~= Seq::<char>::empty());
        assert(lf_to_crlf(a) + lf_to_crlf(b) =~= lf_to_crlf(b));
    } else {
        assert((a + b)[0] == a[0]);
        assert((a + b).drop_first() =~= a.drop_first() + b);
        lemma_crlf_append(a.drop_first(), b);
        let h = if a[0] == '\n' { seq!['\r', '\n'] } else { seq![a[0]] };
        assert(lf_to_crlf(a + b) =~= h + (lf_to_crlf(a.drop_first()) + lf_to_crlf(b)));
        assert(lf_to_crlf(a) =~= h + lf_to_crlf(a.drop_first()));
    }
}

proof fn lemma_crlf_no_lf(a: Seq<char>)
    requires
        forall|j: int| 0 <= j < a.len() ==> a[j] != '\n',
    ensures
        lf_to_crlf(a) == a,
    decreases a.len(),
{
    if a.len() > 0 {
        assert forall|j: int| 0 <= j < a.drop_first().len() implies a.drop_first()[j] != '\n' by {
            assert(a.drop_first()[j] == a[j + 1]);
        }
        lemma_crlf_no_lf(a.drop_first());
        assert(seq![a[0]] + a.drop_first() =~= a);
    }
}

proof fn lemma_lines_crlf(s: Seq<char>)
    ensures
        lines_of(lf_to_crlf(s)).len() == lines_of(s).len(),
        forall|i: int|
            0 <= i < lines_of(s).len() ==> trim_seq(#[trigger] lines_of(lf_to_crlf(s))[i]) == trim_seq(
                lines_of(s)[i],
            ),
    decreases s.len(),
{
    lemma_find_char(s, '\n');
    if s.len() > 0 {
        match find_char(s, '\n') {
            None => {
                lemma_crlf_no_lf(s);
            },
            Some(i) => {
                let a = s.take(i);
                let rest = s.skip(i + 1);
                assert(s =~= a + (seq!['\n'] + rest));
                lemma_crlf_append(a, seq!['\n'] + rest);
                lemma_crlf_append(seq!['\n'], rest);
                assert forall|j: int| 0 <= j < a.len() implies a[j] != '\n' by {}
                lemma_crlf_no_lf(a);
                assert(lf_to_crlf(seq!['\n']) =~= seq!['\r', '\n']) by {
                    let one = seq!['\n'];
                    assert(one.drop_first() =~= Seq::<char>::empty());
                    assert(lf_to_crlf(one.drop_first()) =~= Seq::<char>::empty());
                    assert(one[0] == '\n');
                }
                let a2 = a.push('\r');
                assert(lf_to_crlf(s) =~= a2 + seq!['\n'] + lf_to_crlf(rest));
                lemma_lines_split(a2, lf_to_crlf(rest));
                assert forall|j: int| 0 <= j < a2.len() implies a2[j] != '\n' by {}
                lemma_find_char_none(a2, '\n');
                assert(strip_cr(a2) =~= a);
                assert(lines_nl(a2) =~= seq![a]);
                lemma_lines_crlf(rest);
                lemma_strip_cr_trim(a);
                let l1 = lines_of(lf_to_crlf(s));
                let l0 = lines_of(s);
                assert(l1 =~= seq![a] + lines_of(lf_to_crlf(rest)));
                assert(l0 =~= seq![strip_cr(a)] + lines_of(rest));
                assert forall|k: int| 0 <= k < l0.len() implies trim_seq(#[trigger] l1[k]) == trim_seq(l0[k]) by {
                    if k > 0 {
                        assert(l1[k] == lines_of(lf_to_crlf(rest))[k - 1]);
                        assert(l0[k] == lines_of(rest)[k - 1]);
                    }
                }
            },
        }
    }
}

/// Writing every line break as a carriage return and a line break changes
/// nothing that is read.
pub proof fn lemma_crlf_ignored(text: Seq<char>)
    ensures
        parse_ass_spec(lf_to_crlf(text)) == parse_ass_spec(text),
{
    lemma_lines_crlf(text);
    lemma_read_lines_trimmed(initial_state(), lines_of(lf_to_crlf(text)), lines_of(text));
}


/// A header line `[name]` (white space around the line and the name
/// ignored) whose name is `V4+ Styles` or `V4 Styles`, ASCII case ignored,
/// opens the styles section, whatever section came before; `Events` opens
/// the events section. Nothing else changes.
pub proof fn lemma_section_header(st: ParseState, raw: Seq<char>, n: Seq<char>)
    requires
        trim_seq(raw) == seq!['['] + n + seq![']'],
    ensures
        (eq_ignore_ascii_case_seq(trim_seq(n), "V4 Styles"@) || eq_ignore_ascii_case_seq(trim_seq(n), "V4+ Styles"@))
            ==> step(st, raw) == (ParseState { section: Section::Styles, ..st }),
        eq_ignore_ascii_case_seq(trim_seq(n), "Events"@) ==> step(st, raw) == (ParseState {
            section: Section::Events,
            ..st
        }),
{
    let line = trim_seq(raw);
    assert(line.len() >= 2);
    assert(line[0] == '[');
    assert(line.last() == ']');
    assert(line.subrange(1, line.len() - 1) =~= n);
    reveal_strlit("Events");
    reveal_strlit("V4 Styles");
    reveal_strlit("V4+ Styles");
    let name = trim_seq(n);
    assert(crate::text::ascii_lower_seq(name).len() == name.len());
    assert(crate::text::ascii_lower_seq("Events"@).len() == 6);
    assert(crate::text::ascii_lower_seq("V4 Styles"@).len() == 9);
    assert(crate::text::ascii_lower_seq("V4+ Styles"@).len() == 10);
}

/// An SSA script's `[V4 Styles]` header reads as the `[V4+ Styles]` header
/// of an ASS script: replacing one by the other anywhere changes nothing
/// that is read.
pub proof fn lemma_ssa_styles_header(pre: Seq<char>, rest: Seq<char>)
    ensures
        parse_ass_spec(pre + "\n[V4 Styles]\n"@ + rest) == parse_ass_spec(pre + "\n[V4+ Styles]\n"@ + rest),
{
    reveal_strlit("\n[V4 Styles]\n");
    reveal_strlit("\n[V4+ Styles]\n");
    reveal_strlit("[V4 Styles]");
    reveal_strlit("[V4+ Styles]");
    reveal_strlit("V4 Styles");
    reveal_strlit("V4+ Styles");
    let h1 = "[V4 Styles]"@;
    let h2 = "[V4+ Styles]"@;
    assert(pre + "\n[V4 Styles]\n"@ + rest =~= pre + seq!['\n'] + (h1 + seq!['\n'] + rest));
    assert(pre + "\n[V4+ Styles]\n"@ + rest =~= pre + seq!['\n'] + (h2 + seq!['\n'] + rest));
    lemma_lines_split(pre, h1 + seq!['\n'] + rest);
    lemma_lines_split(pre, h2 + seq!['\n'] + rest);
    lemma_lines_split(h1, rest);
    lemma_lines_split(h2, rest);
    assert forall|j: int| 0 <= j < h1.len() implies h1[j] != '\n' by {}
    assert forall|j: int| 0 <= j < h2.len() implies h2[j] != '\n' by {}
    lemma_find_char_none(h1, '\n');
    lemma_find_char_none(h2, '\n');
    assert(strip_cr(h1) == h1);
    assert(strip_cr(h2) == h2);
    assert(lines_nl(h1) =~= seq![h1]);
    assert(lines_nl(h2) =~= seq![h2]);
    let p = read_lines(initial_state(), lines_nl(pre));
    lemma_read_lines_append(initial_state(), lines_nl(pre), seq![h1] + lines_of(rest));
    lemma_read_lines_append(initial_state(), lines_nl(pre), seq![h2] + lines_of(rest));
    assert(trim_start_seq(h1) == h1);
    assert(trim_end_seq(h1) == h1);
    assert(trim_start_seq(h2) == h2);
    assert(trim_end_seq(h2) == h2);
    let n1 = "V4 Styles"@;
    let n2 = "V4+ Styles"@;
    assert(h1 =~= seq!['['] + n1 + seq![']']);
    assert(h2 =~= seq!['['] + n2 + seq![']']);
    assert(trim_start_seq(n1) == n1);
    assert(trim_end_seq(n1) == n1);
    assert(trim_start_seq(n2) == n2);
    assert(trim_end_seq(n2) == n2);
    lemma_section_header(p, h1, n1);
    lemma_section_header(p, h2, n2);
    assert(step(p, h1) == step(p, h2));
    assert((seq![h1] + lines_of(rest))[0] == h1);
    assert((seq![h1] + lines_of(rest)).drop_first() =~= lines_of(rest));
    assert((seq![h2] + lines_of(rest))[0] == h2);
    assert((seq![h2] + lines_of(rest)).drop_first() =~= lines_of(rest));
}

} // verus!
