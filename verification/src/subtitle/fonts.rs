//! Which fonts a script needs.
//!
//! A style declares a font; a dialogue line uses the font of its style, and
//! its override blocks may name a font directly (`\fn<name>`) or switch to
//! another style (`\r<style>`, or `\r` alone for the line's own style). A
//! style that is referred to but not declared is reported as missing, and
//! the `Default` style's font stands in for it when there is one.
//!
//! Font and style names are compared without regard to ASCII case, and the
//! sets keep the first spelling they saw.

use vstd::prelude::*;

use crate::name_set::{ci_distinct_set, ci_member, insert_ci, NameSet};
use crate::subtitle::encoding::{decode_subtitle_bytes, subtitle_text_of, SubtitleDecodeError};
use crate::subtitle::ass::{parse_ass, parse_ass_spec, DialogueView, StyleView};
use crate::text::{
    chars_equal, is_trimmed, lemma_trim_is_trimmed, lemma_find_char_at,
    ascii_lower_seq, chars_of, copy_range, eq_ignore_ascii_case_range, eq_ignore_ascii_case_seq,
    find_char, find_char_in, path_eq, path_equal, path_less, path_lt, path_keys, string_of,
    string_of_range, to_ascii_lowercase_range, trim_range, trim_seq, trim_start_range,
    trim_start_seq, lemma_lex_total, lemma_lex_transitive, lemma_lex_asymmetric,
    lemma_lex_irreflexive,
};

verus! {

// ---------------------------------------------------------------------------
// Specification
// ---------------------------------------------------------------------------

/// The font sets of one script, or of several taken together.
pub struct UsageModel {
    pub declared: Set<Seq<char>>,
    pub required: Set<Seq<char>>,
    pub unused: Set<Seq<char>>,
    pub inline: Set<Seq<char>>,
    pub missing: Set<Seq<char>>,
}

/// The analysis state: the font sets and the font of each style, keyed by
/// the style's lower-cased name.
pub struct AnalysisModel {
    pub usage: UsageModel,
    pub fonts: Map<Seq<char>, Seq<char>>,
}

/// A font name from a style or an override tag: trimmed, one leading `@`
/// (the vertical-writing marker) removed; `None` when nothing is left.
pub open spec fn font_name_of(value: Seq<char>) -> Option<Seq<char>> {
    let t = trim_seq(value);
    let u = if t.len() > 0 && t[0] == '@' {
        trim_start_seq(t.drop_first())
    } else {
        t
    };
    let w = trim_seq(u);
    if w.len() == 0 {
        None
    } else {
        Some(w)
    }
}

/// How a style is looked up: trimmed and ASCII lower-cased.
pub open spec fn style_key(name: Seq<char>) -> Seq<char> {
    ascii_lower_seq(trim_seq(name))
}

pub open spec fn empty_usage() -> UsageModel {
    UsageModel {
        declared: Set::empty(),
        required: Set::empty(),
        unused: Set::empty(),
        inline: Set::empty(),
        missing: Set::empty(),
    }
}

pub open spec fn empty_analysis() -> AnalysisModel {
    AnalysisModel { usage: empty_usage(), fonts: Map::empty() }
}

/// Taking note of one declared style.
pub open spec fn declare_style(a: AnalysisModel, style: StyleView) -> AnalysisModel {
    match font_name_of(style.1) {
        None => a,
        Some(font) => AnalysisModel {
            usage: UsageModel { declared: insert_ci(a.usage.declared, font), ..a.usage },
            fonts: a.fonts.insert(style_key(style.0), font),
        },
    }
}

pub open spec fn declare_styles(a: AnalysisModel, styles: Seq<StyleView>) -> AnalysisModel
    decreases styles.len(),
{
    if styles.len() == 0 {
        a
    } else {
        declare_styles(declare_style(a, styles[0]), styles.drop_first())
    }
}

/// A dialogue line, or an override tag, refers to a style.
pub open spec fn use_style(a: AnalysisModel, name: Seq<char>) -> AnalysisModel {
    let n = trim_seq(name);
    let key = ascii_lower_seq(n);
    if n.len() == 0 {
        a
    } else if a.fonts.contains_key(key) {
        AnalysisModel {
            usage: UsageModel { required: insert_ci(a.usage.required, a.fonts[key]), ..a.usage },
            ..a
        }
    } else {
        let missing = insert_ci(a.usage.missing, n);
        let required = if a.fonts.contains_key("default"@) {
            insert_ci(a.usage.required, a.fonts["default"@])
        } else {
            a.usage.required
        };
        AnalysisModel { usage: UsageModel { missing, required, ..a.usage }, ..a }
    }
}

/// An override tag names a font.
pub open spec fn use_inline_font(a: AnalysisModel, arg: Seq<char>) -> AnalysisModel {
    match font_name_of(arg) {
        Some(font) => AnalysisModel {
            usage: UsageModel {
                inline: insert_ci(a.usage.inline, font),
                required: insert_ci(a.usage.required, font),
                ..a.usage
            },
            ..a
        },
        None => a,
    }
}

/// The override tags that matter here.
pub enum Tag {
    /// `\fn<name>`
    Font(Seq<char>),
    /// `\r<style>`
    Reset(Seq<char>),
}

/// Does `s` start with `prefix`, ASCII case ignored?
pub open spec fn starts_with_ci(s: Seq<char>, prefix: Seq<char>) -> bool {
    prefix.len() <= s.len() && eq_ignore_ascii_case_seq(s.take(prefix.len() as int), prefix)
}

/// How many characters of `s` a tag argument takes: up to the next `\`.
pub open spec fn argument_len(s: Seq<char>) -> int {
    match find_char(s, '\\') {
        Some(i) => if 0 <= i <= s.len() {
            i
        } else {
            s.len() as int
        },
        None => s.len() as int,
    }
}

/// The tags of an override block (the text between `{` and `}`).
pub open spec fn block_tags(b: Seq<char>) -> Seq<Tag>
    decreases b.len(),
{
    match find_char(b, '\\') {
        None => seq![],
        Some(k) => if 0 <= k < b.len() {
            let cmd = b.skip(k + 1);
            if starts_with_ci(cmd, "fn"@) && cmd.len() >= 2 {
                let rest = cmd.skip(2);
                let n = argument_len(rest);
                if 0 <= n <= rest.len() {
                    seq![Tag::Font(rest.take(n))] + block_tags(rest.skip(n))
                } else {
                    seq![]
                }
            } else if starts_with_ci(cmd, "r"@) && cmd.len() >= 1 {
                let rest = cmd.skip(1);
                let n = argument_len(rest);
                if 0 <= n <= rest.len() {
                    seq![Tag::Reset(rest.take(n))] + block_tags(rest.skip(n))
                } else {
                    seq![]
                }
            } else {
                block_tags(cmd)
            }
        } else {
            seq![]
        },
    }
}

/// The override blocks of a dialogue text: each `{` with a later `}`.
pub open spec fn override_blocks(t: Seq<char>) -> Seq<Seq<char>>
    decreases t.len(),
{
    match find_char(t, '{') {
        None => seq![],
        Some(o) => if 0 <= o < t.len() {
            let after = t.skip(o + 1);
            match find_char(after, '}') {
                None => seq![],
                Some(c) => if 0 <= c < after.len() {
                    seq![after.take(c)] + override_blocks(after.skip(c + 1))
                } else {
                    seq![]
                },
            }
        } else {
            seq![]
        },
    }
}

pub open spec fn apply_tag(a: AnalysisModel, style: Seq<char>, tag: Tag) -> AnalysisModel {
    match tag {
        Tag::Font(arg) => use_inline_font(a, arg),
        Tag::Reset(arg) => if trim_seq(arg).len() == 0 {
            use_style(a, style)
        } else {
            use_style(a, arg)
        },
    }
}

pub open spec fn apply_tags(a: AnalysisModel, style: Seq<char>, tags: Seq<Tag>) -> AnalysisModel
    decreases tags.len(),
{
    if tags.len() == 0 {
        a
    } else {
        apply_tags(apply_tag(a, style, tags[0]), style, tags.drop_first())
    }
}

pub open spec fn apply_blocks(a: AnalysisModel, style: Seq<char>, blocks: Seq<Seq<char>>) -> AnalysisModel
    decreases blocks.len(),
{
    if blocks.len() == 0 {
        a
    } else {
        apply_blocks(apply_tags(a, style, block_tags(blocks[0])), style, blocks.drop_first())
    }
}

/// One dialogue line: its style, then the tags of its override blocks.
pub open spec fn apply_dialogue(a: AnalysisModel, d: DialogueView) -> AnalysisModel {
    apply_blocks(use_style(a, d.0), d.0, override_blocks(d.1))
}

pub open spec fn apply_dialogues(a: AnalysisModel, ds: Seq<DialogueView>) -> AnalysisModel
    decreases ds.len(),
{
    if ds.len() == 0 {
        a
    } else {
        apply_dialogues(apply_dialogue(a, ds[0]), ds.drop_first())
    }
}

/// Declared fonts that no required font matches, ASCII case ignored.
pub open spec fn unused_fonts(declared: Set<Seq<char>>, required: Set<Seq<char>>) -> Set<Seq<char>> {
    declared.filter(|f: Seq<char>| !ci_member(required, f))
}

/// The font usage of a script.
pub open spec fn usage_of_text(text: Seq<char>) -> UsageModel {
    let doc = parse_ass_spec(text);
    let a = apply_dialogues(declare_styles(empty_analysis(), doc.styles), doc.dialogues);
    UsageModel { unused: unused_fonts(a.usage.declared, a.usage.required), ..a.usage }
}



// ---------------------------------------------------------------------------
// Laws
// ---------------------------------------------------------------------------

/// Every member of `s` is a non-empty name without surrounding white space.
pub open spec fn clean_names(s: Set<Seq<char>>) -> bool {
    forall|x: Seq<char>| #[trigger] s.contains(x) ==> x.len() > 0 && is_trimmed(x)
}

/// Every member of `sub` has a member of `sup` equal to it ignoring ASCII case.
pub open spec fn ci_subset(sub: Set<Seq<char>>, sup: Set<Seq<char>>) -> bool {
    forall|x: Seq<char>| #[trigger] sub.contains(x) ==> ci_member(sup, x)
}

spec fn model_ok(a: AnalysisModel) -> bool {
    &&& clean_names(a.usage.declared)
    &&& clean_names(a.usage.required)
    &&& clean_names(a.usage.inline)
    &&& clean_names(a.usage.missing)
    &&& forall|k: Seq<char>|
        a.fonts.contains_key(k) ==> (#[trigger] a.fonts[k]).len() > 0 && is_trimmed(a.fonts[k])
    &&& ci_subset(a.usage.inline, a.usage.required)
    &&& ci_distinct_set(a.usage.declared)
    &&& ci_distinct_set(a.usage.required)
    &&& ci_distinct_set(a.usage.inline)
    &&& ci_distinct_set(a.usage.missing)
}

proof fn lemma_insert_distinct(s: Set<Seq<char>>, v: Seq<char>)
    requires
        ci_distinct_set(s),
    ensures
        ci_distinct_set(insert_ci(s, v)),
{
    if !ci_member(s, v) {
        let t = s.insert(v);
        assert forall|x: Seq<char>, y: Seq<char>|
            t.contains(x) && t.contains(y) && eq_ignore_ascii_case_seq(x, y) implies x == y by {
            if x == v && y != v {
                assert(s.contains(y) && eq_ignore_ascii_case_seq(y, v));
            } else if y == v && x != v {
                assert(s.contains(x) && eq_ignore_ascii_case_seq(x, v));
            }
        }
    }
}

proof fn lemma_insert_ci(s: Set<Seq<char>>, v: Seq<char>)
    ensures
        ci_member(insert_ci(s, v), v),
        forall|x: Seq<char>| s.contains(x) ==> insert_ci(s, v).contains(x),
        forall|x: Seq<char>| #[trigger] insert_ci(s, v).contains(x) ==> s.contains(x) || x == v,
{
    if !ci_member(s, v) {
        assert(insert_ci(s, v).contains(v));
    }
}

proof fn lemma_ci_member_grows(s: Set<Seq<char>>, t: Set<Seq<char>>, v: Seq<char>)
    requires
        ci_member(s, v),
        forall|x: Seq<char>| s.contains(x) ==> t.contains(x),
    ensures
        ci_member(t, v),
{
    let x = choose|x: Seq<char>| s.contains(x) && eq_ignore_ascii_case_seq(x, v);
    assert(t.contains(x));
}

proof fn lemma_font_name_clean(value: Seq<char>)
    ensures
        font_name_of(value) matches Some(w) ==> w.len() > 0 && is_trimmed(w),
{
    let t = trim_seq(value);
    let u = if t.len() > 0 && t[0] == '@' {
        trim_start_seq(t.drop_first())
    } else {
        t
    };
    lemma_trim_is_trimmed(u);
}

proof fn lemma_insert_clean(s: Set<Seq<char>>, v: Seq<char>)
    requires
        clean_names(s),
        v.len() > 0,
        is_trimmed(v),
    ensures
        clean_names(insert_ci(s, v)),
{
    lemma_insert_ci(s, v);
    assert forall|x: Seq<char>| insert_ci(s, v).contains(x) implies x.len() > 0 && is_trimmed(x) by {
        if x != v {
            assert(s.contains(x));
        }
    }
}

proof fn lemma_use_style_ok(a: AnalysisModel, name: Seq<char>)
    requires
        model_ok(a),
    ensures
        model_ok(use_style(a, name)),
{
    let n = trim_seq(name);
    let key = ascii_lower_seq(n);
    lemma_trim_is_trimmed(name);
    if n.len() == 0 {
    } else if a.fonts.contains_key(key) {
        lemma_insert_clean(a.usage.required, a.fonts[key]);
        lemma_insert_distinct(a.usage.required, a.fonts[key]);
        lemma_insert_ci(a.usage.required, a.fonts[key]);
        let r = insert_ci(a.usage.required, a.fonts[key]);
        assert forall|x: Seq<char>| a.usage.inline.contains(x) implies ci_member(r, x) by {
            lemma_ci_member_grows(a.usage.required, r, x);
        }
    } else {
        lemma_insert_clean(a.usage.missing, n);
        lemma_insert_distinct(a.usage.missing, n);
        if a.fonts.contains_key("default"@) {
            lemma_insert_clean(a.usage.required, a.fonts["default"@]);
            lemma_insert_distinct(a.usage.required, a.fonts["default"@]);
            lemma_insert_ci(a.usage.required, a.fonts["default"@]);
            let r = insert_ci(a.usage.required, a.fonts["default"@]);
            assert forall|x: Seq<char>| a.usage.inline.contains(x) implies ci_member(r, x) by {
                lemma_ci_member_grows(a.usage.required, r, x);
            }
        }
    }
}

proof fn lemma_inline_ok(a: AnalysisModel, arg: Seq<char>)
    requires
        model_ok(a),
    ensures
        model_ok(use_inline_font(a, arg)),
{
    lemma_font_name_clean(arg);
    if let Some(font) = font_name_of(arg) {
        lemma_insert_clean(a.usage.required, font);
        lemma_insert_distinct(a.usage.required, font);
        lemma_insert_clean(a.usage.inline, font);
        lemma_insert_distinct(a.usage.inline, font);
        lemma_insert_ci(a.usage.required, font);
        lemma_insert_ci(a.usage.inline, font);
        let r = insert_ci(a.usage.required, font);
        let i = insert_ci(a.usage.inline, font);
        assert forall|x: Seq<char>| i.contains(x) implies ci_member(r, x) by {
            if x != font {
                assert(a.usage.inline.contains(x));
                lemma_ci_member_grows(a.usage.required, r, x);
            }
        }
    }
}

proof fn lemma_declare_styles_ok(a: AnalysisModel, styles: Seq<StyleView>)
    requires
        model_ok(a),
    ensures
        model_ok(declare_styles(a, styles)),
    decreases styles.len(),
{
    if styles.len() > 0 {
        let st = styles[0];
        lemma_font_name_clean(st.1);
        if let Some(font) = font_name_of(st.1) {
            lemma_insert_clean(a.usage.declared, font);
            lemma_insert_distinct(a.usage.declared, font);
        }
        lemma_declare_styles_ok(declare_style(a, st), styles.drop_first());
    }
}

proof fn lemma_apply_tags_ok(a: AnalysisModel, style: Seq<char>, tags: Seq<Tag>)
    requires
        model_ok(a),
    ensures
        model_ok(apply_tags(a, style, tags)),
    decreases tags.len(),
{
    if tags.len() > 0 {
        match tags[0] {
            Tag::Font(arg) => lemma_inline_ok(a, arg),
            Tag::Reset(arg) => {
                lemma_use_style_ok(a, style);
                lemma_use_style_ok(a, arg);
            },
        }
        lemma_apply_tags_ok(apply_tag(a, style, tags[0]), style, tags.drop_first());
    }
}

proof fn lemma_apply_blocks_ok(a: AnalysisModel, style: Seq<char>, blocks: Seq<Seq<char>>)
    requires
        model_ok(a),
    ensures
        model_ok(apply_blocks(a, style, blocks)),
    decreases blocks.len(),
{
    if blocks.len() > 0 {
        lemma_apply_tags_ok(a, style, block_tags(blocks[0]));
        lemma_apply_blocks_ok(apply_tags(a, style, block_tags(blocks[0])), style, blocks.drop_first());
    }
}

proof fn lemma_apply_dialogues_ok(a: AnalysisModel, ds: Seq<DialogueView>)
    requires
        model_ok(a),
    ensures
        model_ok(apply_dialogues(a, ds)),
    decreases ds.len(),
{
    if ds.len() > 0 {
        lemma_use_style_ok(a, ds[0].0);
        lemma_apply_blocks_ok(use_style(a, ds[0].0), ds[0].0, override_blocks(ds[0].1));
        lemma_apply_dialogues_ok(apply_dialogue(a, ds[0]), ds.drop_first());
    }
}

/// What holds of the font usage of any script: every declared, required and
/// inline font and every missing style is a non-empty name without
/// surrounding white space; every inline font is among the required fonts
/// (ASCII case ignored); and the declared-but-unused fonts are the declared
/// fonts that no required font matches, so none of them is required.
pub proof fn lemma_usage_laws(text: Seq<char>)
    ensures
        clean_names(usage_of_text(text).declared),
        clean_names(usage_of_text(text).required),
        clean_names(usage_of_text(text).inline),
        clean_names(usage_of_text(text).missing),
        clean_names(usage_of_text(text).unused),
        ci_subset(usage_of_text(text).inline, usage_of_text(text).required),
        forall|x: Seq<char>| #[trigger]
            usage_of_text(text).unused.contains(x) <==> usage_of_text(text).declared.contains(x)
                && !ci_member(usage_of_text(text).required, x),
        ci_distinct_set(usage_of_text(text).declared),
        ci_distinct_set(usage_of_text(text).required),
        ci_distinct_set(usage_of_text(text).inline),
        ci_distinct_set(usage_of_text(text).missing),
        ci_distinct_set(usage_of_text(text).unused),
{
    let doc = parse_ass_spec(text);
    assert(model_ok(empty_analysis()));
    lemma_declare_styles_ok(empty_analysis(), doc.styles);
    lemma_apply_dialogues_ok(declare_styles(empty_analysis(), doc.styles), doc.dialogues);
    let u = usage_of_text(text);
    assert forall|x: Seq<char>| u.unused.contains(x) implies x.len() > 0 && is_trimmed(x) by {
        assert(u.declared.contains(x));
    }
}

/// The font a tag names, when it is a `\fn` tag with a usable name.
pub open spec fn tag_font(t: Tag) -> Option<Seq<char>> {
    match t {
        Tag::Font(arg) => font_name_of(arg),
        Tag::Reset(_) => None,
    }
}

/// The override blocks of a dialogue text are read one after another: the
/// first `{` opens a block that the next `}` closes, and reading goes on
/// after that `}`.
pub proof fn lemma_override_blocks_split(x: Seq<char>, b: Seq<char>, y: Seq<char>)
    requires
        forall|i: int| 0 <= i < x.len() ==> x[i] != '{',
        forall|i: int| 0 <= i < b.len() ==> b[i] != '}',
    ensures
        override_blocks(x + seq!['{'] + b + seq!['}'] + y) == seq![b] + override_blocks(y),
{
    let t = x + seq!['{'] + b + seq!['}'] + y;
    assert forall|i: int| 0 <= i < x.len() implies t[i] != '{' by {
        assert(t[i] == x[i]);
    }
    lemma_find_char_at(t, '{', x.len() as int);
    let after = t.skip(x.len() as int + 1);
    assert(after =~= b + seq!['}'] + y);
    assert forall|i: int| 0 <= i < b.len() implies after[i] != '}' by {
        assert(after[i] == b[i]);
    }
    lemma_find_char_at(after, '}', b.len() as int);
    assert(after.take(b.len() as int) =~= b);
    assert(after.skip(b.len() as int + 1) =~= y);
}

/// A dialogue line whose text is `x{b}y` (no `{` in `x`, no `}` in `b`)
/// uses its style, then the tags of the block `b`, then the blocks of `y`
/// in the same way: every override block of the line is read.
pub proof fn lemma_dialogue_blocks(a: AnalysisModel, style: Seq<char>, x: Seq<char>, b: Seq<char>, y: Seq<char>)
    requires
        forall|i: int| 0 <= i < x.len() ==> x[i] != '{',
        forall|i: int| 0 <= i < b.len() ==> b[i] != '}',
    ensures
        apply_dialogue(a, (style, x + seq!['{'] + b + seq!['}'] + y)) == apply_blocks(
            apply_tags(use_style(a, style), style, block_tags(b)),
            style,
            override_blocks(y),
        ),
{
    lemma_override_blocks_split(x, b, y);
    let blocks = seq![b] + override_blocks(y);
    assert(blocks[0] == b);
    assert(blocks.drop_first() =~= override_blocks(y));
}

/// The inline fonts only grow as a script is read.
pub open spec fn inline_kept(a: AnalysisModel, b: AnalysisModel) -> bool {
    forall|x: Seq<char>| #[trigger] a.usage.inline.contains(x) ==> b.usage.inline.contains(x)
}

proof fn lemma_tag_keeps_inline(a: AnalysisModel, style: Seq<char>, t: Tag)
    ensures
        inline_kept(a, apply_tag(a, style, t)),
        tag_font(t) matches Some(f) ==> ci_member(apply_tag(a, style, t).usage.inline, f),
{
    if let Tag::Font(arg) = t {
        if let Some(f) = font_name_of(arg) {
            lemma_insert_ci(a.usage.inline, f);
        }
    }
}

proof fn lemma_tags_inline(a: AnalysisModel, style: Seq<char>, tags: Seq<Tag>)
    ensures
        inline_kept(a, apply_tags(a, style, tags)),
        forall|i: int| 0 <= i < tags.len() && (#[trigger] tag_font(tags[i])) is Some ==> ci_member(
            apply_tags(a, style, tags).usage.inline,
            tag_font(tags[i])->0,
        ),
    decreases tags.len(),
{
    if tags.len() > 0 {
        let next = apply_tag(a, style, tags[0]);
        lemma_tag_keeps_inline(a, style, tags[0]);
        lemma_tags_inline(next, style, tags.drop_first());
        let fin = apply_tags(a, style, tags);
        assert forall|i: int| 0 <= i < tags.len() && (#[trigger] tag_font(tags[i])) is Some implies ci_member(
            fin.usage.inline,
            tag_font(tags[i])->0,
        ) by {
            if i == 0 {
                lemma_ci_member_grows(next.usage.inline, fin.usage.inline, tag_font(tags[0])->0);
            } else {
                assert(tags.drop_first()[i - 1] == tags[i]);
            }
        }
    }
}

proof fn lemma_blocks_inline(a: AnalysisModel, style: Seq<char>, blocks: Seq<Seq<char>>)
    ensures
        inline_kept(a, apply_blocks(a, style, blocks)),
        forall|m: int, i: int|
            0 <= m < blocks.len() && 0 <= i < block_tags(blocks[m]).len() && (#[trigger] tag_font(
                block_tags(blocks[m])[i],
            )) is Some ==> ci_member(
                apply_blocks(a, style, blocks).usage.inline,
                tag_font(block_tags(blocks[m])[i])->0,
            ),
    decreases blocks.len(),
{
    if blocks.len() > 0 {
        let next = apply_tags(a, style, block_tags(blocks[0]));
        lemma_tags_inline(a, style, block_tags(blocks[0]));
        lemma_blocks_inline(next, style, blocks.drop_first());
        let fin = apply_blocks(a, style, blocks);
        assert forall|m: int, i: int|
            0 <= m < blocks.len() && 0 <= i < block_tags(blocks[m]).len() && (#[trigger] tag_font(
                block_tags(blocks[m])[i],
            )) is Some implies ci_member(fin.usage.inline, tag_font(block_tags(blocks[m])[i])->0) by {
            if m == 0 {
                lemma_ci_member_grows(next.usage.inline, fin.usage.inline, tag_font(block_tags(blocks[0])[i])->0);
            } else {
                assert(blocks.drop_first()[m - 1] == blocks[m]);
            }
        }
    }
}

proof fn lemma_dialogues_inline(a: AnalysisModel, ds: Seq<DialogueView>)
    ensures
        inline_kept(a, apply_dialogues(a, ds)),
        forall|d: int, m: int, i: int|
            0 <= d < ds.len() && 0 <= m < override_blocks(ds[d].1).len() && 0 <= i < block_tags(
                override_blocks(ds[d].1)[m],
            ).len() && (#[trigger] tag_font(block_tags(override_blocks(ds[d].1)[m])[i])) is Some ==> ci_member(
                apply_dialogues(a, ds).usage.inline,
                tag_font(block_tags(override_blocks(ds[d].1)[m])[i])->0,
            ),
    decreases ds.len(),
{
    if ds.len() > 0 {
        let d0 = ds[0];
        let s1 = use_style(a, d0.0);
        let next = apply_dialogue(a, d0);
        assert(inline_kept(a, s1));
        lemma_blocks_inline(s1, d0.0, override_blocks(d0.1));
        lemma_dialogues_inline(next, ds.drop_first());
        let fin = apply_dialogues(a, ds);
        assert forall|d: int, m: int, i: int|
            0 <= d < ds.len() && 0 <= m < override_blocks(ds[d].1).len() && 0 <= i < block_tags(
                override_blocks(ds[d].1)[m],
            ).len() && (#[trigger] tag_font(block_tags(override_blocks(ds[d].1)[m])[i])) is Some implies ci_member(
                fin.usage.inline,
                tag_font(block_tags(override_blocks(ds[d].1)[m])[i])->0,
            ) by {
            if d == 0 {
                lemma_ci_member_grows(
                    next.usage.inline,
                    fin.usage.inline,
                    tag_font(block_tags(override_blocks(ds[0].1)[m])[i])->0,
                );
            } else {
                assert(ds.drop_first()[d - 1] == ds[d]);
            }
        }
    }
}

/// Every font a `\fn` tag names, in any override block of any dialogue line
/// of a script, is among the script's inline fonts (ASCII case ignored).
pub proof fn lemma_inline_fonts_cover_tags(text: Seq<char>)
    ensures
        forall|d: int, m: int, i: int|
            0 <= d < parse_ass_spec(text).dialogues.len() && 0 <= m < override_blocks(
                parse_ass_spec(text).dialogues[d].1,
            ).len() && 0 <= i < block_tags(override_blocks(parse_ass_spec(text).dialogues[d].1)[m]).len()
                && (#[trigger] tag_font(block_tags(override_blocks(parse_ass_spec(text).dialogues[d].1)[m])[i]))
                is Some ==> ci_member(
                usage_of_text(text).inline,
                tag_font(block_tags(override_blocks(parse_ass_spec(text).dialogues[d].1)[m])[i])->0,
            ),
{
    let doc = parse_ass_spec(text);
    lemma_dialogues_inline(declare_styles(empty_analysis(), doc.styles), doc.dialogues);
}

// ---------------------------------------------------------------------------
// Font usage
// ---------------------------------------------------------------------------

/// The fonts one script (or several) declares and needs.
#[derive(Debug, PartialEq, Eq)]
pub struct SubtitleFontUsage {
    /// Fonts that styles declare.
    pub declared_fonts: NameSet,
    /// Fonts that dialogue lines need, through their styles or inline tags.
    pub required_fonts: NameSet,
    /// Declared fonts that nothing needs.
    pub declared_but_unused_fonts: NameSet,
    /// Fonts named by `\fn` tags.
    pub inline_fonts: NameSet,
    /// Styles referred to but not declared.
    pub missing_styles: NameSet,
}

pub open spec fn usage_view(u: SubtitleFontUsage) -> UsageModel {
    UsageModel {
        declared: u.declared_fonts@,
        required: u.required_fonts@,
        unused: u.declared_but_unused_fonts@,
        inline: u.inline_fonts@,
        missing: u.missing_styles@,
    }
}

impl SubtitleFontUsage {
    pub fn new() -> (r: Self)
        ensures
            usage_view(r) == empty_usage(),
    {
        SubtitleFontUsage {
            declared_fonts: NameSet::new(),
            required_fonts: NameSet::new(),
            declared_but_unused_fonts: NameSet::new(),
            inline_fonts: NameSet::new(),
            missing_styles: NameSet::new(),
        }
    }
}

/// The font of each style, keyed by the style's lower-cased name.
struct StyleFonts {
    keys: Vec<Vec<char>>,
    fonts: Vec<String>,
    map: Ghost<Map<Seq<char>, Seq<char>>>,
}

impl StyleFonts {
    spec fn wf(&self) -> bool {
        &&& self.keys.len() == self.fonts.len()
        &&& forall|i: int, j: int|
            0 <= i < self.keys.len() && 0 <= j < self.keys.len() && i != j ==> self.keys@[i]@
                != self.keys@[j]@
        &&& forall|k: Seq<char>|
            self.map@.contains_key(k) <==> exists|i: int|
                0 <= i < self.keys.len() && #[trigger] self.keys@[i]@ == k
        &&& forall|i: int| 0 <= i < self.keys.len() ==> self.map@[#[trigger] self.keys@[i]@] == self.fonts@[i]@
    }

    fn new() -> (r: Self)
        ensures
            r.wf(),
            r.map@ == Map::<Seq<char>, Seq<char>>::empty(),
    {
        StyleFonts { keys: Vec::new(), fonts: Vec::new(), map: Ghost(Map::empty()) }
    }

    fn find(&self, key: &[char]) -> (r: Option<usize>)
        requires
            self.wf(),
        ensures
            match r {
                Some(i) => i < self.keys.len() && self.keys@[i as int]@ == key@,
                None => !self.map@.contains_key(key@),
            },
    {
        let mut i: usize = 0;
        while i < self.keys.len()
            invariant
                self.wf(),
                i <= self.keys.len(),
                forall|j: int| 0 <= j < i ==> self.keys@[j]@ != key@,
            decreases self.keys.len() - i,
        {
            if chars_equal(self.keys[i].as_slice(), key) {
                return Some(i);
            }
            i += 1;
        }
        None
    }

    fn get(&self, key: &[char]) -> (r: Option<String>)
        requires
            self.wf(),
        ensures
            match r {
                Some(f) => self.map@.contains_key(key@) && f@ == self.map@[key@],
                None => !self.map@.contains_key(key@),
            },
    {
        match self.find(key) {
            Some(i) => Some(self.fonts[i].clone()),
            None => None,
        }
    }

    fn insert(&mut self, key: Vec<char>, font: String)
        requires
            old(self).wf(),
        ensures
            final(self).wf(),
            final(self).map@ == old(self).map@.insert(key@, font@),
    {
        let ghost k = key@;
        let ghost f = font@;
        match self.find(key.as_slice()) {
            Some(i) => {
                self.fonts.set(i, font);
                self.map = Ghost(self.map@.insert(k, f));
                proof {
                    assert forall|j: int| 0 <= j < self.keys.len() implies self.map@[
                        #[trigger] self.keys@[j]@] == self.fonts@[j]@ by {
                        if j != i {
                            assert(self.keys@[j]@ != k);
                        }
                    }
                    assert forall|kk: Seq<char>| self.map@.contains_key(kk) implies exists|j: int|
                        0 <= j < self.keys.len() && #[trigger] self.keys@[j]@ == kk by {
                        if kk == k {
                            assert(self.keys@[i as int]@ == kk);
                        } else {
                            assert(old(self).map@.contains_key(kk));
                            let j = choose|j: int|
                                0 <= j < old(self).keys.len() && #[trigger] old(self).keys@[j]@ == kk;
                            assert(self.keys@[j]@ == kk);
                        }
                    }
                }
            },
            None => {
                self.keys.push(key);
                self.fonts.push(font);
                self.map = Ghost(self.map@.insert(k, f));
                proof {
                    let n = self.keys.len() - 1;
                    assert(self.keys@[n as int]@ == k);
                    assert forall|kk: Seq<char>| self.map@.contains_key(kk) implies exists|j: int|
                        0 <= j < self.keys.len() && #[trigger] self.keys@[j]@ == kk by {
                        if kk == k {
                            assert(self.keys@[n as int]@ == kk);
                        } else {
                            let j = choose|j: int| 0 <= j < n && #[trigger] old(self).keys@[j]@ == kk;
                            assert(self.keys@[j]@ == kk);
                        }
                    }
                    assert forall|j: int| 0 <= j < self.keys.len() implies self.map@[
                        #[trigger] self.keys@[j]@] == self.fonts@[j]@ by {
                        if j < n {
                            assert(old(self).keys@[j]@ == self.keys@[j]@);
                            assert(old(self).map@.contains_key(self.keys@[j]@));
                        }
                    }
                    assert forall|a: int, b: int|
                        0 <= a < self.keys.len() && 0 <= b < self.keys.len() && a != b implies self.keys@[a]@
                        != self.keys@[b]@ by {
                        if a == n && b < n {
                            assert(old(self).map@.contains_key(old(self).keys@[b]@));
                        }
                        if b == n && a < n {
                            assert(old(self).map@.contains_key(old(self).keys@[a]@));
                        }
                    }
                }
            },
        }
    }
}

/// The running analysis of one script.
struct Analyzer {
    usage: SubtitleFontUsage,
    fonts: StyleFonts,
}

spec fn analyzer_view(a: Analyzer) -> AnalysisModel {
    AnalysisModel { usage: usage_view(a.usage), fonts: a.fonts.map@ }
}

/// A font name from `value`: trimmed, one leading `@` removed, trimmed again.
fn normalize_font_name(value: &[char]) -> (r: Option<Vec<char>>)
    ensures
        match r {
            Some(v) => font_name_of(value@) == Some(v@),
            None => font_name_of(value@) is None,
        },
{
    proof {
        assert(value@.subrange(0, value@.len() as int) =~= value@);
    }
    let (a, b) = trim_range(value, 0, value.len());
    let t = copy_range(value, a, b);
    let ghost ts = trim_seq(value@);
    assert(t@ == ts);
    let u: Vec<char> = if t.len() > 0 && t[0] == '@' {
        let c0 = trim_start_range(t.as_slice(), 1, t.len());
        proof {
            assert(t@.subrange(1, t@.len() as int) =~= t@.drop_first());
        }
        copy_range(t.as_slice(), c0, t.len())
    } else {
        proof {
            assert(t@.subrange(0, t@.len() as int) =~= t@);
        }
        t
    };
    proof {
        assert(u@.subrange(0, u@.len() as int) =~= u@);
    }
    let (e, f) = trim_range(u.as_slice(), 0, u.len());
    if e == f {
        None
    } else {
        Some(copy_range(u.as_slice(), e, f))
    }
}

/// A dialogue line or an override tag refers to the style `name`.
fn add_style_font(name: &[char], an: &mut Analyzer)
    requires
        old(an).fonts.wf(),
    ensures
        final(an).fonts.wf(),
        analyzer_view(*final(an)) == use_style(analyzer_view(*old(an)), name@),
{
    proof {
        assert(name@.subrange(0, name@.len() as int) =~= name@);
    }
    let (a, b) = trim_range(name, 0, name.len());
    if a == b {
        return;
    }
    let key = to_ascii_lowercase_range(name, a, b);
    match an.fonts.get(key.as_slice()) {
        Some(font) => {
            an.usage.required_fonts.insert_ci(font);
        },
        None => {
            an.usage.missing_styles.insert_ci(string_of_range(name, a, b));
            let default_key = chars_of("default");
            match an.fonts.get(default_key.as_slice()) {
                Some(font) => {
                    an.usage.required_fonts.insert_ci(font);
                },
                None => {},
            }
        },
    }
}

/// An override tag names the font `arg`.
fn add_inline_font(arg: &[char], an: &mut Analyzer)
    requires
        old(an).fonts.wf(),
    ensures
        final(an).fonts.wf(),
        analyzer_view(*final(an)) == use_inline_font(analyzer_view(*old(an)), arg@),
{
    if let Some(font) = normalize_font_name(arg) {
        an.usage.inline_fonts.insert_ci(string_of(font.as_slice()));
        an.usage.required_fonts.insert_ci(string_of(font.as_slice()));
    }
}

/// Applies the tags of the override block `cs[lo..hi]`.
#[verifier::spinoff_prover]
#[verifier::rlimit(40)]
fn parse_override_block(cs: &[char], lo: usize, hi: usize, style: &[char], an: &mut Analyzer)
    requires
        lo <= hi <= cs.len(),
        old(an).fonts.wf(),
    ensures
        final(an).fonts.wf(),
        analyzer_view(*final(an)) == apply_tags(
            analyzer_view(*old(an)),
            style@,
            block_tags(cs@.subrange(lo as int, hi as int)),
        ),
{
    let fn_label = chars_of("fn");
    let r_label = chars_of("r");
    proof {
        reveal_strlit("fn");
        reveal_strlit("r");
        assert(fn_label@.len() == 2);
        assert(r_label@.len() == 1);
        assert(fn_label@.subrange(0, 2) =~= fn_label@);
        assert(r_label@.subrange(0, 1) =~= r_label@);
    }
    let mut index = lo;
    loop
        invariant
            lo <= index <= hi <= cs.len(),
            an.fonts.wf(),
            fn_label@ == "fn"@,
            r_label@ == "r"@,
            fn_label@.len() == 2,
            r_label@.len() == 1,
            fn_label@.subrange(0, 2) == fn_label@,
            r_label@.subrange(0, 1) == r_label@,
            apply_tags(
                analyzer_view(*old(an)),
                style@,
                block_tags(cs@.subrange(lo as int, hi as int)),
            ) == apply_tags(
                analyzer_view(*an),
                style@,
                block_tags(cs@.subrange(index as int, hi as int)),
            ),
        decreases hi - index,
    {
        let ghost b = cs@.subrange(index as int, hi as int);
        let ghost before = analyzer_view(*an);
        let k = match find_char_in(cs, index, hi, '\\') {
            Some(k) => k,
            None => {
                proof {
                    assert(block_tags(b) =~= Seq::<Tag>::empty());
                }
                return;
            },
        };
        let cmd = k + 1;
        proof {
            assert(b.skip(k - index + 1) =~= cs@.subrange(cmd as int, hi as int));
        }
        let ghost cmd_s = cs@.subrange(cmd as int, hi as int);
        let is_fn = hi - cmd >= 2 && eq_ignore_ascii_case_range(
            cs,
            cmd,
            cmd + 2,
            fn_label.as_slice(),
            0,
            2,
        );
        proof {
            if cmd + 2 <= hi {
                assert(cmd_s.take(2) =~= cs@.subrange(cmd as int, cmd + 2));
            }
        }
        if is_fn {
            let arg_lo = cmd + 2;
            let arg_hi = match find_char_in(cs, arg_lo, hi, '\\') {
                Some(e) => e,
                None => hi,
            };
            proof {
                let rest = cmd_s.skip(2);
                assert(rest =~= cs@.subrange(arg_lo as int, hi as int));
                assert(argument_len(rest) == arg_hi - arg_lo);
                assert(rest.take(arg_hi - arg_lo) =~= cs@.subrange(arg_lo as int, arg_hi as int));
                assert(rest.skip(arg_hi - arg_lo) =~= cs@.subrange(arg_hi as int, hi as int));
            }
            let arg = copy_range(cs, arg_lo, arg_hi);
            add_inline_font(arg.as_slice(), an);
            proof {
                let t = Tag::Font(arg@);
                let tail = block_tags(cs@.subrange(arg_hi as int, hi as int));
                assert(block_tags(b) == seq![t] + tail);
                assert((seq![t] + tail)[0] == t);
                assert((seq![t] + tail).drop_first() =~= tail);
            }
            index = arg_hi;
            continue;
        }
        let is_r = hi - cmd >= 1 && eq_ignore_ascii_case_range(
            cs,
            cmd,
            cmd + 1,
            r_label.as_slice(),
            0,
            1,
        );
        proof {
            if cmd + 1 <= hi {
                assert(cmd_s.take(1) =~= cs@.subrange(cmd as int, cmd + 1));
            }
        }
        if is_r {
            let arg_lo = cmd + 1;
            let arg_hi = match find_char_in(cs, arg_lo, hi, '\\') {
                Some(e) => e,
                None => hi,
            };
            proof {
                let rest = cmd_s.skip(1);
                assert(rest =~= cs@.subrange(arg_lo as int, hi as int));
                assert(argument_len(rest) == arg_hi - arg_lo);
                assert(rest.take(arg_hi - arg_lo) =~= cs@.subrange(arg_lo as int, arg_hi as int));
                assert(rest.skip(arg_hi - arg_lo) =~= cs@.subrange(arg_hi as int, hi as int));
            }
            let arg = copy_range(cs, arg_lo, arg_hi);
            proof {
                assert(arg@.subrange(0, arg@.len() as int) =~= arg@);
            }
            let (ta, tb) = trim_range(arg.as_slice(), 0, arg.len());
            if ta == tb {
                add_style_font(style, an);
            } else {
                add_style_font(arg.as_slice(), an);
            }
            proof {
                let t = Tag::Reset(arg@);
                let tail = block_tags(cs@.subrange(arg_hi as int, hi as int));
                assert(block_tags(b) == seq![t] + tail);
                assert((seq![t] + tail)[0] == t);
                assert((seq![t] + tail).drop_first() =~= tail);
            }
            index = arg_hi;
            continue;
        }
        proof {
            assert(!starts_with_ci(cmd_s, "fn"@));
            assert(!starts_with_ci(cmd_s, "r"@));
            assert(block_tags(b) == block_tags(cmd_s));
        }
        index = cmd;
    }
}

/// Applies the override blocks of the dialogue text `cs`.
fn analyze_override_tags(cs: &[char], style: &[char], an: &mut Analyzer)
    requires
        old(an).fonts.wf(),
    ensures
        final(an).fonts.wf(),
        analyzer_view(*final(an)) == apply_blocks(analyzer_view(*old(an)), style@, override_blocks(cs@)),
{
    let n = cs.len();
    let mut pos: usize = 0;
    proof {
        assert(cs@.subrange(0, n as int) =~= cs@);
    }
    loop
        invariant
            pos <= n == cs.len(),
            an.fonts.wf(),
            apply_blocks(analyzer_view(*old(an)), style@, override_blocks(cs@)) == apply_blocks(
                analyzer_view(*an),
                style@,
                override_blocks(cs@.subrange(pos as int, n as int)),
            ),
        decreases n - pos,
    {
        let ghost t = cs@.subrange(pos as int, n as int);
        let o = match find_char_in(cs, pos, n, '{') {
            Some(o) => o,
            None => {
                proof {
                    assert(override_blocks(t) =~= Seq::<Seq<char>>::empty());
                }
                return;
            },
        };
        proof {
            assert(t.skip(o - pos + 1) =~= cs@.subrange(o + 1, n as int));
        }
        let c = match find_char_in(cs, o + 1, n, '}') {
            Some(c) => c,
            None => {
                proof {
                    assert(override_blocks(t) =~= Seq::<Seq<char>>::empty());
                }
                return;
            },
        };
        proof {
            let after = cs@.subrange(o + 1, n as int);
            assert(after.take(c - o - 1) =~= cs@.subrange(o + 1, c as int));
            assert(after.skip(c - o - 1 + 1) =~= cs@.subrange(c + 1, n as int));
        }
        parse_override_block(cs, o + 1, c, style, an);
        proof {
            let blk = cs@.subrange(o + 1, c as int);
            let tail = override_blocks(cs@.subrange(c + 1, n as int));
            assert(override_blocks(t) == seq![blk] + tail);
            assert((seq![blk] + tail)[0] == blk);
            assert((seq![blk] + tail).drop_first() =~= tail);
        }
        pos = c + 1;
    }
}

/// The declared fonts that no required font matches, ASCII case ignored.
pub fn declared_but_unused_fonts(declared: &NameSet, required: &NameSet) -> (r: NameSet)
    ensures
        r@ == unused_fonts(declared@, required@),
{
    let names = declared.to_vec();
    let mut unused = NameSet::new();
    let mut i: usize = 0;
    let ghost views = crate::name_set::string_views(names@);
    while i < names.len()
        invariant
            i <= names.len(),
            views == crate::name_set::string_views(names@),
            views.to_set() == declared@,
            crate::name_set::ci_distinct(views),
            unused@ == views.take(i as int).to_set().filter(|f: Seq<char>| !ci_member(required@, f)),
        decreases names.len() - i,
    {
        let ghost prev = unused@;
        let ghost v = names@[i as int]@;
        proof {
            assert(views[i as int] == v);
        }
        if !required.contains_ci(names[i].as_str()) {
            proof {
                // No member so far equals `v` ignoring case, so it goes in.
                assert(!ci_member(prev, v)) by {
                    if ci_member(prev, v) {
                        let x = choose|x: Seq<char>| prev.contains(x) && eq_ignore_ascii_case_seq(x, v);
                        let j = choose|j: int| 0 <= j < i && views.take(i as int)[j] == x;
                        assert(views[j] == x);
                    }
                }
            }
            unused.insert_ci(names[i].clone());
        }
        proof {
            let small = views.take(i as int);
            let big = views.take(i + 1);
            assert(big =~= small.push(v));
            assert(big.to_set() =~= small.to_set().insert(v)) by {
                assert forall|x: Seq<char>| big.to_set().contains(x) implies small.to_set().insert(
                    v,
                ).contains(x) by {
                    let j = choose|j: int| 0 <= j < big.len() && big[j] == x;
                    if j < i {
                        assert(small[j] == x);
                    }
                }
                assert forall|x: Seq<char>| small.to_set().insert(v).contains(x) implies big.to_set().contains(
                    x,
                ) by {
                    if x == v {
                        assert(big[i as int] == x);
                    } else {
                        let j = choose|j: int| 0 <= j < small.len() && small[j] == x;
                        assert(big[j] == x);
                    }
                }
            }
        }
        i += 1;
    }
    proof {
        assert(views.take(names.len() as int) =~= views);
        assert(unused@ =~= unused_fonts(declared@, required@));
    }
    unused
}

/// Which fonts the ASS/SSA script `text` declares and needs.
pub fn analyze_ass_text(text: &str) -> (usage: SubtitleFontUsage)
    ensures
        usage_view(usage) == usage_of_text(text@),
{
    let document = parse_ass(text);
    let mut an = Analyzer { usage: SubtitleFontUsage::new(), fonts: StyleFonts::new() };
    let ghost styles = document.styles_view();
    let ghost dialogues = document.dialogues_view();
    proof {
        assert(analyzer_view(an) == empty_analysis());
        assert(styles.skip(0) =~= styles);
    }
    let mut i: usize = 0;
    while i < document.styles.len()
        invariant
            i <= document.styles.len(),
            styles == document.styles_view(),
            an.fonts.wf(),
            declare_styles(empty_analysis(), styles) == declare_styles(
                analyzer_view(an),
                styles.skip(i as int),
            ),
        decreases document.styles.len() - i,
    {
        let style = &document.styles[i];
        let font_chars = chars_of(style.font_name.as_str());
        let ghost before = analyzer_view(an);
        if let Some(font) = normalize_font_name(font_chars.as_slice()) {
            an.usage.declared_fonts.insert_ci(string_of(font.as_slice()));
            let name_chars = chars_of(style.name.as_str());
            proof {
                assert(name_chars@.subrange(0, name_chars@.len() as int) =~= name_chars@);
            }
            let (a, b) = trim_range(name_chars.as_slice(), 0, name_chars.len());
            let key = to_ascii_lowercase_range(name_chars.as_slice(), a, b);
            an.fonts.insert(key, string_of(font.as_slice()));
        }
        proof {
            assert(styles[i as int] == (style.name@, style.font_name@));
            assert(analyzer_view(an) == declare_style(before, styles[i as int]));
            assert(styles.skip(i as int)[0] == styles[i as int]);
            assert(styles.skip(i as int).drop_first() =~= styles.skip(i + 1));
        }
        i += 1;
    }
    let ghost declared_state = analyzer_view(an);
    proof {
        assert(styles.skip(styles.len() as int) =~= Seq::<StyleView>::empty());
        assert(dialogues.skip(0) =~= dialogues);
    }
    let mut j: usize = 0;
    while j < document.dialogues.len()
        invariant
            j <= document.dialogues.len(),
            dialogues == document.dialogues_view(),
            an.fonts.wf(),
            apply_dialogues(declared_state, dialogues) == apply_dialogues(
                analyzer_view(an),
                dialogues.skip(j as int),
            ),
        decreases document.dialogues.len() - j,
    {
        let dialogue = &document.dialogues[j];
        let ghost before = analyzer_view(an);
        let style = chars_of(dialogue.style.as_str());
        let text_chars = chars_of(dialogue.text.as_str());
        add_style_font(style.as_slice(), &mut an);
        analyze_override_tags(text_chars.as_slice(), style.as_slice(), &mut an);
        proof {
            assert(dialogues[j as int] == (dialogue.style@, dialogue.text@));
            assert(analyzer_view(an) == apply_dialogue(before, dialogues[j as int]));
            assert(dialogues.skip(j as int)[0] == dialogues[j as int]);
            assert(dialogues.skip(j as int).drop_first() =~= dialogues.skip(j + 1));
        }
        j += 1;
    }
    proof {
        assert(dialogues.skip(dialogues.len() as int) =~= Seq::<DialogueView>::empty());
    }
    let unused = declared_but_unused_fonts(&an.usage.declared_fonts, &an.usage.required_fonts);
    an.usage.declared_but_unused_fonts = unused;
    an.usage
}


/// Which fonts a subtitle file needs, given the file's bytes: the text is
/// read as `decode_subtitle_bytes` reads it and then analyzed.
pub fn analyze_subtitle_fonts(bytes: &[u8]) -> (r: Result<SubtitleFontUsage, SubtitleDecodeError>)
    ensures
        match subtitle_text_of(bytes@) {
            Ok(text) => r is Ok && usage_view(r->Ok_0) == usage_of_text(text),
            Err(e) => r is Err && r->Err_0 == e,
        },
{
    match decode_subtitle_bytes(bytes) {
        Ok(text) => Ok(analyze_ass_text(text.as_str())),
        Err(e) => Err(e),
    }
}

// ---------------------------------------------------------------------------
// Reports over several scripts
// ---------------------------------------------------------------------------

/// `target` with the members of `source` that it does not already hold
/// (ASCII case ignored).
pub open spec fn extend_ci(target: Set<Seq<char>>, source: Set<Seq<char>>) -> Set<Seq<char>> {
    target.union(source.filter(|x: Seq<char>| !ci_member(target, x)))
}

/// Adds the members of `source` to `target` unless `target` already holds
/// them, ASCII case ignored.
pub fn extend_names_ci(target: &mut NameSet, source: &NameSet)
    ensures
        final(target)@ == extend_ci(old(target)@, source@),
{
    let names = source.to_vec();
    let ghost views = crate::name_set::string_views(names@);
    let ghost t0 = target@;
    let mut i: usize = 0;
    proof {
        assert(views.take(0).to_set() =~= Set::<Seq<char>>::empty());
        assert(extend_ci(t0, Set::<Seq<char>>::empty()) =~= t0);
    }
    while i < names.len()
        invariant
            i <= names.len(),
            views == crate::name_set::string_views(names@),
            views.to_set() == source@,
            crate::name_set::ci_distinct(views),
            target@ == extend_ci(t0, views.take(i as int).to_set()),
        decreases names.len() - i,
    {
        let ghost v = views[i as int];
        let ghost small = views.take(i as int);
        let ghost cur = target@;
        proof {
            assert(names@[i as int]@ == v);
            // What was added so far never equals `v` ignoring case.
            assert(ci_member(cur, v) == ci_member(t0, v)) by {
                if ci_member(cur, v) && !ci_member(t0, v) {
                    let x = choose|x: Seq<char>| cur.contains(x) && eq_ignore_ascii_case_seq(x, v);
                    if !t0.contains(x) {
                        let j = choose|j: int| 0 <= j < small.len() && small[j] == x;
                        assert(views[j] == x);
                    }
                }
                if ci_member(t0, v) {
                    let x = choose|x: Seq<char>| t0.contains(x) && eq_ignore_ascii_case_seq(x, v);
                    assert(cur.contains(x));
                }
            }
        }
        target.insert_ci(names[i].clone());
        proof {
            let big = views.take(i + 1);
            assert(big =~= small.push(v));
            assert(big.to_set() =~= small.to_set().insert(v)) by {
                assert forall|x: Seq<char>| big.to_set().contains(x) implies small.to_set().insert(
                    v,
                ).contains(x) by {
                    let j = choose|j: int| 0 <= j < big.len() && big[j] == x;
                    if j < i {
                        assert(small[j] == x);
                    }
                }
                assert forall|x: Seq<char>| small.to_set().insert(v).contains(x) implies big.to_set().contains(
                    x,
                ) by {
                    if x == v {
                        assert(big[i as int] == x);
                    } else {
                        let j = choose|j: int| 0 <= j < small.len() && small[j] == x;
                        assert(big[j] == x);
                    }
                }
            }
            assert(target@ =~= extend_ci(t0, big.to_set()));
        }
        i += 1;
    }
    proof {
        assert(views.take(names.len() as int) =~= views);
    }
}

/// One script of a report, by path.
pub type FileEntry = (Seq<char>, UsageModel);

/// The font sets of several scripts and the usage of each, by path.
pub struct ReportModel {
    pub files: Seq<FileEntry>,
    pub declared: Set<Seq<char>>,
    pub required: Set<Seq<char>>,
    pub unused: Set<Seq<char>>,
    pub inline: Set<Seq<char>>,
    pub missing: Set<Seq<char>>,
}

/// The paths of `files` are in ascending path order, no two the same path.
pub open spec fn files_sorted(files: Seq<FileEntry>) -> bool {
    forall|i: int, j: int| 0 <= i < j < files.len() ==> path_lt(#[trigger] files[i].0, #[trigger] files[j].0)
}

/// How many entries of `files` come before `path`.
pub open spec fn files_before(files: Seq<FileEntry>, path: Seq<char>) -> nat {
    files.filter(|e: FileEntry| path_lt(e.0, path)).len()
}

/// Records `usage` for `path`: an entry for the same path keeps its key and
/// takes the new usage, as a `BTreeMap` insert does; otherwise a new entry
/// goes in at its place in path order.
pub open spec fn files_insert(files: Seq<FileEntry>, path: Seq<char>, usage: UsageModel) -> Seq<FileEntry> {
    if exists|i: int| 0 <= i < files.len() && path_eq(#[trigger] files[i].0, path) {
        let i = choose|i: int| 0 <= i < files.len() && path_eq(#[trigger] files[i].0, path);
        files.update(i, (files[i].0, usage))
    } else {
        files.insert(files_before(files, path) as int, (path, usage))
    }
}

pub open spec fn empty_report() -> ReportModel {
    ReportModel {
        files: seq![],
        declared: Set::empty(),
        required: Set::empty(),
        unused: Set::empty(),
        inline: Set::empty(),
        missing: Set::empty(),
    }
}

/// Taking one script (path and text) into a report.
pub open spec fn report_step(r: ReportModel, path: Seq<char>, text: Seq<char>) -> ReportModel {
    let u = usage_of_text(text);
    ReportModel {
        files: files_insert(r.files, path, u),
        declared: extend_ci(r.declared, u.declared),
        required: extend_ci(r.required, u.required),
        inline: extend_ci(r.inline, u.inline),
        missing: extend_ci(r.missing, u.missing),
        ..r
    }
}

pub open spec fn report_steps(r: ReportModel, inputs: Seq<(Seq<char>, Seq<char>)>) -> ReportModel
    decreases inputs.len(),
{
    if inputs.len() == 0 {
        r
    } else {
        report_steps(report_step(r, inputs[0].0, inputs[0].1), inputs.drop_first())
    }
}

/// The report over scripts given as (path, text), in order.
pub open spec fn report_of(inputs: Seq<(Seq<char>, Seq<char>)>) -> ReportModel {
    let r = report_steps(empty_report(), inputs);
    ReportModel { unused: unused_fonts(r.declared, r.required), ..r }
}

/// One of the four merged sets of a report (declared, required, inline,
/// missing styles), by number.
pub open spec fn report_set(r: ReportModel, k: int) -> Set<Seq<char>> {
    if k == 0 {
        r.declared
    } else if k == 1 {
        r.required
    } else if k == 2 {
        r.inline
    } else {
        r.missing
    }
}

/// The same set of one script's usage.
pub open spec fn usage_set(u: UsageModel, k: int) -> Set<Seq<char>> {
    if k == 0 {
        u.declared
    } else if k == 1 {
        u.required
    } else if k == 2 {
        u.inline
    } else {
        u.missing
    }
}

proof fn lemma_extend_ci_covers(t: Set<Seq<char>>, s: Set<Seq<char>>)
    ensures
        forall|x: Seq<char>| #[trigger] s.contains(x) ==> ci_member(extend_ci(t, s), x),
        forall|v: Seq<char>| #[trigger] ci_member(t, v) ==> ci_member(extend_ci(t, s), v),
{
    assert forall|x: Seq<char>| #[trigger] s.contains(x) implies ci_member(extend_ci(t, s), x) by {
        if ci_member(t, x) {
            let y = choose|y: Seq<char>| t.contains(y) && eq_ignore_ascii_case_seq(y, x);
            assert(extend_ci(t, s).contains(y));
        } else {
            assert(extend_ci(t, s).contains(x));
            assert(eq_ignore_ascii_case_seq(x, x));
        }
    }
    assert forall|v: Seq<char>| #[trigger] ci_member(t, v) implies ci_member(extend_ci(t, s), v) by {
        let y = choose|y: Seq<char>| t.contains(y) && eq_ignore_ascii_case_seq(y, v);
        assert(extend_ci(t, s).contains(y));
    }
}

proof fn lemma_report_steps_keep(r: ReportModel, inputs: Seq<(Seq<char>, Seq<char>)>, k: int)
    requires
        0 <= k < 4,
    ensures
        forall|v: Seq<char>| #[trigger] ci_member(report_set(r, k), v) ==> ci_member(
            report_set(report_steps(r, inputs), k),
            v,
        ),
    decreases inputs.len(),
{
    if inputs.len() > 0 {
        let next = report_step(r, inputs[0].0, inputs[0].1);
        let u = usage_of_text(inputs[0].1);
        lemma_extend_ci_covers(report_set(r, k), usage_set(u, k));
        assert(report_set(next, k) == extend_ci(report_set(r, k), usage_set(u, k)));
        lemma_report_steps_keep(next, inputs.drop_first(), k);
    }
}

proof fn lemma_report_steps_cover(r: ReportModel, inputs: Seq<(Seq<char>, Seq<char>)>, k: int)
    requires
        0 <= k < 4,
    ensures
        forall|i: int, x: Seq<char>|
            0 <= i < inputs.len() && #[trigger] usage_set(usage_of_text(inputs[i].1), k).contains(x) ==> ci_member(
                report_set(report_steps(r, inputs), k),
                x,
            ),
    decreases inputs.len(),
{
    if inputs.len() > 0 {
        let next = report_step(r, inputs[0].0, inputs[0].1);
        let u = usage_of_text(inputs[0].1);
        let rest = inputs.drop_first();
        lemma_extend_ci_covers(report_set(r, k), usage_set(u, k));
        assert(report_set(next, k) == extend_ci(report_set(r, k), usage_set(u, k)));
        lemma_report_steps_keep(next, rest, k);
        lemma_report_steps_cover(next, rest, k);
        assert forall|i: int, x: Seq<char>|
            0 <= i < inputs.len() && #[trigger] usage_set(usage_of_text(inputs[i].1), k).contains(x) implies ci_member(
                report_set(report_steps(r, inputs), k),
                x,
            ) by {
            if i > 0 {
                assert(rest[i - 1] == inputs[i]);
            }
        }
    }
}

/// A report over several scripts holds, up to ASCII case, every font that
/// any of them declares, requires or names inline, and every style any of
/// them misses.
pub proof fn lemma_report_covers_files(inputs: Seq<(Seq<char>, Seq<char>)>)
    ensures
        forall|i: int, x: Seq<char>|
            0 <= i < inputs.len() && #[trigger] usage_of_text(inputs[i].1).declared.contains(x) ==> ci_member(
                report_of(inputs).declared,
                x,
            ),
        forall|i: int, x: Seq<char>|
            0 <= i < inputs.len() && #[trigger] usage_of_text(inputs[i].1).required.contains(x) ==> ci_member(
                report_of(inputs).required,
                x,
            ),
        forall|i: int, x: Seq<char>|
            0 <= i < inputs.len() && #[trigger] usage_of_text(inputs[i].1).inline.contains(x) ==> ci_member(
                report_of(inputs).inline,
                x,
            ),
        forall|i: int, x: Seq<char>|
            0 <= i < inputs.len() && #[trigger] usage_of_text(inputs[i].1).missing.contains(x) ==> ci_member(
                report_of(inputs).missing,
                x,
            ),
{
    lemma_report_steps_cover(empty_report(), inputs, 0);
    lemma_report_steps_cover(empty_report(), inputs, 1);
    lemma_report_steps_cover(empty_report(), inputs, 2);
    lemma_report_steps_cover(empty_report(), inputs, 3);
    assert forall|i: int, x: Seq<char>|
        0 <= i < inputs.len() && #[trigger] usage_of_text(inputs[i].1).declared.contains(x) implies ci_member(
            report_of(inputs).declared,
            x,
        ) by {
        assert(usage_set(usage_of_text(inputs[i].1), 0).contains(x));
    }
    assert forall|i: int, x: Seq<char>|
        0 <= i < inputs.len() && #[trigger] usage_of_text(inputs[i].1).required.contains(x) implies ci_member(
            report_of(inputs).required,
            x,
        ) by {
        assert(usage_set(usage_of_text(inputs[i].1), 1).contains(x));
    }
    assert forall|i: int, x: Seq<char>|
        0 <= i < inputs.len() && #[trigger] usage_of_text(inputs[i].1).inline.contains(x) implies ci_member(
            report_of(inputs).inline,
            x,
        ) by {
        assert(usage_set(usage_of_text(inputs[i].1), 2).contains(x));
    }
    assert forall|i: int, x: Seq<char>|
        0 <= i < inputs.len() && #[trigger] usage_of_text(inputs[i].1).missing.contains(x) implies ci_member(
            report_of(inputs).missing,
            x,
        ) by {
        assert(usage_set(usage_of_text(inputs[i].1), 3).contains(x));
    }
}

proof fn lemma_report_steps_within(r: ReportModel, inputs: Seq<(Seq<char>, Seq<char>)>, k: int)
    requires
        0 <= k < 4,
    ensures
        forall|y: Seq<char>| #[trigger] report_set(report_steps(r, inputs), k).contains(y) ==> report_set(r, k).contains(y)
            || exists|i: int| 0 <= i < inputs.len() && #[trigger] usage_set(usage_of_text(inputs[i].1), k).contains(y),
    decreases inputs.len(),
{
    if inputs.len() > 0 {
        let next = report_step(r, inputs[0].0, inputs[0].1);
        let u = usage_of_text(inputs[0].1);
        let rest = inputs.drop_first();
        assert(report_set(next, k) == extend_ci(report_set(r, k), usage_set(u, k)));
        lemma_report_steps_within(next, rest, k);
        assert forall|y: Seq<char>| #[trigger] report_set(report_steps(r, inputs), k).contains(y) implies report_set(r, k).contains(y)
            || exists|i: int| 0 <= i < inputs.len() && #[trigger] usage_set(usage_of_text(inputs[i].1), k).contains(y) by {
            assert(report_steps(r, inputs) == report_steps(next, rest));
            assert(report_set(report_steps(next, rest), k).contains(y));
            if report_set(next, k).contains(y) {
                if !report_set(r, k).contains(y) {
                    assert(usage_set(usage_of_text(inputs[0].1), k).contains(y));
                }
            } else {
                let j = choose|j: int| 0 <= j < rest.len() && #[trigger] usage_set(usage_of_text(rest[j].1), k).contains(y);
                assert(rest[j] == inputs[j + 1]);
                assert(usage_set(usage_of_text(inputs[j + 1].1), k).contains(y));
            }
        }
    }
}

proof fn lemma_extend_ci_distinct(t: Set<Seq<char>>, src: Set<Seq<char>>)
    requires
        ci_distinct_set(t),
        ci_distinct_set(src),
    ensures
        ci_distinct_set(extend_ci(t, src)),
{
    let e = extend_ci(t, src);
    assert forall|x: Seq<char>, y: Seq<char>|
        e.contains(x) && e.contains(y) && eq_ignore_ascii_case_seq(x, y) implies x == y by {
        if t.contains(x) && !t.contains(y) {
            assert(!ci_member(t, y));
            assert(t.contains(x) && eq_ignore_ascii_case_seq(x, y));
        } else if t.contains(y) && !t.contains(x) {
            assert(!ci_member(t, x));
            assert(t.contains(y) && eq_ignore_ascii_case_seq(y, x));
        }
    }
}

proof fn lemma_report_steps_distinct(r: ReportModel, inputs: Seq<(Seq<char>, Seq<char>)>, k: int)
    requires
        0 <= k < 4,
        ci_distinct_set(report_set(r, k)),
    ensures
        ci_distinct_set(report_set(report_steps(r, inputs), k)),
    decreases inputs.len(),
{
    if inputs.len() > 0 {
        let next = report_step(r, inputs[0].0, inputs[0].1);
        let u = usage_of_text(inputs[0].1);
        lemma_usage_laws(inputs[0].1);
        assert(ci_distinct_set(usage_set(u, k)));
        assert(report_set(next, k) == extend_ci(report_set(r, k), usage_set(u, k)));
        lemma_extend_ci_distinct(report_set(r, k), usage_set(u, k));
        lemma_report_steps_distinct(next, inputs.drop_first(), k);
    }
}

/// The report over several scripts merges their font sets: for the
/// declared, required and inline fonts and the missing styles (sets 0 to 3
/// of `report_set` and `usage_set`), the report's set is the union of the
/// scripts' sets up to ASCII case. Every member of a script's set has a
/// member of the report's set equal to it ignoring case; every member of the
/// report's set is a member of some script's set; and no two members of the
/// report's set are equal ignoring case.
pub proof fn lemma_report_union(inputs: Seq<(Seq<char>, Seq<char>)>, k: int)
    requires
        0 <= k < 4,
    ensures
        forall|i: int, x: Seq<char>|
            0 <= i < inputs.len() && #[trigger] usage_set(usage_of_text(inputs[i].1), k).contains(x) ==> ci_member(
                report_set(report_of(inputs), k),
                x,
            ),
        forall|y: Seq<char>| #[trigger] report_set(report_of(inputs), k).contains(y) ==> exists|i: int|
            0 <= i < inputs.len() && #[trigger] usage_set(usage_of_text(inputs[i].1), k).contains(y),
        ci_distinct_set(report_set(report_of(inputs), k)),
{
    assert(report_set(report_of(inputs), k) == report_set(report_steps(empty_report(), inputs), k));
    lemma_report_steps_cover(empty_report(), inputs, k);
    lemma_report_steps_within(empty_report(), inputs, k);
    assert(ci_distinct_set(report_set(empty_report(), k)));
    lemma_report_steps_distinct(empty_report(), inputs, k);
}

/// The report's declared-but-unused fonts are its declared fonts that none
/// of its required fonts matches, ASCII case ignored: over the merged sets,
/// so a font one script declares and another requires is not unused, and
/// the unused and required fonts never overlap.
pub proof fn lemma_report_unused(inputs: Seq<(Seq<char>, Seq<char>)>)
    ensures
        forall|x: Seq<char>| #[trigger] report_of(inputs).unused.contains(x) <==> (report_of(inputs).declared.contains(x)
            && !ci_member(report_of(inputs).required, x)),
        forall|x: Seq<char>| #[trigger] report_of(inputs).unused.contains(x) ==> !ci_member(report_of(inputs).required, x),
{
}

/// No two entries of `files` are for the same path.
pub open spec fn file_keys_distinct(files: Seq<FileEntry>) -> bool {
    forall|a: int, b: int| 0 <= a < b < files.len() ==> !path_eq(#[trigger] files[a].0, #[trigger] files[b].0)
}

/// Script `i` is the last of `inputs` with its path.
pub open spec fn last_with_path(inputs: Seq<(Seq<char>, UsageModel)>, i: int) -> bool {
    forall|j: int| i < j < inputs.len() ==> !path_eq(#[trigger] inputs[j].0, inputs[i].0)
}

/// Entry `e` is for the path of script `i` and holds that script's usage,
/// and no later script has that path.
pub open spec fn entry_of(e: FileEntry, inputs: Seq<(Seq<char>, UsageModel)>, i: int) -> bool {
    &&& 0 <= i < inputs.len()
    &&& path_eq(e.0, inputs[i].0)
    &&& e.1 == inputs[i].1
    &&& last_with_path(inputs, i)
}

/// `files` maps each path of `inputs` (paths compared as paths) to the usage
/// of the last script with that path, and holds no other entry.
pub open spec fn files_of_inputs(files: Seq<FileEntry>, inputs: Seq<(Seq<char>, UsageModel)>) -> bool {
    &&& file_keys_distinct(files)
    &&& forall|i: int| 0 <= i < inputs.len() ==> #[trigger] path_has_entry(files, inputs, i)
    &&& forall|k: int| 0 <= k < files.len() ==> #[trigger] entry_has_source(files, inputs, k)
}

/// Some entry of `files` is for the path of script `i`.
pub open spec fn path_has_entry(files: Seq<FileEntry>, inputs: Seq<(Seq<char>, UsageModel)>, i: int) -> bool {
    exists|k: int| 0 <= k < files.len() && path_eq(#[trigger] files[k].0, inputs[i].0)
}

/// Entry `k` of `files` comes from a script of `inputs` as `entry_of` says.
pub open spec fn entry_has_source(files: Seq<FileEntry>, inputs: Seq<(Seq<char>, UsageModel)>, k: int) -> bool {
    exists|i: int| #[trigger] entry_of(files[k], inputs, i)
}

#[verifier::rlimit(100)]
#[verifier::spinoff_prover]
proof fn lemma_files_insert_existing(files: Seq<FileEntry>, prev: Seq<(Seq<char>, UsageModel)>, p: Seq<char>, u: UsageModel)
    requires
        files_of_inputs(files, prev),
        exists|i: int| 0 <= i < files.len() && path_eq(#[trigger] files[i].0, p),
    ensures
        files_of_inputs(files_insert(files, p, u), prev.push((p, u))),
{
    let ins = prev.push((p, u));
    let n = prev.len() as int;
    assert(ins[n] == (p, u));
    assert forall|i: int| 0 <= i < n implies ins[i] == prev[i] by {}
        let c = choose|i: int| 0 <= i < files.len() && path_eq(#[trigger] files[i].0, p);
        let nf = files.update(c, (files[c].0, u));
        assert(files_insert(files, p, u) == nf);
        assert forall|a: int, b: int| 0 <= a < b < nf.len() implies !path_eq(#[trigger] nf[a].0, #[trigger] nf[b].0) by {
            assert(nf[a].0 == files[a].0);
            assert(nf[b].0 == files[b].0);
        }
        assert forall|i: int| 0 <= i < ins.len() implies #[trigger] path_has_entry(nf, ins, i) by {
            if i < n {
                assert(path_has_entry(files, prev, i));
                let k = choose|k: int| 0 <= k < files.len() && path_eq(#[trigger] files[k].0, prev[i].0);
                assert(nf[k].0 == files[k].0);
                assert(path_eq(nf[k].0, ins[i].0));
            } else {
                assert(path_eq(nf[c].0, ins[i].0));
            }
        }
        assert forall|k: int| 0 <= k < nf.len() implies #[trigger] entry_has_source(nf, ins, k) by {
            if k == c {
                assert(entry_of(nf[k], ins, n));
            } else {
                assert(nf[k] == files[k]);
                assert(entry_has_source(files, prev, k));
                let i = choose|i: int| #[trigger] entry_of(files[k], prev, i);
                assert forall|j: int| i < j < ins.len() implies !path_eq(#[trigger] ins[j].0, ins[i].0) by {
                    if j < n {
                        assert(!path_eq(prev[j].0, prev[i].0));
                    } else if path_eq(p, prev[i].0) {
                        if k < c {
                            assert(!path_eq(files[k].0, files[c].0));
                        } else {
                            assert(!path_eq(files[c].0, files[k].0));
                        }
                    }
                }
                assert(entry_of(nf[k], ins, i));
            }
        }
}

#[verifier::rlimit(100)]
#[verifier::spinoff_prover]
proof fn lemma_files_insert_new(files: Seq<FileEntry>, prev: Seq<(Seq<char>, UsageModel)>, p: Seq<char>, u: UsageModel)
    requires
        files_of_inputs(files, prev),
        !exists|i: int| 0 <= i < files.len() && path_eq(#[trigger] files[i].0, p),
    ensures
        files_of_inputs(files_insert(files, p, u), prev.push((p, u))),
{
    let ins = prev.push((p, u));
    let n = prev.len() as int;
    assert(ins[n] == (p, u));
    assert forall|i: int| 0 <= i < n implies ins[i] == prev[i] by {}
        let pos = files_before(files, p) as int;
        files.lemma_filter_len(|e: FileEntry| path_lt(e.0, p));
        assert(0 <= pos <= files.len());
        let nf = files.insert(pos, (p, u));
        assert(files_insert(files, p, u) == nf);
        assert forall|k: int| 0 <= k < files.len() implies !path_eq(#[trigger] files[k].0, p) by {}
        assert forall|a: int, b: int| 0 <= a < b < nf.len() implies !path_eq(#[trigger] nf[a].0, #[trigger] nf[b].0) by {
            if a < pos {
                assert(nf[a] == files[a]);
                if b == pos {
                } else if b > pos {
                    assert(nf[b] == files[b - 1]);
                } else {
                    assert(nf[b] == files[b]);
                }
            } else if a == pos {
                assert(nf[b] == files[b - 1]);
            } else {
                assert(nf[a] == files[a - 1]);
                assert(nf[b] == files[b - 1]);
            }
        }
        assert forall|i: int| 0 <= i < ins.len() implies #[trigger] path_has_entry(nf, ins, i) by {
            if i < n {
                assert(path_has_entry(files, prev, i));
                let k = choose|k: int| 0 <= k < files.len() && path_eq(#[trigger] files[k].0, prev[i].0);
                if k < pos {
                    assert(nf[k] == files[k]);
                    assert(path_eq(nf[k].0, ins[i].0));
                } else {
                    assert(nf[k + 1] == files[k]);
                    assert(path_eq(nf[k + 1].0, ins[i].0));
                }
            } else {
                assert(path_eq(nf[pos].0, ins[i].0));
            }
        }
        assert forall|k: int| 0 <= k < nf.len() implies #[trigger] entry_has_source(nf, ins, k) by {
            if k == pos {
                assert(entry_of(nf[k], ins, n));
            } else {
                let k0 = if k < pos { k } else { k - 1 };
                assert(nf[k] == files[k0]);
                assert(entry_has_source(files, prev, k0));
                let i = choose|i: int| #[trigger] entry_of(files[k0], prev, i);
                assert forall|j: int| i < j < ins.len() implies !path_eq(#[trigger] ins[j].0, ins[i].0) by {
                    if j < n {
                        assert(!path_eq(prev[j].0, prev[i].0));
                    } else {
                        assert(!path_eq(files[k0].0, p));
                    }
                }
                assert(entry_of(nf[k], ins, i));
            }
        }
}

proof fn lemma_files_insert_step(files: Seq<FileEntry>, prev: Seq<(Seq<char>, UsageModel)>, p: Seq<char>, u: UsageModel)
    requires
        files_of_inputs(files, prev),
    ensures
        files_of_inputs(files_insert(files, p, u), prev.push((p, u))),
{
    if exists|i: int| 0 <= i < files.len() && path_eq(#[trigger] files[i].0, p) {
        lemma_files_insert_existing(files, prev, p, u);
    } else {
        lemma_files_insert_new(files, prev, p, u);
    }
}

/// Each script as its path and usage.
pub open spec fn usages_of(inputs: Seq<(Seq<char>, Seq<char>)>) -> Seq<(Seq<char>, UsageModel)> {
    inputs.map_values(|e: (Seq<char>, Seq<char>)| (e.0, usage_of_text(e.1)))
}

proof fn lemma_report_steps_files(r: ReportModel, prev: Seq<(Seq<char>, UsageModel)>, inputs: Seq<(Seq<char>, Seq<char>)>)
    requires
        files_of_inputs(r.files, prev),
    ensures
        files_of_inputs(report_steps(r, inputs).files, prev + usages_of(inputs)),
    decreases inputs.len(),
{
    if inputs.len() == 0 {
        assert(prev + usages_of(inputs) =~= prev);
    } else {
        let u = usage_of_text(inputs[0].1);
        let next = report_step(r, inputs[0].0, inputs[0].1);
        assert(next.files == files_insert(r.files, inputs[0].0, u));
        lemma_files_insert_step(r.files, prev, inputs[0].0, u);
        lemma_report_steps_files(next, prev.push((inputs[0].0, u)), inputs.drop_first());
        assert(prev.push((inputs[0].0, u)) + usages_of(inputs.drop_first()) =~= prev + usages_of(inputs));
    }
}

/// A report over several scripts has one entry per path (paths compared as
/// paths): every script's path has an entry, and each entry holds the usage
/// of the last script with its path.
pub proof fn lemma_report_files(inputs: Seq<(Seq<char>, Seq<char>)>)
    ensures
        files_of_inputs(report_of(inputs).files, usages_of(inputs)),
{
    let e = Seq::<(Seq<char>, UsageModel)>::empty();
    assert(files_of_inputs(empty_report().files, e));
    lemma_report_steps_files(empty_report(), e, inputs);
    assert(e + usages_of(inputs) =~= usages_of(inputs));
}

/// The fonts that several scripts declare and need, together and one by one.
#[derive(Debug, PartialEq, Eq)]
pub struct SubtitleFontReport {
    /// The usage of each script, in path order.
    pub files: Vec<(String, SubtitleFontUsage)>,
    pub declared_fonts: NameSet,
    pub required_fonts: NameSet,
    pub declared_but_unused_fonts: NameSet,
    pub inline_fonts: NameSet,
    pub missing_styles: NameSet,
}

pub open spec fn files_view(files: Seq<(String, SubtitleFontUsage)>) -> Seq<FileEntry> {
    files.map_values(|e: (String, SubtitleFontUsage)| (e.0@, usage_view(e.1)))
}

pub open spec fn report_view(r: SubtitleFontReport) -> ReportModel {
    ReportModel {
        files: files_view(r.files@),
        declared: r.declared_fonts@,
        required: r.required_fonts@,
        unused: r.declared_but_unused_fonts@,
        inline: r.inline_fonts@,
        missing: r.missing_styles@,
    }
}

proof fn lemma_files_before(files: Seq<FileEntry>, path: Seq<char>, p: int)
    requires
        files_sorted(files),
        0 <= p <= files.len(),
        forall|k: int| 0 <= k < p ==> path_lt(#[trigger] files[k].0, path),
        forall|k: int| p <= k < files.len() ==> !path_lt(#[trigger] files[k].0, path),
    ensures
        files_before(files, path) == p,
    decreases files.len(),
{
    let f = |e: FileEntry| path_lt(e.0, path);
    reveal(Seq::filter);
    if files.len() == 0 {
    } else {
        let init = files.drop_last();
        if p == files.len() {
            lemma_files_before(init, path, p - 1);
        } else {
            lemma_files_before(init, path, p);
        }
    }
}

/// Records the usage of the script at `path`.
fn insert_file(files: &mut Vec<(String, SubtitleFontUsage)>, path: String, usage: SubtitleFontUsage)
    requires
        files_sorted(files_view(old(files)@)),
    ensures
        files_sorted(files_view(final(files)@)),
        files_view(final(files)@) == files_insert(files_view(old(files)@), path@, usage_view(usage)),
{
    let ghost fv = files_view(files@);
    let ghost u = usage_view(usage);
    let key = chars_of(path.as_str());
    let n = files.len();
    let mut p: usize = 0;
    while p < n
        invariant
            n == files@.len() == fv.len(),
            fv == files_view(files@),
            files_sorted(fv),
            p <= n,
            key@ == path@,
            forall|k: int| 0 <= k < p ==> path_lt(#[trigger] fv[k].0, path@),
        ensures
            p <= n,
            forall|k: int| 0 <= k < p ==> path_lt(#[trigger] fv[k].0, path@),
            p < n ==> !path_lt(fv[p as int].0, path@),
        decreases n - p,
    {
        let m = chars_of(files[p].0.as_str());
        proof {
            assert(fv[p as int].0 == files@[p as int].0@);
        }
        if !path_less(m.as_slice(), key.as_slice()) {
            break;
        }
        p += 1;
    }
    proof {
        // Entries from `p` on do not come before `path`.
        assert forall|k: int| p <= k < n implies !path_lt(#[trigger] fv[k].0, path@) by {
            if k > p {
                if path_lt(fv[k].0, path@) {
                    lemma_lex_transitive(path_keys(fv[p as int].0), path_keys(fv[k].0), path_keys(path@));
                }
            }
        }
        lemma_files_before(fv, path@, p as int);
    }
    let same = if p < n {
        let m = chars_of(files[p].0.as_str());
        path_equal(m.as_slice(), key.as_slice())
    } else {
        false
    };
    proof {
        assert(p < n ==> fv[p as int].0 == files@[p as int].0@);
    }
    if same {
        let old_path = files[p].0.clone();
        files.set(p, (old_path, usage));
        proof {
            let i = choose|i: int| 0 <= i < fv.len() && path_eq(#[trigger] fv[i].0, path@);
            if i != p {
                if i < p {
                    assert(path_lt(fv[i].0, path@));
                    lemma_lex_irreflexive(path_keys(path@));
                } else {
                    lemma_lex_asymmetric(path_keys(fv[p as int].0), path_keys(fv[i].0));
                    assert(path_lt(fv[p as int].0, fv[i].0));
                }
            }
            assert(files_view(files@) =~= fv.update(p as int, (fv[p as int].0, u)));
        }
    } else {
        proof {
            assert(!exists|i: int| 0 <= i < fv.len() && path_eq(#[trigger] fv[i].0, path@)) by {
                if exists|i: int| 0 <= i < fv.len() && path_eq(#[trigger] fv[i].0, path@) {
                    let i = choose|i: int| 0 <= i < fv.len() && path_eq(#[trigger] fv[i].0, path@);
                    if i < p {
                        lemma_lex_irreflexive(path_keys(path@));
                    } else if i > p {
                        lemma_lex_total(path_keys(fv[p as int].0), path_keys(path@));
                        lemma_lex_transitive(path_keys(fv[p as int].0), path_keys(fv[i].0), path_keys(path@));
                        lemma_lex_irreflexive(path_keys(path@));
                    }
                }
            }
            // `path` goes strictly between its neighbours.
            assert forall|k: int| p <= k < n implies path_lt(path@, #[trigger] fv[k].0) by {
                lemma_lex_total(path_keys(fv[k].0), path_keys(path@));
                if k > p {
                    assert(path_lt(fv[p as int].0, fv[k].0));
                }
            }
        }
        files.insert(p, (path, usage));
        proof {
            let nv = files_view(files@);
            assert(nv =~= fv.insert(p as int, (path@, u)));
            assert forall|i: int, j: int| 0 <= i < j < nv.len() implies path_lt(
                #[trigger] nv[i].0,
                #[trigger] nv[j].0,
            ) by {
                if j < p {
                } else if j == p {
                } else if i < p {
                    lemma_lex_transitive(path_keys(nv[i].0), path_keys(path@), path_keys(nv[j].0));
                } else if i == p {
                } else {
                    assert(nv[i] == fv[i - 1]);
                    assert(nv[j] == fv[j - 1]);
                }
            }
        }
    }
}

/// The fonts that the scripts `inputs` (path and decoded text, in order)
/// declare and need, together and one by one.
pub fn analyze_subtitle_font_report(inputs: Vec<(String, String)>) -> (r: SubtitleFontReport)
    ensures
        report_view(r) == report_of(inputs@.map_values(|e: (String, String)| (e.0@, e.1@))),
        files_sorted(report_view(r).files),
        ci_distinct_set(report_view(r).declared),
        ci_distinct_set(report_view(r).required),
        ci_distinct_set(report_view(r).unused),
        ci_distinct_set(report_view(r).inline),
        ci_distinct_set(report_view(r).missing),
{
    let ghost ins = inputs@.map_values(|e: (String, String)| (e.0@, e.1@));
    let mut report = SubtitleFontReport {
        files: Vec::new(),
        declared_fonts: NameSet::new(),
        required_fonts: NameSet::new(),
        declared_but_unused_fonts: NameSet::new(),
        inline_fonts: NameSet::new(),
        missing_styles: NameSet::new(),
    };
    proof {
        assert(report_view(report) == empty_report()) by {
            assert(files_view(report.files@) =~= Seq::<FileEntry>::empty());
        }
        assert(ins.skip(0) =~= ins);
    }
    for entry in it: inputs
        invariant
            ins == it.seq().map_values(|e: (String, String)| (e.0@, e.1@)),
            files_sorted(files_view(report.files@)),
            report_view(report).unused == Set::<Seq<char>>::empty(),
            report_steps(empty_report(), ins) == report_steps(report_view(report), ins.skip(it.index() as int)),
    {
        let (path, text) = entry;
        let ghost before = report_view(report);
        let usage = analyze_ass_text(text.as_str());
        extend_names_ci(&mut report.declared_fonts, &usage.declared_fonts);
        extend_names_ci(&mut report.required_fonts, &usage.required_fonts);
        extend_names_ci(&mut report.inline_fonts, &usage.inline_fonts);
        extend_names_ci(&mut report.missing_styles, &usage.missing_styles);
        let ghost pv = path@;
        let ghost tv = text@;
        insert_file(&mut report.files, path, usage);
        proof {
            let i = it.index();
            assert(ins[i as int] == (pv, tv));
            assert(report_view(report) == report_step(before, pv, tv));
            assert(ins.skip(i as int)[0] == ins[i as int]);
            assert(ins.skip(i as int).drop_first() =~= ins.skip(i + 1));
        }
    }
    proof {
        assert(ins.skip(ins.len() as int) =~= Seq::<(Seq<char>, Seq<char>)>::empty());
    }
    let unused = declared_but_unused_fonts(&report.declared_fonts, &report.required_fonts);
    report.declared_but_unused_fonts = unused;
    proof {
        use_type_invariant(&report.declared_fonts);
        use_type_invariant(&report.required_fonts);
        use_type_invariant(&report.declared_but_unused_fonts);
        use_type_invariant(&report.inline_fonts);
        use_type_invariant(&report.missing_styles);
        report.declared_fonts.lemma_shape();
        report.required_fonts.lemma_shape();
        report.declared_but_unused_fonts.lemma_shape();
        report.inline_fonts.lemma_shape();
        report.missing_styles.lemma_shape();
    }
    report
}

} // verus!
