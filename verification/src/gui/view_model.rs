//! What the window shows after subtitles were loaded: the local font files
//! that were loaded (or failed), with the requested names each answers to,
//! the names left to system fonts, and the names that were not found.

use vstd::prelude::*;

use crate::font::index::{FontMatch, ResolveReport, ResolvedFont};
use crate::font::names::opt_view;
use crate::session::{failed_views, loaded_views, FailedFont, FailedView, LoadSummary, LoadedFont, LoadedView};
use crate::sort::{insertion_sorted, sorted_by_key, stable_sort, SortKey};
use crate::text::{
    chars_of, code_points, decimal, lemma_lex_total, lex_lt, path_eq,
    path_equal, path_keys, path_less, path_lt, push_decimal, push_str, str_less,
};

verus! {

/// The summary of one subtitle load.
#[derive(Debug, Clone, Default)]
pub struct SubtitleLoadView {
    pub subtitle_count: usize,
    pub required_alias_count: usize,
    pub skipped_system_alias_count: usize,
    pub loaded_local_font_count: usize,
    pub missing_alias_count: usize,
    pub declared_but_unused_alias_count: usize,
    pub local_groups: Vec<LocalFontGroup>,
    pub system_aliases: Vec<String>,
    pub missing_aliases: Vec<String>,
    pub declared_but_unused_aliases: Vec<String>,
}

/// One local font file and the requested names it answers to.
#[derive(Debug, Clone, Default)]
pub struct LocalFontGroup {
    pub font_path: String,
    pub loaded: bool,
    pub load_error: Option<String>,
    pub aliases: Vec<AliasMatchView>,
}

/// A requested name and the alias of the face that answers to it.
#[derive(Debug, Clone, Default)]
pub struct AliasMatchView {
    pub requested_name: String,
    pub matched_alias: String,
    pub alias_kind: String,
    pub face_index: u32,
}

/// Requested names sort in `String` order.
impl SortKey for AliasMatchView {
    open spec fn sort_key(&self) -> Seq<int> {
        code_points(self.requested_name@)
    }

    fn key_less(&self, other: &Self) -> (r: bool) {
        let a = chars_of(self.requested_name.as_str());
        let b = chars_of(other.requested_name.as_str());
        str_less(a.as_slice(), b.as_slice())
    }
}

/// Font groups sort in path order.
impl SortKey for LocalFontGroup {
    open spec fn sort_key(&self) -> Seq<int> {
        path_keys(self.font_path@)
    }

    fn key_less(&self, other: &Self) -> (r: bool) {
        let a = chars_of(self.font_path.as_str());
        let b = chars_of(other.font_path.as_str());
        path_less(a.as_slice(), b.as_slice())
    }
}

/// The entry of a match under the name it was requested by.
pub open spec fn alias_match_of(name: String, m: FontMatch) -> AliasMatchView {
    AliasMatchView {
        requested_name: name,
        matched_alias: m.matched_alias,
        alias_kind: m.alias_kind,
        face_index: m.face_index,
    }
}

/// Each match with the file it is in, in the order of the report.
pub open spec fn match_pairs(matched: Seq<ResolvedFont>) -> Seq<(String, AliasMatchView)>
    decreases matched.len(),
{
    if matched.len() == 0 {
        seq![]
    } else {
        let r = matched.last();
        match_pairs(matched.drop_last()) + r.matches@.map_values(
            |m: FontMatch| (m.canonical_path, alias_match_of(r.requested_name, m)),
        )
    }
}

/// A group as plain values: its path and its entries.
pub type GroupModel = (String, Seq<AliasMatchView>);

/// The first group whose path names the same file as `path`.
pub open spec fn find_group(gs: Seq<GroupModel>, path: Seq<char>) -> Option<int>
    decreases gs.len(),
{
    if gs.len() == 0 {
        None
    } else if path_eq(gs[0].0@, path) {
        Some(0)
    } else {
        match find_group(gs.drop_first(), path) {
            Some(i) => Some(i + 1),
            None => None,
        }
    }
}

/// Adds an entry to the group of its file, opening a new group for a new file.
pub open spec fn group_insert(gs: Seq<GroupModel>, pair: (String, AliasMatchView)) -> Seq<GroupModel> {
    match find_group(gs, pair.0@) {
        Some(i) => gs.update(i, (gs[i].0, gs[i].1.push(pair.1))),
        None => gs.push((pair.0, seq![pair.1])),
    }
}

/// The entries grouped by file, groups in the order their files first appear.
pub open spec fn groups_of(pairs: Seq<(String, AliasMatchView)>) -> Seq<GroupModel>
    decreases pairs.len(),
{
    if pairs.len() == 0 {
        seq![]
    } else {
        group_insert(groups_of(pairs.drop_last()), pairs.last())
    }
}

/// A font at this path was loaded.
pub open spec fn path_loaded(loaded: Seq<LoadedView>, path: Seq<char>) -> bool {
    exists|i: int| 0 <= i < loaded.len() && path_eq(#[trigger] loaded[i].0, path)
}

/// The message of the last failure reported for this path.
pub open spec fn path_error(failed: Seq<FailedView>, path: Seq<char>) -> Option<Seq<char>>
    decreases failed.len(),
{
    if failed.len() == 0 {
        None
    } else if path_eq(failed.last().0, path) {
        Some(failed.last().1)
    } else {
        path_error(failed.drop_last(), path)
    }
}

/// How many groups were loaded.
pub open spec fn loaded_group_count(gs: Seq<LocalFontGroup>) -> nat
    decreases gs.len(),
{
    if gs.len() == 0 {
        0
    } else {
        loaded_group_count(gs.drop_last()) + if gs.last().loaded { 1nat } else { 0nat }
    }
}

/// The group `g` shows the model group `m` for the given load results: its
/// entries sorted by requested name, and whether (and how) its file loaded.
pub open spec fn group_shows(g: LocalFontGroup, m: GroupModel, summary: LoadSummary) -> bool {
    &&& g.font_path == m.0
    &&& g.aliases@ == insertion_sorted(Seq::<AliasMatchView>::empty(), m.1)
    &&& g.loaded == path_loaded(loaded_views(summary.loaded@), m.0@)
    &&& opt_view(g.load_error) == path_error(failed_views(summary.failed@), m.0@)
}

/// `g` shows one of the model groups `gm`.
pub open spec fn shows_some(g: LocalFontGroup, gm: Seq<GroupModel>, summary: LoadSummary) -> bool {
    exists|m: int| 0 <= m < gm.len() && #[trigger] group_shows(g, gm[m], summary)
}

/// No two groups name the same file.
pub open spec fn groups_distinct(gs: Seq<GroupModel>) -> bool {
    forall|i: int, j: int| 0 <= i < j < gs.len() ==> !path_eq((#[trigger] gs[i]).0@, (#[trigger] gs[j]).0@)
}

proof fn lemma_find_group(gs: Seq<GroupModel>, path: Seq<char>)
    ensures
        match find_group(gs, path) {
            Some(i) => 0 <= i < gs.len() && path_eq(gs[i].0@, path) && forall|j: int|
                0 <= j < i ==> !path_eq(#[trigger] gs[j].0@, path),
            None => forall|j: int| 0 <= j < gs.len() ==> !path_eq(#[trigger] gs[j].0@, path),
        },
    decreases gs.len(),
{
    if gs.len() > 0 {
        lemma_find_group(gs.drop_first(), path);
        if !path_eq(gs[0].0@, path) {
            match find_group(gs.drop_first(), path) {
                Some(i) => {
                    assert forall|j: int| 0 <= j < i + 1 implies !path_eq(#[trigger] gs[j].0@, path) by {
                        if j > 0 {
                            assert(gs[j] == gs.drop_first()[j - 1]);
                        }
                    }
                },
                None => {
                    assert forall|j: int| 0 <= j < gs.len() implies !path_eq(#[trigger] gs[j].0@, path) by {
                        if j > 0 {
                            assert(gs[j] == gs.drop_first()[j - 1]);
                        }
                    }
                },
            }
        }
    }
}

/// Grouping never gives two groups for one file.
pub proof fn lemma_groups_distinct(pairs: Seq<(String, AliasMatchView)>)
    ensures
        groups_distinct(groups_of(pairs)),
    decreases pairs.len(),
{
    if pairs.len() > 0 {
        let gs = groups_of(pairs.drop_last());
        lemma_groups_distinct(pairs.drop_last());
        lemma_find_group(gs, pairs.last().0@);
        let ng = groups_of(pairs);
        match find_group(gs, pairs.last().0@) {
            Some(k) => {
                assert forall|i: int, j: int| 0 <= i < j < ng.len() implies !path_eq(
                    (#[trigger] ng[i]).0@,
                    (#[trigger] ng[j]).0@,
                ) by {
                    assert(ng[i].0 == gs[i].0);
                    assert(ng[j].0 == gs[j].0);
                }
            },
            None => {
                assert forall|i: int, j: int| 0 <= i < j < ng.len() implies !path_eq(
                    (#[trigger] ng[i]).0@,
                    (#[trigger] ng[j]).0@,
                ) by {
                    if j == gs.len() {
                        assert(!path_eq(gs[i].0@, pairs.last().0@));
                    }
                }
            },
        }
    }
}

/// Every match lands in the group of its file: a group whose path names the
/// same file and whose entries include the match's entry.
pub proof fn lemma_groups_cover(pairs: Seq<(String, AliasMatchView)>)
    ensures
        forall|i: int|
            0 <= i < pairs.len() ==> exists|m: int|
                0 <= m < groups_of(pairs).len() && path_eq(groups_of(pairs)[m].0@, (#[trigger] pairs[i]).0@)
                    && groups_of(pairs)[m].1.contains(pairs[i].1),
    decreases pairs.len(),
{
    if pairs.len() > 0 {
        let init = pairs.drop_last();
        let gs = groups_of(init);
        let last = pairs.last();
        lemma_groups_cover(init);
        lemma_find_group(gs, last.0@);
        let ng = groups_of(pairs);
        assert forall|i: int| 0 <= i < pairs.len() implies exists|m: int|
            0 <= m < ng.len() && path_eq(ng[m].0@, (#[trigger] pairs[i]).0@) && ng[m].1.contains(pairs[i].1) by {
            if i < init.len() {
                assert(init[i] == pairs[i]);
                let m = choose|m: int|
                    0 <= m < gs.len() && path_eq(gs[m].0@, (#[trigger] init[i]).0@) && gs[m].1.contains(init[i].1);
                match find_group(gs, last.0@) {
                    Some(k) => {
                        if m == k {
                            let j = choose|j: int| 0 <= j < gs[m].1.len() && gs[m].1[j] == init[i].1;
                            assert(ng[m].1[j] == init[i].1);
                        }
                        assert(ng[m].0 == gs[m].0);
                        assert(ng[m].1.contains(pairs[i].1));
                    },
                    None => {
                        assert(ng[m] == gs[m]);
                    },
                }
            } else {
                match find_group(gs, last.0@) {
                    Some(k) => {
                        assert(ng[k].1[ng[k].1.len() - 1] == last.1);
                        assert(ng[k].1.contains(pairs[i].1));
                    },
                    None => {
                        assert(ng[gs.len() as int].1[0] == last.1);
                        assert(ng[gs.len() as int].1.contains(pairs[i].1));
                    },
                }
            }
        }
    }
}

/// The index of the group for `path` in `groups`, if there is one.
fn find_group_index(groups: &Vec<LocalFontGroup>, path: &String, Ghost(model): Ghost<Seq<GroupModel>>) -> (r: Option<usize>)
    requires
        groups@.len() == model.len(),
        forall|k: int| 0 <= k < model.len() ==> (#[trigger] groups@[k]).font_path == model[k].0,
    ensures
        match r {
            Some(i) => i < groups@.len() && find_group(model, path@) == Some(i as int),
            None => find_group(model, path@) is None,
        },
{
    proof {
        lemma_find_group(model, path@);
    }
    let p = chars_of(path.as_str());
    let mut i: usize = 0;
    while i < groups.len()
        invariant
            i <= groups@.len() == model.len(),
            p@ == path@,
            forall|k: int| 0 <= k < model.len() ==> (#[trigger] groups@[k]).font_path == model[k].0,
            forall|j: int| 0 <= j < i ==> !path_eq(#[trigger] model[j].0@, path@),
            match find_group(model, path@) {
                Some(f) => 0 <= f < model.len() && path_eq(model[f].0@, path@) && forall|j: int|
                    0 <= j < f ==> !path_eq(#[trigger] model[j].0@, path@),
                None => forall|j: int| 0 <= j < model.len() ==> !path_eq(#[trigger] model[j].0@, path@),
            },
        decreases groups.len() - i,
    {
        let q = chars_of(groups[i].font_path.as_str());
        if path_equal(q.as_slice(), p.as_slice()) {
            proof {
                assert(path_eq(model[i as int].0@, path@));
                match find_group(model, path@) {
                    Some(f) => {
                        if f > i {
                            assert(!path_eq(model[i as int].0@, path@));
                        }
                    },
                    None => {
                        assert(!path_eq(model[i as int].0@, path@));
                    },
                }
            }
            return Some(i);
        }
        i += 1;
    }
    None
}

fn is_path_loaded(loaded: &Vec<LoadedFont>, path: &String) -> (r: bool)
    ensures
        r == path_loaded(loaded_views(loaded@), path@),
{
    let p = chars_of(path.as_str());
    let mut i: usize = 0;
    while i < loaded.len()
        invariant
            i <= loaded@.len(),
            p@ == path@,
            forall|j: int| 0 <= j < i ==> !path_eq(#[trigger] loaded_views(loaded@)[j].0, path@),
        decreases loaded.len() - i,
    {
        let q = chars_of(loaded[i].path.as_str());
        if path_equal(q.as_slice(), p.as_slice()) {
            proof {
                assert(path_eq(loaded_views(loaded@)[i as int].0, path@));
            }
            return true;
        }
        i += 1;
    }
    false
}

fn path_load_error(failed: &Vec<FailedFont>, path: &String) -> (r: Option<String>)
    ensures
        opt_view(r) == path_error(failed_views(failed@), path@),
{
    let ghost fv = failed_views(failed@);
    let p = chars_of(path.as_str());
    let mut i: usize = failed.len();
    proof {
        assert(fv.take(i as int) =~= fv);
    }
    while i > 0
        invariant
            i <= failed@.len(),
            p@ == path@,
            fv == failed_views(failed@),
            path_error(fv, path@) == path_error(fv.take(i as int), path@),
        decreases i,
    {
        proof {
            assert(fv.take(i as int).drop_last() =~= fv.take(i - 1));
            assert(fv.take(i as int).last() == fv[i - 1]);
        }
        let q = chars_of(failed[i - 1].path.as_str());
        if path_equal(q.as_slice(), p.as_slice()) {
            return Some(failed[i - 1].error.clone());
        }
        i -= 1;
    }
    None
}

impl SubtitleLoadView {
    /// Builds the view of a subtitle load from what each step gave: the number
    /// of subtitle files, the number of required names, the declared but unused
    /// names, the names left to system fonts, the resolution of the rest, and the
    /// result of loading the resolved files.
    ///
    /// Matches are grouped by font file (one group per file, in path order);
    /// within a group the entries are sorted by requested name, and the group
    /// tells whether its file was loaded and, if loading failed, the last error
    /// reported for it.
    pub fn from_resolve_report(
        subtitle_count: usize,
        required_alias_count: usize,
        declared_but_unused_aliases: Vec<String>,
        system_aliases: Vec<String>,
        report: ResolveReport,
        load_summary: &LoadSummary,
    ) -> (v: SubtitleLoadView)
        ensures
            v.subtitle_count == subtitle_count,
            v.required_alias_count == required_alias_count,
            v.skipped_system_alias_count == system_aliases@.len(),
            v.missing_alias_count == report.missing@.len(),
            v.declared_but_unused_alias_count == declared_but_unused_aliases@.len(),
            v.system_aliases == system_aliases,
            v.missing_aliases == report.missing,
            v.declared_but_unused_aliases == declared_but_unused_aliases,
            v.loaded_local_font_count == loaded_group_count(v.local_groups@),
            v.local_groups@.len() == groups_of(match_pairs(report.matched@)).len(),
            forall|i: int, j: int|
                0 <= i < j < v.local_groups@.len() ==> path_lt(
                    (#[trigger] v.local_groups@[i]).font_path@,
                    (#[trigger] v.local_groups@[j]).font_path@,
                ),
            forall|k: int|
                0 <= k < v.local_groups@.len() ==> shows_some(
                    #[trigger] v.local_groups@[k],
                    groups_of(match_pairs(report.matched@)),
                    *load_summary,
                ),
    {
        let ghost pairs = match_pairs(report.matched@);
        let mut groups: Vec<LocalFontGroup> = Vec::new();
        let ghost mut model: Seq<GroupModel> = Seq::empty();
        let mut r: usize = 0;
        proof {
            assert(report.matched@.take(0) =~= Seq::<ResolvedFont>::empty());
        }
        while r < report.matched.len()
            invariant
                r <= report.matched@.len(),
                pairs == match_pairs(report.matched@),
                model == groups_of(match_pairs(report.matched@.take(r as int))),
                groups@.len() == model.len(),
                forall|k: int| 0 <= k < model.len() ==> {
                    &&& (#[trigger] groups@[k]).font_path == model[k].0
                    &&& groups@[k].aliases@ == model[k].1
                    &&& groups@[k].loaded == path_loaded(loaded_views(load_summary.loaded@), model[k].0@)
                    &&& opt_view(groups@[k].load_error) == path_error(failed_views(load_summary.failed@), model[k].0@)
                },
            decreases report.matched.len() - r,
        {
            let resolved = &report.matched[r];
            let ghost base = match_pairs(report.matched@.take(r as int));
            let ghost added = resolved.matches@.map_values(
                |m: FontMatch| (m.canonical_path, alias_match_of(resolved.requested_name, m)),
            );
            proof {
                assert(report.matched@.take(r + 1).drop_last() =~= report.matched@.take(r as int));
                assert(report.matched@.take(r + 1).last() == *resolved);
                assert(base + added.take(0) =~= base);
            }
            let mut j: usize = 0;
            while j < resolved.matches.len()
                invariant
                    j <= resolved.matches@.len(),
                    added == resolved.matches@.map_values(
                        |m: FontMatch| (m.canonical_path, alias_match_of(resolved.requested_name, m)),
                    ),
                    model == groups_of(base + added.take(j as int)),
                    groups@.len() == model.len(),
                    forall|k: int| 0 <= k < model.len() ==> {
                        &&& (#[trigger] groups@[k]).font_path == model[k].0
                        &&& groups@[k].aliases@ == model[k].1
                        &&& groups@[k].loaded == path_loaded(loaded_views(load_summary.loaded@), model[k].0@)
                        &&& opt_view(groups@[k].load_error) == path_error(failed_views(load_summary.failed@), model[k].0@)
                    },
                decreases resolved.matches.len() - j,
            {
                let font_match = &resolved.matches[j];
                let entry = AliasMatchView {
                    requested_name: resolved.requested_name.clone(),
                    matched_alias: font_match.matched_alias.clone(),
                    alias_kind: font_match.alias_kind.clone(),
                    face_index: font_match.face_index,
                };
                let path = font_match.canonical_path.clone();
                proof {
                    let s2 = base + added.take(j + 1);
                    assert(s2.drop_last() =~= base + added.take(j as int));
                    assert(s2.last() == (path, entry));
                }
                let found = find_group_index(&groups, &path, Ghost(model));
                match found {
                    Some(g) => {
                        let ghost old_groups = groups@;
                        let mut group = groups.remove(g);
                        group.aliases.push(entry);
                        groups.insert(g, group);
                        proof {
                            model = model.update(g as int, (model[g as int].0, model[g as int].1.push(entry)));
                            assert forall|k: int| 0 <= k < model.len() implies {
                                &&& (#[trigger] groups@[k]).font_path == model[k].0
                                &&& groups@[k].aliases@ == model[k].1
                                &&& groups@[k].loaded == path_loaded(loaded_views(load_summary.loaded@), model[k].0@)
                                &&& opt_view(groups@[k].load_error) == path_error(failed_views(load_summary.failed@), model[k].0@)
                            } by {
                                if k != g {
                                    assert(groups@[k] == old_groups[k]);
                                }
                            }
                        }
                    },
                    None => {
                        let loaded = is_path_loaded(&load_summary.loaded, &path);
                        let load_error = path_load_error(&load_summary.failed, &path);
                        let mut aliases: Vec<AliasMatchView> = Vec::new();
                        aliases.push(entry);
                        proof {
                            assert(aliases@ =~= seq![entry]);
                        }
                        let ghost old_groups = groups@;
                        groups.push(LocalFontGroup { font_path: path, loaded, load_error, aliases });
                        proof {
                            model = model.push((path, seq![entry]));
                            assert forall|k: int| 0 <= k < model.len() implies {
                                &&& (#[trigger] groups@[k]).font_path == model[k].0
                                &&& groups@[k].aliases@ == model[k].1
                                &&& groups@[k].loaded == path_loaded(loaded_views(load_summary.loaded@), model[k].0@)
                                &&& opt_view(groups@[k].load_error) == path_error(failed_views(load_summary.failed@), model[k].0@)
                            } by {
                                if k < old_groups.len() {
                                    assert(groups@[k] == old_groups[k]);
                                }
                            }
                        }
                    },
                }
                j += 1;
            }
            proof {
                assert(added.take(resolved.matches@.len() as int) =~= added);
            }
            r += 1;
        }
        proof {
            assert(report.matched@.take(report.matched@.len() as int) =~= report.matched@);
            lemma_groups_distinct(pairs);
        }
        // Sort each group's entries by requested name.
        let n = groups.len();
        let ghost gseq = groups@;
        let mut sorted_groups: Vec<LocalFontGroup> = Vec::new();
        let mut rest = groups;
        let mut pending: Vec<LocalFontGroup> = Vec::new();
        while rest.len() > 0
            invariant
                rest@.len() + pending@.len() == n,
                forall|k: int| 0 <= k < rest@.len() ==> #[trigger] rest@[k] == gseq[k],
                forall|k: int| 0 <= k < pending@.len() ==> #[trigger] pending@[k] == gseq[n - 1 - k],
                gseq.len() == n,
            decreases rest.len(),
        {
            let x = rest.pop().unwrap();
            pending.push(x);
        }
        while pending.len() > 0
            invariant
                sorted_groups@.len() + pending@.len() == n,
                gseq.len() == n,
                forall|k: int| 0 <= k < pending@.len() ==> #[trigger] pending@[k] == gseq[n - 1 - k],
                forall|k: int| 0 <= k < sorted_groups@.len() ==> {
                    &&& (#[trigger] sorted_groups@[k]).font_path == gseq[k].font_path
                    &&& sorted_groups@[k].aliases@ == insertion_sorted(Seq::<AliasMatchView>::empty(), gseq[k].aliases@)
                    &&& sorted_groups@[k].loaded == gseq[k].loaded
                    &&& sorted_groups@[k].load_error == gseq[k].load_error
                },
            decreases pending.len(),
        {
            let g = pending.pop().unwrap();
            let aliases = stable_sort(g.aliases);
            sorted_groups.push(LocalFontGroup {
                font_path: g.font_path,
                loaded: g.loaded,
                load_error: g.load_error,
                aliases,
            });
        }
        let ghost unsorted = sorted_groups@;
        let local_groups = stable_sort(sorted_groups);
        proof {
            let gm = groups_of(pairs);
            assert(gm == model);
            assert forall|k: int| 0 <= k < unsorted.len() implies group_shows(
                #[trigger] unsorted[k],
                gm[k],
                *load_summary,
            ) by {}
            lemma_sorted_groups(unsorted, local_groups@, gm, *load_summary);
        }
        let loaded_local_font_count = count_loaded(&local_groups);
        let skipped_system_alias_count = system_aliases.len();
        let missing_alias_count = report.missing.len();
        let declared_but_unused_alias_count = declared_but_unused_aliases.len();
        SubtitleLoadView {
            subtitle_count,
            required_alias_count,
            skipped_system_alias_count,
            loaded_local_font_count,
            missing_alias_count,
            declared_but_unused_alias_count,
            local_groups,
            system_aliases,
            missing_aliases: report.missing,
            declared_but_unused_aliases,
        }
    }


    /// The report shown to the user: the counts, then each local font file with
    /// the names it answers to, then the names left to system fonts and the
    /// names that were not found.
    pub fn render_text(&self) -> (r: String)
        ensures
            r@ == render_view(*self),
    {
        let mut out = String::new();
        push_count_line(&mut out, "Loaded local fonts: ", self.loaded_local_font_count);
        push_count_line(&mut out, "Skipped system fonts: ", self.skipped_system_alias_count);
        push_count_line(&mut out, "Missing fonts: ", self.missing_alias_count);
        push_count_line(&mut out, "Subtitle files: ", self.subtitle_count);
        push_count_line(&mut out, "Required aliases: ", self.required_alias_count);
        out.push('\n');
        let ghost head = out@;
        let mut i: usize = 0;
        proof {
            assert(self.local_groups@.take(0) =~= Seq::<LocalFontGroup>::empty());
            assert(head + groups_text(self.local_groups@.take(0)) =~= out@);
        }
        while i < self.local_groups.len()
            invariant
                i <= self.local_groups@.len(),
                out@ == head + groups_text(self.local_groups@.take(i as int)),
            decreases self.local_groups.len() - i,
        {
            let ghost before = out@;
            push_group(&mut out, &self.local_groups[i]);
            proof {
                assert(self.local_groups@.take(i + 1).drop_last() =~= self.local_groups@.take(i as int));
                assert(self.local_groups@.take(i + 1).last() == self.local_groups@[i as int]);
                assert(out@ =~= head + groups_text(self.local_groups@.take(i + 1)));
            }
            i += 1;
        }
        proof {
            assert(self.local_groups@.take(self.local_groups@.len() as int) =~= self.local_groups@);
        }
        let ghost mid = out@;
        if !self.system_aliases.is_empty() {
            push_line(&mut out, "[SYSTEM SKIPPED]");
            push_list(&mut out, &self.system_aliases);
            out.push('\n');
        }
        proof {
            assert(out@ =~= mid + system_text(self.system_aliases@));
        }
        let ghost mid2 = out@;
        if !self.missing_aliases.is_empty() {
            push_line(&mut out, "[MISSING]");
            push_list(&mut out, &self.missing_aliases);
        }
        proof {
            assert(out@ =~= mid2 + missing_text(self.missing_aliases@));
            assert(out@ =~= render_view(*self));
        }
        out
    }

    }

    /// Two views show the same thing.
    pub open spec fn same_load_view(a: SubtitleLoadView, b: SubtitleLoadView) -> bool {
        &&& a.subtitle_count == b.subtitle_count
        &&& a.required_alias_count == b.required_alias_count
        &&& a.skipped_system_alias_count == b.skipped_system_alias_count
        &&& a.loaded_local_font_count == b.loaded_local_font_count
        &&& a.missing_alias_count == b.missing_alias_count
        &&& a.declared_but_unused_alias_count == b.declared_but_unused_alias_count
        &&& a.local_groups@.len() == b.local_groups@.len()
        &&& forall|k: int| 0 <= k < a.local_groups@.len() ==> same_group(#[trigger] a.local_groups@[k], b.local_groups@[k])
        &&& a.system_aliases@ == b.system_aliases@
        &&& a.missing_aliases@ == b.missing_aliases@
        &&& a.declared_but_unused_aliases@ == b.declared_but_unused_aliases@
    }

    pub open spec fn same_group(a: LocalFontGroup, b: LocalFontGroup) -> bool {
        &&& a.font_path == b.font_path
        &&& a.loaded == b.loaded
        &&& a.load_error == b.load_error
        &&& a.aliases@ == b.aliases@
    }

    fn copy_strings(v: &Vec<String>) -> (r: Vec<String>)
        ensures
            r@ == v@,
    {
        let mut r: Vec<String> = Vec::new();
        let mut i: usize = 0;
        while i < v.len()
            invariant
                i <= v@.len(),
                r@ == v@.take(i as int),
            decreases v.len() - i,
        {
            r.push(v[i].clone());
            proof {
                assert(v@.take(i + 1) =~= v@.take(i as int).push(v@[i as int]));
            }
            i += 1;
        }
        proof {
            assert(v@.take(v@.len() as int) =~= v@);
        }
        r
    }

    fn copy_group(g: &LocalFontGroup) -> (r: LocalFontGroup)
        ensures
            same_group(r, *g),
    {
        let mut aliases: Vec<AliasMatchView> = Vec::new();
        let mut i: usize = 0;
        while i < g.aliases.len()
            invariant
                i <= g.aliases@.len(),
                aliases@ == g.aliases@.take(i as int),
            decreases g.aliases.len() - i,
        {
            let a = &g.aliases[i];
            aliases.push(AliasMatchView {
                requested_name: a.requested_name.clone(),
                matched_alias: a.matched_alias.clone(),
                alias_kind: a.alias_kind.clone(),
                face_index: a.face_index,
            });
            proof {
                assert(g.aliases@.take(i + 1) =~= g.aliases@.take(i as int).push(g.aliases@[i as int]));
            }
            i += 1;
        }
        proof {
            assert(g.aliases@.take(g.aliases@.len() as int) =~= g.aliases@);
        }
        let load_error = match &g.load_error {
            Some(e) => Some(e.clone()),
            None => None,
        };
        LocalFontGroup { font_path: g.font_path.clone(), loaded: g.loaded, load_error, aliases }
    }

    impl SubtitleLoadView {
        /// A copy of the view.
        pub fn copy(&self) -> (r: Self)
            ensures
                same_load_view(r, *self),
        {
            let mut groups: Vec<LocalFontGroup> = Vec::new();
            let mut i: usize = 0;
            while i < self.local_groups.len()
                invariant
                    i <= self.local_groups@.len(),
                    groups@.len() == i,
                    forall|k: int| 0 <= k < i ==> same_group(#[trigger] groups@[k], self.local_groups@[k]),
                decreases self.local_groups.len() - i,
            {
                groups.push(copy_group(&self.local_groups[i]));
                i += 1;
            }
            SubtitleLoadView {
                subtitle_count: self.subtitle_count,
                required_alias_count: self.required_alias_count,
                skipped_system_alias_count: self.skipped_system_alias_count,
                loaded_local_font_count: self.loaded_local_font_count,
                missing_alias_count: self.missing_alias_count,
                declared_but_unused_alias_count: self.declared_but_unused_alias_count,
                local_groups: groups,
                system_aliases: copy_strings(&self.system_aliases),
                missing_aliases: copy_strings(&self.missing_aliases),
                declared_but_unused_aliases: copy_strings(&self.declared_but_unused_aliases),
            }
        }
}

/// A line of text.
pub open spec fn line(s: Seq<char>) -> Seq<char> {
    s.push('\n')
}

pub open spec fn alias_text(a: AliasMatchView) -> Seq<char> {
    line("  - Requested: "@ + a.requested_name@) + line("    Matched alias: "@ + a.matched_alias@)
        + line("    Alias kind: "@ + a.alias_kind@) + line("    Face index: "@ + decimal(a.face_index as nat))
}

pub open spec fn aliases_text(s: Seq<AliasMatchView>) -> Seq<char>
    decreases s.len(),
{
    if s.len() == 0 {
        seq![]
    } else {
        aliases_text(s.drop_last()) + alias_text(s.last())
    }
}

pub open spec fn group_head_text(g: LocalFontGroup) -> Seq<char> {
    if g.loaded {
        line("[LOCAL LOADED] "@ + g.font_path@)
    } else {
        line("[LOCAL LOAD FAILED] "@ + g.font_path@) + match g.load_error {
            Some(e) => line("  Error: "@ + e@),
            None => seq![],
        }
    }
}

pub open spec fn group_text(g: LocalFontGroup) -> Seq<char> {
    group_head_text(g) + aliases_text(g.aliases@) + seq!['\n']
}

pub open spec fn groups_text(gs: Seq<LocalFontGroup>) -> Seq<char>
    decreases gs.len(),
{
    if gs.len() == 0 {
        seq![]
    } else {
        groups_text(gs.drop_last()) + group_text(gs.last())
    }
}

pub open spec fn list_text(s: Seq<String>) -> Seq<char>
    decreases s.len(),
{
    if s.len() == 0 {
        seq![]
    } else {
        list_text(s.drop_last()) + line("  - "@ + s.last()@)
    }
}

pub open spec fn system_text(s: Seq<String>) -> Seq<char> {
    if s.len() == 0 {
        seq![]
    } else {
        line("[SYSTEM SKIPPED]"@) + list_text(s) + seq!['\n']
    }
}

pub open spec fn missing_text(s: Seq<String>) -> Seq<char> {
    if s.len() == 0 {
        seq![]
    } else {
        line("[MISSING]"@) + list_text(s)
    }
}

/// The text `render_text` gives for a view.
pub open spec fn render_view(v: SubtitleLoadView) -> Seq<char> {
    line("Loaded local fonts: "@ + decimal(v.loaded_local_font_count as nat))
        + line("Skipped system fonts: "@ + decimal(v.skipped_system_alias_count as nat))
        + line("Missing fonts: "@ + decimal(v.missing_alias_count as nat))
        + line("Subtitle files: "@ + decimal(v.subtitle_count as nat))
        + line("Required aliases: "@ + decimal(v.required_alias_count as nat)) + seq!['\n']
        + groups_text(v.local_groups@) + system_text(v.system_aliases@) + missing_text(v.missing_aliases@)
}

fn push_line(out: &mut String, text: &str)
    ensures
        final(out)@ == old(out)@ + line(text@),
{
    push_str(out, text);
    out.push('\n');
    proof {
        assert(final(out)@ =~= old(out)@ + line(text@));
    }
}

fn push_value_line(out: &mut String, prefix: &str, value: &str)
    ensures
        final(out)@ == old(out)@ + line(prefix@ + value@),
{
    push_str(out, prefix);
    push_str(out, value);
    out.push('\n');
    proof {
        assert(final(out)@ =~= old(out)@ + line(prefix@ + value@));
    }
}

fn push_count_line(out: &mut String, prefix: &str, n: usize)
    ensures
        final(out)@ == old(out)@ + line(prefix@ + decimal(n as nat)),
{
    push_str(out, prefix);
    push_decimal(out, n as u64);
    out.push('\n');
    proof {
        assert(final(out)@ =~= old(out)@ + line(prefix@ + decimal(n as nat)));
    }
}

fn push_list(out: &mut String, items: &Vec<String>)
    ensures
        final(out)@ == old(out)@ + list_text(items@),
{
    let mut i: usize = 0;
    proof {
        assert(items@.take(0) =~= Seq::<String>::empty());
        assert(out@ =~= old(out)@ + list_text(items@.take(0)));
    }
    while i < items.len()
        invariant
            i <= items@.len(),
            out@ == old(out)@ + list_text(items@.take(i as int)),
        decreases items.len() - i,
    {
        push_value_line(out, "  - ", items[i].as_str());
        proof {
            assert(items@.take(i + 1).drop_last() =~= items@.take(i as int));
            assert(items@.take(i + 1).last() == items@[i as int]);
            assert(out@ =~= old(out)@ + list_text(items@.take(i + 1)));
        }
        i += 1;
    }
    proof {
        assert(items@.take(items@.len() as int) =~= items@);
    }
}

fn push_group(out: &mut String, g: &LocalFontGroup)
    ensures
        final(out)@ == old(out)@ + group_text(*g),
{
    if g.loaded {
        push_value_line(out, "[LOCAL LOADED] ", g.font_path.as_str());
    } else {
        push_value_line(out, "[LOCAL LOAD FAILED] ", g.font_path.as_str());
        match &g.load_error {
            Some(error) => push_value_line(out, "  Error: ", error.as_str()),
            None => {},
        }
    }
    proof {
        assert(out@ =~= old(out)@ + group_head_text(*g));
    }
    let ghost head = out@;
    let mut i: usize = 0;
    proof {
        assert(g.aliases@.take(0) =~= Seq::<AliasMatchView>::empty());
        assert(out@ =~= head + aliases_text(g.aliases@.take(0)));
    }
    while i < g.aliases.len()
        invariant
            i <= g.aliases@.len(),
            out@ == head + aliases_text(g.aliases@.take(i as int)),
        decreases g.aliases.len() - i,
    {
        let a = &g.aliases[i];
        let ghost before = out@;
        push_value_line(out, "  - Requested: ", a.requested_name.as_str());
        push_value_line(out, "    Matched alias: ", a.matched_alias.as_str());
        push_value_line(out, "    Alias kind: ", a.alias_kind.as_str());
        push_count_line(out, "    Face index: ", a.face_index as usize);
        proof {
            assert(g.aliases@.take(i + 1).drop_last() =~= g.aliases@.take(i as int));
            assert(g.aliases@.take(i + 1).last() == *a);
            assert(out@ =~= head + aliases_text(g.aliases@.take(i + 1)));
        }
        i += 1;
    }
    proof {
        assert(g.aliases@.take(g.aliases@.len() as int) =~= g.aliases@);
    }
    out.push('\n');
    proof {
        assert(final(out)@ =~= old(out)@ + group_text(*g));
    }
}

proof fn lemma_sorted_groups(
    unsorted: Seq<LocalFontGroup>,
    sorted: Seq<LocalFontGroup>,
    gm: Seq<GroupModel>,
    summary: LoadSummary,
)
    requires
        unsorted.len() == gm.len(),
        groups_distinct(gm),
        forall|k: int| 0 <= k < unsorted.len() ==> group_shows(#[trigger] unsorted[k], gm[k], summary),
        sorted.to_multiset() == unsorted.to_multiset(),
        sorted_by_key(sorted),
    ensures
        sorted.len() == gm.len(),
        forall|i: int, j: int|
            0 <= i < j < sorted.len() ==> path_lt((#[trigger] sorted[i]).font_path@, (#[trigger] sorted[j]).font_path@),
        forall|k: int| 0 <= k < sorted.len() ==> shows_some(#[trigger] sorted[k], gm, summary),
{
    broadcast use vstd::seq_lib::to_multiset_contains;
    broadcast use vstd::multiset::group_multiset_axioms;
    vstd::seq_lib::to_multiset_len(sorted);
    vstd::seq_lib::to_multiset_len(unsorted);
    assert forall|k: int| 0 <= k < sorted.len() implies shows_some(#[trigger] sorted[k], gm, summary) by {
        assert(sorted.to_multiset().count(sorted[k]) > 0);
        assert(unsorted.contains(sorted[k]));
        let m = choose|m: int| 0 <= m < unsorted.len() && unsorted[m] == sorted[k];
        assert(group_shows(unsorted[m], gm[m], summary));
        assert(group_shows(sorted[k], gm[m], summary));
    }
    assert(unsorted.no_duplicates()) by {
        assert forall|i: int, j: int| 0 <= i < unsorted.len() && 0 <= j < unsorted.len() && i != j implies unsorted[i] != unsorted[j] by {
            if i < j {
                assert(!path_eq(gm[i].0@, gm[j].0@));
            } else {
                assert(!path_eq(gm[j].0@, gm[i].0@));
            }
        }
    }
    unsorted.lemma_multiset_has_no_duplicates();
    sorted.lemma_multiset_has_no_duplicates_conv();
    assert forall|i: int, j: int|
        0 <= i < j < sorted.len() implies path_lt((#[trigger] sorted[i]).font_path@, (#[trigger] sorted[j]).font_path@) by {
        assert(sorted.to_multiset().count(sorted[i]) > 0);
        assert(sorted.to_multiset().count(sorted[j]) > 0);
        let a = choose|a: int| 0 <= a < unsorted.len() && unsorted[a] == sorted[i];
        let b = choose|b: int| 0 <= b < unsorted.len() && unsorted[b] == sorted[j];
        assert(sorted[i] != sorted[j]);
        assert(a != b);
        if a < b {
            assert(!path_eq(gm[a].0@, gm[b].0@));
        } else {
            assert(!path_eq(gm[b].0@, gm[a].0@));
        }
        assert(path_keys(sorted[i].font_path@) != path_keys(sorted[j].font_path@));
        assert(!lex_lt(sorted[j].sort_key(), sorted[i].sort_key()));
        lemma_lex_total(sorted[i].sort_key(), sorted[j].sort_key());
    }
}

fn count_loaded(groups: &Vec<LocalFontGroup>) -> (r: usize)
    ensures
        r == loaded_group_count(groups@),
{
    let mut count: usize = 0;
    let mut i: usize = 0;
    proof {
        assert(groups@.take(0) =~= Seq::<LocalFontGroup>::empty());
    }
    while i < groups.len()
        invariant
            i <= groups@.len(),
            count == loaded_group_count(groups@.take(i as int)),
            count <= i,
        decreases groups.len() - i,
    {
        proof {
            assert(groups@.take(i + 1).drop_last() =~= groups@.take(i as int));
        }
        if groups[i].loaded {
            count += 1;
        }
        i += 1;
    }
    proof {
        assert(groups@.take(groups@.len() as int) =~= groups@);
    }
    count
}

} // verus!
