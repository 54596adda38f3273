//! A session of temporarily loaded fonts.
//!
//! The system calls that add and remove a font resource are made by the
//! caller; the session is told what each call returned (the number of font
//! resources added, or zero for a failure) and keeps the books: which fonts
//! are loaded, what each load or unload did, and in which order fonts are to
//! be removed again.

use vstd::prelude::*;

use crate::text::push_str;

verus! {

/// A font file whose resources were added.
#[derive(Debug, Clone)]
pub struct LoadedFont {
    pub path: String,
    pub resource_count: i32,
}

/// A font file whose resources could not be added or removed.
#[derive(Debug, Clone)]
pub struct FailedFont {
    pub path: String,
    pub error: String,
}

/// What a load did.
#[derive(Debug, Clone)]
pub struct LoadSummary {
    pub loaded: Vec<LoadedFont>,
    pub failed: Vec<FailedFont>,
}

/// What an unload did.
#[derive(Debug, Clone)]
pub struct UnloadSummary {
    pub unloaded: Vec<LoadedFont>,
    pub failed: Vec<FailedFont>,
}

/// The fonts loaded so far, in the order they were loaded.
#[derive(Debug)]
pub struct FontSession {
    loaded: Vec<LoadedFont>,
}

/// A loaded font as plain values: its path and resource count.
pub type LoadedView = (Seq<char>, i32);

/// A failure as plain values: the path and the message.
pub type FailedView = (Seq<char>, Seq<char>);

pub open spec fn loaded_view(f: LoadedFont) -> LoadedView {
    (f.path@, f.resource_count)
}

pub open spec fn failed_view(f: FailedFont) -> FailedView {
    (f.path@, f.error@)
}

pub open spec fn loaded_views(s: Seq<LoadedFont>) -> Seq<LoadedView> {
    s.map_values(|f: LoadedFont| loaded_view(f))
}

pub open spec fn failed_views(s: Seq<FailedFont>) -> Seq<FailedView> {
    s.map_values(|f: FailedFont| failed_view(f))
}

impl View for FontSession {
    type V = Seq<LoadedView>;

    closed spec fn view(&self) -> Seq<LoadedView> {
        loaded_views(self.loaded@)
    }
}

/// The message for a font whose resources could not be added.
pub open spec fn add_error(path: Seq<char>) -> Seq<char> {
    "failed to add font resource: "@ + path
}

/// The message for a font whose resources could not be removed.
pub open spec fn remove_error(path: Seq<char>) -> Seq<char> {
    "failed to remove font resource: "@ + path
}

/// The attempts that added at least one resource, in order.
pub open spec fn loads_of(attempts: Seq<(String, i32)>) -> Seq<LoadedView>
    decreases attempts.len(),
{
    if attempts.len() == 0 {
        seq![]
    } else if attempts.last().1 != 0 {
        loads_of(attempts.drop_last()).push((attempts.last().0@, attempts.last().1))
    } else {
        loads_of(attempts.drop_last())
    }
}

/// The attempts that added nothing, with their messages, in order.
pub open spec fn load_failures_of(attempts: Seq<(String, i32)>) -> Seq<FailedView>
    decreases attempts.len(),
{
    if attempts.len() == 0 {
        seq![]
    } else if attempts.last().1 != 0 {
        load_failures_of(attempts.drop_last())
    } else {
        load_failures_of(attempts.drop_last()).push(
            (attempts.last().0@, add_error(attempts.last().0@)),
        )
    }
}

/// The fonts whose removal succeeded, given each font (in removal order) with
/// what its removal returned.
pub open spec fn unloads_of(fonts: Seq<LoadedView>, results: Seq<i32>) -> Seq<LoadedView>
    decreases fonts.len(),
{
    if fonts.len() == 0 {
        seq![]
    } else if results[fonts.len() - 1] != 0 {
        unloads_of(fonts.drop_last(), results).push(fonts.last())
    } else {
        unloads_of(fonts.drop_last(), results)
    }
}

/// The fonts whose removal failed, with their messages.
pub open spec fn unload_failures_of(fonts: Seq<LoadedView>, results: Seq<i32>) -> Seq<FailedView>
    decreases fonts.len(),
{
    if fonts.len() == 0 {
        seq![]
    } else if results[fonts.len() - 1] != 0 {
        unload_failures_of(fonts.drop_last(), results)
    } else {
        unload_failures_of(fonts.drop_last(), results).push(
            (fonts.last().0, remove_error(fonts.last().0)),
        )
    }
}

/// Every attempt either loads or fails, never both.
pub proof fn lemma_load_partition(attempts: Seq<(String, i32)>)
    ensures
        loads_of(attempts).len() + load_failures_of(attempts).len() == attempts.len(),
    decreases attempts.len(),
{
    if attempts.len() > 0 {
        lemma_load_partition(attempts.drop_last());
    }
}

/// Every loaded font is either unloaded or reported as failing to unload.
pub proof fn lemma_unload_partition(fonts: Seq<LoadedView>, results: Seq<i32>)
    ensures
        unloads_of(fonts, results).len() + unload_failures_of(fonts, results).len() == fonts.len(),
    decreases fonts.len(),
{
    if fonts.len() > 0 {
        lemma_unload_partition(fonts.drop_last(), results);
    }
}

/// When every removal succeeds, the fonts come off in the reverse of the
/// order in which they were loaded.
pub proof fn lemma_unload_all_succeed(fonts: Seq<LoadedView>, results: Seq<i32>)
    requires
        fonts.len() <= results.len(),
        forall|k: int| 0 <= k < fonts.len() ==> #[trigger] results[k] != 0,
    ensures
        unloads_of(fonts, results) == fonts,
        unload_failures_of(fonts, results) == Seq::<FailedView>::empty(),
    decreases fonts.len(),
{
    if fonts.len() > 0 {
        lemma_unload_all_succeed(fonts.drop_last(), results);
        assert(fonts.drop_last().push(fonts.last()) =~= fonts);
    }
}

impl LoadSummary {
    /// Other programs are told that the set of fonts changed when a load
    /// added at least one font.
    pub fn changes_fonts(&self) -> (r: bool)
        ensures
            r == (self.loaded@.len() > 0),
    {
        self.loaded.len() > 0
    }
}

impl UnloadSummary {
    /// Other programs are told that the set of fonts changed when an unload
    /// removed a font or tried to and failed.
    pub fn changes_fonts(&self) -> (r: bool)
        ensures
            r == (self.unloaded@.len() > 0 || self.failed@.len() > 0),
    {
        self.unloaded.len() > 0 || self.failed.len() > 0
    }
}

/// A call made on a session: a load, with what adding each font returned,
/// or an unload of everything.
pub enum SessionCall {
    Load(Seq<(String, i32)>),
    UnloadAll,
}

/// The fonts a session holds after `calls`, starting from `start`: a load
/// appends the fonts it loaded (as `load_fonts` does), an unload empties the
/// session (as `unload_all` does).
pub open spec fn session_after(start: Seq<LoadedView>, calls: Seq<SessionCall>) -> Seq<LoadedView>
    decreases calls.len(),
{
    if calls.len() == 0 {
        start
    } else {
        match calls.last() {
            SessionCall::Load(attempts) => session_after(start, calls.drop_last()) + loads_of(attempts),
            SessionCall::UnloadAll => Seq::empty(),
        }
    }
}

/// How many fonts the loads after the last unload of `calls` loaded (all
/// loads when there was no unload).
pub open spec fn loaded_since_unload(calls: Seq<SessionCall>) -> nat
    decreases calls.len(),
{
    if calls.len() == 0 {
        0
    } else {
        match calls.last() {
            SessionCall::Load(attempts) => loaded_since_unload(calls.drop_last()) + loads_of(attempts).len(),
            SessionCall::UnloadAll => 0,
        }
    }
}

/// A new session that is then loaded into and unloaded holds, and counts,
/// exactly the fonts loaded since the last unload (or since it was made).
pub proof fn lemma_loaded_count_history(calls: Seq<SessionCall>)
    ensures
        session_after(Seq::empty(), calls).len() == loaded_since_unload(calls),
    decreases calls.len(),
{
    if calls.len() > 0 {
        lemma_loaded_count_history(calls.drop_last());
    }
}

fn error_text(prefix: &str, path: &String) -> (r: String)
    ensures
        r@ == prefix@ + path@,
{
    let mut r = String::new();
    push_str(&mut r, prefix);
    push_str(&mut r, path.as_str());
    proof {
        assert(Seq::<char>::empty() + prefix@ + path@ =~= prefix@ + path@);
    }
    r
}

impl FontSession {
    /// A session with nothing loaded.
    pub fn new() -> (r: Self)
        ensures
            r@ == Seq::<LoadedView>::empty(),
    {
        let r = FontSession { loaded: Vec::new() };
        proof {
            assert(r@ =~= Seq::<LoadedView>::empty());
        }
        r
    }

    /// How many fonts are loaded.
    pub fn loaded_count(&self) -> (r: usize)
        ensures
            r == self@.len(),
    {
        self.loaded.len()
    }

    /// Records the outcome of adding each font: `attempts` holds each path
    /// with the number of resources its addition added, in the order the
    /// fonts were added. A non-zero count loads the font; zero fails it.
    pub fn load_fonts(&mut self, attempts: Vec<(String, i32)>) -> (summary: LoadSummary)
        ensures
            final(self)@ == old(self)@ + loads_of(attempts@),
            loaded_views(summary.loaded@) == loads_of(attempts@),
            failed_views(summary.failed@) == load_failures_of(attempts@),
    {
        let mut loaded: Vec<LoadedFont> = Vec::new();
        let mut failed: Vec<FailedFont> = Vec::new();
        let ghost start = self@;
        let mut i: usize = 0;
        proof {
            assert(attempts@.take(0) =~= Seq::<(String, i32)>::empty());
            assert(loaded_views(loaded@) =~= Seq::<LoadedView>::empty());
            assert(failed_views(failed@) =~= Seq::<FailedView>::empty());
            assert(start + loads_of(attempts@.take(0)) =~= self@);
        }
        while i < attempts.len()
            invariant
                i <= attempts.len(),
                self@ == start + loads_of(attempts@.take(i as int)),
                loaded_views(loaded@) == loads_of(attempts@.take(i as int)),
                failed_views(failed@) == load_failures_of(attempts@.take(i as int)),
            decreases attempts.len() - i,
        {
            let path = &attempts[i].0;
            let count = attempts[i].1;
            proof {
                assert(attempts@.take(i + 1).drop_last() =~= attempts@.take(i as int));
                assert(attempts@.take(i + 1).last() == attempts@[i as int]);
            }
            if count != 0 {
                let ghost before = self@;
                let ghost before_loaded = loaded_views(loaded@);
                self.loaded.push(LoadedFont { path: path.clone(), resource_count: count });
                loaded.push(LoadedFont { path: path.clone(), resource_count: count });
                proof {
                    assert(self@ =~= before.push((path@, count)));
                    assert(loaded_views(loaded@) =~= before_loaded.push((path@, count)));
                    assert(start + loads_of(attempts@.take(i + 1)) =~= (start + loads_of(
                        attempts@.take(i as int),
                    )).push((path@, count)));
                }
            } else {
                let ghost before_failed = failed_views(failed@);
                let error = error_text("failed to add font resource: ", path);
                proof {
                    reveal_strlit("failed to add font resource: ");
                }
                failed.push(FailedFont { path: path.clone(), error });
                proof {
                    assert(failed_views(failed@) =~= before_failed.push((path@, add_error(path@))));
                }
            }
            i += 1;
        }
        proof {
            assert(attempts@.take(attempts.len() as int) =~= attempts@);
        }
        LoadSummary { loaded, failed }
    }

    /// The paths of the loaded fonts in the order they are to be removed:
    /// the most recently loaded first.
    pub fn pending_unloads(&self) -> (r: Vec<String>)
        ensures
            r@.len() == self@.len(),
            forall|k: int| 0 <= k < r@.len() ==> (#[trigger] r@[k])@ == self@.reverse()[k].0,
    {
        let mut r: Vec<String> = Vec::new();
        let n = self.loaded.len();
        let mut k: usize = 0;
        while k < n
            invariant
                k <= n == self.loaded@.len(),
                r@.len() == k,
                forall|m: int| 0 <= m < k ==> (#[trigger] r@[m])@ == self@.reverse()[m].0,
            decreases n - k,
        {
            r.push(self.loaded[n - 1 - k].path.clone());
            k += 1;
        }
        r
    }

    /// Records the outcome of removing every loaded font and empties the
    /// session: `results[k]` is what the removal of the `k`-th font returned,
    /// the fonts being taken most recently loaded first (the order of
    /// `pending_unloads`). A non-zero result unloads the font; zero fails it.
    pub fn unload_all(&mut self, results: Vec<i32>) -> (summary: UnloadSummary)
        requires
            results@.len() == old(self)@.len(),
        ensures
            final(self)@ == Seq::<LoadedView>::empty(),
            loaded_views(summary.unloaded@) == unloads_of(old(self)@.reverse(), results@),
            failed_views(summary.failed@) == unload_failures_of(old(self)@.reverse(), results@),
    {
        let ghost fonts = self@.reverse();
        let mut loaded: Vec<LoadedFont> = Vec::new();
        std::mem::swap(&mut loaded, &mut self.loaded);
        let mut unloaded: Vec<LoadedFont> = Vec::new();
        let mut failed: Vec<FailedFont> = Vec::new();
        let n = loaded.len();
        let mut k: usize = 0;
        proof {
            assert(self@ =~= Seq::<LoadedView>::empty());
            assert(fonts.take(0) =~= Seq::<LoadedView>::empty());
            assert(loaded_views(unloaded@) =~= Seq::<LoadedView>::empty());
            assert(failed_views(failed@) =~= Seq::<FailedView>::empty());
        }
        while loaded.len() > 0
            invariant
                k + loaded@.len() == n,
                n == results@.len(),
                fonts.len() == n,
                forall|m: int| 0 <= m < loaded@.len() ==> loaded_view(#[trigger] loaded@[m]) == fonts[n - 1 - m],
                loaded_views(unloaded@) == unloads_of(fonts.take(k as int), results@),
                failed_views(failed@) == unload_failures_of(fonts.take(k as int), results@),
                self@ == Seq::<LoadedView>::empty(),
            decreases loaded.len(),
        {
            let font = loaded.pop().unwrap();
            let result = results[k];
            proof {
                assert(loaded_view(font) == fonts[k as int]);
                assert(fonts.take(k + 1).drop_last() =~= fonts.take(k as int));
                assert(fonts.take(k + 1).last() == fonts[k as int]);
                assert(fonts.take(k + 1).len() == k + 1);
            }
            if result != 0 {
                let ghost before = loaded_views(unloaded@);
                unloaded.push(font);
                proof {
                    assert(loaded_views(unloaded@) =~= before.push(fonts[k as int]));
                }
            } else {
                let ghost before = failed_views(failed@);
                let error = error_text("failed to remove font resource: ", &font.path);
                proof {
                    reveal_strlit("failed to remove font resource: ");
                }
                failed.push(FailedFont { path: font.path, error });
                proof {
                    assert(failed_views(failed@) =~= before.push(
                        (fonts[k as int].0, remove_error(fonts[k as int].0)),
                    ));
                }
            }
            k += 1;
        }
        proof {
            assert(fonts.take(n as int) =~= fonts);
        }
        UnloadSummary { unloaded, failed }
    }
}

} // verus!
