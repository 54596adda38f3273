//! The bookkeeping of a scan of a font directory into the index: which
//! files can be skipped, what each file did to the summary, which indexed
//! files have disappeared, and the record kept of each face.

use vstd::prelude::*;

use crate::font::index::{first_alias_for_name_id, first_alias_of, ScanSummary};
use crate::font::names::{
    alias_view, opt_view, FontAlias, FontFaceAnalysis, NAME_ID_FAMILY, NAME_ID_FULL_NAME,
    NAME_ID_POST_SCRIPT_NAME,
};
use crate::name_set::{contains_string, string_views};

verus! {

/// A file whose size and modification time match what the index recorded
/// for it is not read again.
pub fn file_is_unchanged(existing: Option<(i64, i64)>, file_size: i64, modified_at: i64) -> (r: bool)
    ensures
        r == (existing == Some((file_size, modified_at))),
{
    match existing {
        Some((size, modified)) => size == file_size && modified == modified_at,
        None => false,
    }
}

/// What happened to one file of a scan.
#[derive(Debug, Clone, Copy, PartialEq, Eq)]
pub enum ScanOutcome {
    /// Its size and modification time could not be read.
    MetadataFailed,
    /// It had not changed since the last scan.
    Unchanged,
    /// It was analysed and its faces were indexed.
    Indexed,
    /// It could not be analysed.
    AnalysisFailed,
}

impl ScanSummary {
    /// Counts one file's outcome.
    pub fn record(&mut self, outcome: ScanOutcome)
        requires
            old(self).failed_files < usize::MAX,
            old(self).skipped_unchanged_files < usize::MAX,
            old(self).indexed_files < usize::MAX,
        ensures
            final(self).root == old(self).root,
            final(self).scanned_files == old(self).scanned_files,
            final(self).unavailable_files == old(self).unavailable_files,
            final(self).failed_files == old(self).failed_files + (if outcome is MetadataFailed
                || outcome is AnalysisFailed { 1int } else { 0int }),
            final(self).skipped_unchanged_files == old(self).skipped_unchanged_files + (if outcome is Unchanged {
                1int
            } else {
                0int
            }),
            final(self).indexed_files == old(self).indexed_files + (if outcome is Indexed {
                1int
            } else {
                0int
            }),
    {
        match outcome {
            ScanOutcome::MetadataFailed => self.failed_files += 1,
            ScanOutcome::Unchanged => self.skipped_unchanged_files += 1,
            ScanOutcome::Indexed => self.indexed_files += 1,
            ScanOutcome::AnalysisFailed => self.failed_files += 1,
        }
    }
}

/// The indexed files (id, canonical path) that the scan did not see, in order.
pub open spec fn unseen_files(indexed: Seq<(i64, String)>, seen: Seq<String>) -> Seq<i64>
    decreases indexed.len(),
{
    if indexed.len() == 0 {
        seq![]
    } else if string_views(seen).contains(indexed.last().1@) {
        unseen_files(indexed.drop_last(), seen)
    } else {
        unseen_files(indexed.drop_last(), seen).push(indexed.last().0)
    }
}

/// A file is marked unavailable exactly when the scan did not see its path.
pub proof fn lemma_unseen_files(indexed: Seq<(i64, String)>, seen: Seq<String>)
    ensures
        forall|k: int|
            0 <= k < indexed.len() && !string_views(seen).contains((#[trigger] indexed[k]).1@) ==> unseen_files(
                indexed,
                seen,
            ).contains(indexed[k].0),
        forall|j: int|
            0 <= j < unseen_files(indexed, seen).len() ==> exists|k: int|
                0 <= k < indexed.len() && (#[trigger] indexed[k]).0 == #[trigger] unseen_files(indexed, seen)[j]
                    && !string_views(seen).contains(indexed[k].1@),
    decreases indexed.len(),
{
    if indexed.len() > 0 {
        let init = indexed.drop_last();
        lemma_unseen_files(init, seen);
        let u = unseen_files(init, seen);
        let w = unseen_files(indexed, seen);
        assert forall|k: int|
            0 <= k < indexed.len() && !string_views(seen).contains((#[trigger] indexed[k]).1@) implies w.contains(
                indexed[k].0,
            ) by {
            if k < init.len() {
                assert(init[k] == indexed[k]);
                assert(u.contains(indexed[k].0));
                let m = choose|m: int| 0 <= m < u.len() && u[m] == indexed[k].0;
                assert(w[m] == indexed[k].0);
            } else {
                assert(w[w.len() - 1] == indexed[k].0);
            }
        }
        assert forall|j: int| 0 <= j < w.len() implies exists|k: int|
            0 <= k < indexed.len() && (#[trigger] indexed[k]).0 == #[trigger] w[j] && !string_views(seen).contains(
                indexed[k].1@,
            ) by {
            if j < u.len() {
                assert(w[j] == u[j]);
                let k = choose|k: int|
                    0 <= k < init.len() && (#[trigger] init[k]).0 == #[trigger] u[j] && !string_views(seen).contains(
                        init[k].1@,
                    );
                assert(indexed[k] == init[k]);
            } else {
                assert(indexed[indexed.len() - 1].0 == w[j]);
            }
        }
    }
}

/// The ids of the indexed files of a root that the scan no longer found:
/// those whose canonical path is not among the paths seen.
pub fn unavailable_file_ids(indexed: &Vec<(i64, String)>, seen: &Vec<String>) -> (r: Vec<i64>)
    ensures
        r@ == unseen_files(indexed@, seen@),
{
    let mut r: Vec<i64> = Vec::new();
    let mut i: usize = 0;
    proof {
        assert(indexed@.take(0) =~= Seq::<(i64, String)>::empty());
    }
    while i < indexed.len()
        invariant
            i <= indexed@.len(),
            r@ == unseen_files(indexed@.take(i as int), seen@),
        decreases indexed.len() - i,
    {
        proof {
            assert(indexed@.take(i + 1).drop_last() =~= indexed@.take(i as int));
            assert(indexed@.take(i + 1).last() == indexed@[i as int]);
        }
        if !contains_string(seen, &indexed[i].1) {
            r.push(indexed[i].0);
        }
        i += 1;
    }
    proof {
        assert(indexed@.take(indexed@.len() as int) =~= indexed@);
    }
    r
}

/// What the index keeps of a face besides its aliases.
#[derive(Debug, Clone, PartialEq, Eq)]
pub struct FaceRecord {
    pub face_index: i64,
    pub family_name: Option<String>,
    pub full_name: Option<String>,
    pub postscript_name: Option<String>,
}

/// The record of a face: its index, and the first family, full and
/// PostScript aliases it has.
pub fn face_record(face: &FontFaceAnalysis) -> (r: FaceRecord)
    ensures
        r.face_index == face.face_index as int,
        opt_view(r.family_name) == first_alias_of(
            face.aliases@.map_values(|a: FontAlias| alias_view(a)),
            NAME_ID_FAMILY,
        ),
        opt_view(r.full_name) == first_alias_of(
            face.aliases@.map_values(|a: FontAlias| alias_view(a)),
            NAME_ID_FULL_NAME,
        ),
        opt_view(r.postscript_name) == first_alias_of(
            face.aliases@.map_values(|a: FontAlias| alias_view(a)),
            NAME_ID_POST_SCRIPT_NAME,
        ),
{
    FaceRecord {
        face_index: face.face_index as i64,
        family_name: first_alias_for_name_id(face, NAME_ID_FAMILY),
        full_name: first_alias_for_name_id(face, NAME_ID_FULL_NAME),
        postscript_name: first_alias_for_name_id(face, NAME_ID_POST_SCRIPT_NAME),
    }
}

} // verus!
