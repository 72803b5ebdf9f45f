//! The state of one backup run: which archive identifiers and which files it
//! has already taken, and the decision taken for each pattern and for each
//! entry that the directory walk hands over.

use vstd::prelude::*;
use crate::naming::{
    archive_name, get_archive_name, in_archive_name, in_archive_path, trim_pattern,
    trim_trailing_seps,
};
use crate::text_set::TextSet;

verus! {

/// One entry as the directory walk reports it. `path` is `None` where the
/// path is not valid Unicode.
pub enum WalkEntry {
    /// The walk could not read this entry.
    WalkError,
    /// The entry's file type could not be determined.
    UnknownType,
    Symlink { path: Option<String> },
    Dir { path: Option<String> },
    File { path: Option<String> },
}

/// What to do with one walk entry.
pub enum EntryAction {
    /// Nothing: an entry of unknown type, or a path taken before in this run.
    Skip,
    /// Warn that a symlink was left out.
    WarnSymlink,
    /// Warn that an entry whose path is not valid Unicode was left out.
    WarnBadPath,
    /// Warn that the walk failed on an entry, and go on.
    WarnWalkError,
    /// Append the directory at `source` to the archive under `name`.
    AppendDir { source: String, name: String },
    /// Append the file at `source` to the archive under `name`.
    AppendFile { source: String, name: String },
}

/// The archive to build for a pattern that was not seen before.
pub struct ArchivePlan {
    /// The pattern with its trailing separators trimmed: the walk's root.
    pub pattern: String,
    pub id: String,
    /// `<backup dir>/<id>.tar.age`.
    pub archive_path: String,
}

/// The identifiers and file paths that one backup run has taken so far.
pub struct RunState {
    seen_patterns: TextSet,
    seen_files: TextSet,
}

/// The archive identifier of a pattern as given by the user.
pub open spec fn pattern_id(raw: Seq<char>, home: Seq<char>) -> Seq<char> {
    archive_name(trim_trailing_seps(raw), home)
}

/// Whether a pattern gets an archive, given the identifiers taken before.
pub open spec fn accepts_pattern(ids: Set<Seq<char>>, raw: Seq<char>, home: Seq<char>) -> bool {
    !ids.contains(pattern_id(raw, home))
}

/// The identifiers taken once each pattern of `pats` has been met in turn.
pub open spec fn ids_after_patterns(
    ids: Set<Seq<char>>,
    pats: Seq<Seq<char>>,
    home: Seq<char>,
) -> Set<Seq<char>>
    decreases pats.len(),
{
    if pats.len() == 0 {
        ids
    } else {
        ids_after_patterns(ids, pats.drop_last(), home).insert(pattern_id(pats.last(), home))
    }
}

/// The path of `<dir>/<id>.tar.age`.
pub open spec fn archive_file_path(dir: Seq<char>, id: Seq<char>) -> Seq<char> {
    dir + seq!['/'] + id + seq!['.', 't', 'a', 'r', '.', 'a', 'g', 'e']
}

/// The path of a directory or file entry, where it is valid Unicode.
pub open spec fn entry_source(e: WalkEntry) -> Option<Seq<char>> {
    match e {
        WalkEntry::Dir { path: Some(p) } => Some(p@),
        WalkEntry::File { path: Some(p) } => Some(p@),
        _ => None,
    }
}

/// Whether an entry goes into the archive, given the paths taken before.
pub open spec fn appends(paths: Set<Seq<char>>, e: WalkEntry) -> bool {
    entry_source(e) is Some && !paths.contains(entry_source(e)->0)
}

/// The paths taken once `e` has been met.
pub open spec fn paths_after_entry(paths: Set<Seq<char>>, e: WalkEntry) -> Set<Seq<char>> {
    match entry_source(e) {
        Some(p) => paths.insert(p),
        None => paths,
    }
}

/// The paths taken once each entry of `es` has been met in turn.
pub open spec fn paths_after_entries(paths: Set<Seq<char>>, es: Seq<WalkEntry>) -> Set<
    Seq<char>,
>
    decreases es.len(),
{
    if es.len() == 0 {
        paths
    } else {
        paths_after_entry(paths_after_entries(paths, es.drop_last()), es.last())
    }
}

/// The sources appended, in order, while the entries of `es` are met in turn.
pub open spec fn appended_sources(paths: Set<Seq<char>>, es: Seq<WalkEntry>) -> Seq<Seq<char>>
    decreases es.len(),
{
    if es.len() == 0 {
        seq![]
    } else {
        let before = paths_after_entries(paths, es.drop_last());
        let last: Seq<Seq<char>> = if appends(before, es.last()) {
            seq![entry_source(es.last())->0]
        } else {
            seq![]
        };
        appended_sources(paths, es.drop_last()) + last
    }
}

impl RunState {
    /// Both sets keep their order.
    pub closed spec fn wf(&self) -> bool {
        self.seen_patterns.wf() && self.seen_files.wf()
    }

    /// The archive identifiers taken so far.
    pub closed spec fn seen_ids(&self) -> Set<Seq<char>> {
        self.seen_patterns.view()
    }

    /// The file paths taken so far.
    pub closed spec fn seen_paths(&self) -> Set<Seq<char>> {
        self.seen_files.view()
    }

    /// The state at the start of a run: nothing taken.
    pub fn new() -> (r: RunState)
        ensures
            r.wf(),
            r.seen_ids() == Set::<Seq<char>>::empty(),
            r.seen_paths() == Set::<Seq<char>>::empty(),
    {
        RunState { seen_patterns: TextSet::new(), seen_files: TextSet::new() }
    }

    /// Takes the archive identifier `id`; false where it was taken before.
    pub fn mark_pattern(&mut self, id: &str) -> (r: bool)
        requires
            old(self).wf(),
        ensures
            final(self).wf(),
            r == !old(self).seen_ids().contains(id@),
            final(self).seen_ids() == old(self).seen_ids().insert(id@),
            final(self).seen_paths() == old(self).seen_paths(),
    {
        self.seen_patterns.insert(id)
    }

    /// Takes the file path `path`; false where it was taken before.
    pub fn mark_file(&mut self, path: &str) -> (r: bool)
        requires
            old(self).wf(),
        ensures
            final(self).wf(),
            r == !old(self).seen_paths().contains(path@),
            final(self).seen_paths() == old(self).seen_paths().insert(path@),
            final(self).seen_ids() == old(self).seen_ids(),
    {
        self.seen_files.insert(path)
    }
    /// Decides on one pattern as given by the user: trims its trailing
    /// separators and takes its archive identifier. Returns the archive to
    /// build, or `None` where an earlier pattern of the run had the same
    /// identifier, in which case nothing under the pattern is walked.
    pub fn plan_pattern(&mut self, raw_pattern: &str, user_home: &str, backup_dir: &str) -> (r:
        Option<ArchivePlan>)
        requires
            old(self).wf(),
        ensures
            final(self).wf(),
            r is Some <==> accepts_pattern(old(self).seen_ids(), raw_pattern@, user_home@),
            final(self).seen_ids() == old(self).seen_ids().insert(
                pattern_id(raw_pattern@, user_home@),
            ),
            final(self).seen_paths() == old(self).seen_paths(),
            r matches Some(plan) ==> {
                &&& plan.pattern@ == trim_trailing_seps(raw_pattern@)
                &&& plan.id@ == pattern_id(raw_pattern@, user_home@)
                &&& plan.archive_path@ == archive_file_path(backup_dir@, plan.id@)
            },
    {
        let pattern = trim_pattern(raw_pattern);
        let id = get_archive_name(pattern, user_home);
        if !self.mark_pattern(id.as_str()) {
            return None;
        }
        let mut archive_path = String::from_str(backup_dir);
        proof {
            reveal_strlit("/");
            reveal_strlit(".tar.age");
        }
        archive_path.append("/");
        archive_path.append(id.as_str());
        archive_path.append(".tar.age");
        Some(ArchivePlan { pattern: String::from_str(pattern), id, archive_path })
    }

    /// Decides on one entry of the directory walk. Symlinks, entries of
    /// unknown type, unreadable entries and paths that are not valid Unicode
    /// are left out; a directory or file whose path this run has taken before
    /// is skipped; any other is appended under its in-archive name, and its
    /// path is taken.
    pub fn plan_entry(&mut self, entry: WalkEntry, user_home: &str) -> (r: EntryAction)
        requires
            old(self).wf(),
        ensures
            final(self).wf(),
            final(self).seen_ids() == old(self).seen_ids(),
            final(self).seen_paths() == paths_after_entry(old(self).seen_paths(), entry),
            (r is AppendDir || r is AppendFile) <==> appends(old(self).seen_paths(), entry),
            entry is Symlink ==> r is WarnSymlink,
            entry is WalkError ==> r is WarnWalkError,
            entry is UnknownType ==> r is Skip,
            (entry is Dir || entry is File) && entry_source(entry) is None ==> r is WarnBadPath,
            entry_source(entry) matches Some(p) && old(self).seen_paths().contains(p) ==> r is Skip,
            r matches EntryAction::AppendDir { source, name } ==> {
                &&& entry is Dir
                &&& entry_source(entry) == Some(source@)
                &&& name@ == in_archive_name(source@, user_home@)
            },
            r matches EntryAction::AppendFile { source, name } ==> {
                &&& entry is File
                &&& entry_source(entry) == Some(source@)
                &&& name@ == in_archive_name(source@, user_home@)
            },
    {
        match entry {
            WalkEntry::WalkError => EntryAction::WarnWalkError,
            WalkEntry::UnknownType => EntryAction::Skip,
            WalkEntry::Symlink { .. } => EntryAction::WarnSymlink,
            WalkEntry::Dir { path: None } => EntryAction::WarnBadPath,
            WalkEntry::File { path: None } => EntryAction::WarnBadPath,
            WalkEntry::Dir { path: Some(p) } => {
                if self.mark_file(p.as_str()) {
                    let name = in_archive_path(p.as_str(), user_home);
                    EntryAction::AppendDir { source: p, name }
                } else {
                    EntryAction::Skip
                }
            },
            WalkEntry::File { path: Some(p) } => {
                if self.mark_file(p.as_str()) {
                    let name = in_archive_path(p.as_str(), user_home);
                    EntryAction::AppendFile { source: p, name }
                } else {
                    EntryAction::Skip
                }
            },
        }
    }
}

proof fn lemma_ids_after_contains(
    ids: Set<Seq<char>>,
    pats: Seq<Seq<char>>,
    home: Seq<char>,
    i: int,
)
    requires
        0 <= i < pats.len(),
    ensures
        ids_after_patterns(ids, pats, home).contains(pattern_id(pats[i], home)),
    decreases pats.len(),
{
    if i < pats.len() - 1 {
        lemma_ids_after_contains(ids, pats.drop_last(), home, i);
    }
}

/// Of two patterns of a run with the same archive identifier, the later one
/// is skipped: when its turn comes, the identifier has been taken.
pub proof fn lemma_duplicate_pattern_skipped(
    ids: Set<Seq<char>>,
    pats: Seq<Seq<char>>,
    home: Seq<char>,
    i: int,
    j: int,
)
    requires
        0 <= i < j < pats.len(),
        pattern_id(pats[i], home) == pattern_id(pats[j], home),
    ensures
        !accepts_pattern(ids_after_patterns(ids, pats.take(j), home), pats[j], home),
{
    lemma_ids_after_contains(ids, pats.take(j), home, i);
    assert(pats.take(j)[i] == pats[i]);
}

/// Over a whole run, whatever the patterns' roots and however they overlap,
/// no path is appended twice nor when the run had taken it already; every
/// directory or file that the walks report with a valid path is either
/// appended once or had been taken; and the paths taken are exactly those
/// taken at the start and those appended.
pub proof fn lemma_each_path_archived_once(paths: Set<Seq<char>>, es: Seq<WalkEntry>)
    ensures
        appended_sources(paths, es).no_duplicates(),
        forall|k: int|
            0 <= k < appended_sources(paths, es).len() ==> !paths.contains(
                #[trigger] appended_sources(paths, es)[k],
            ),
        forall|p: Seq<char>|
            #[trigger] paths_after_entries(paths, es).contains(p) <==> (paths.contains(p)
                || appended_sources(paths, es).contains(p)),
        forall|k: int|
            0 <= k < es.len() && #[trigger] entry_source(es[k]) is Some ==> (paths.contains(
                entry_source(es[k])->0,
            ) || appended_sources(paths, es).contains(entry_source(es[k])->0)),
    decreases es.len(),
{
    if es.len() > 0 {
        let prev = es.drop_last();
        let e = es.last();
        lemma_each_path_archived_once(paths, prev);
        let a = appended_sources(paths, prev);
        let b = paths_after_entries(paths, prev);
        let all = appended_sources(paths, es);
        if appends(b, e) {
            let p = entry_source(e)->0;
            assert(all == a + seq![p]);
            assert(!a.contains(p));
            assert forall|x: int, y: int| 0 <= x < all.len() && 0 <= y < all.len() && x != y
                implies all[x] != all[y] by {
                if x == a.len() {
                    assert(all[y] == a[y]);
                } else if y == a.len() {
                    assert(all[x] == a[x]);
                } else {
                    assert(all[x] == a[x] && all[y] == a[y]);
                }
            }
            assert forall|k: int| 0 <= k < all.len() implies !paths.contains(#[trigger] all[k]) by {
                if k < a.len() {
                    assert(all[k] == a[k]);
                }
            }
            assert forall|q: Seq<char>| a.contains(q) implies all.contains(q) by {
                let x = choose|x: int| 0 <= x < a.len() && a[x] == q;
                assert(all[x] == q);
            }
            assert(all[a.len() as int] == p);
            assert forall|q: Seq<char>| all.contains(q) implies (a.contains(q) || q == p) by {
                let x = choose|x: int| 0 <= x < all.len() && all[x] == q;
                if x < a.len() {
                    assert(a[x] == q);
                }
            }
            assert forall|k: int|
                0 <= k < es.len() && #[trigger] entry_source(es[k]) is Some implies (paths.contains(
                entry_source(es[k])->0,
            ) || all.contains(entry_source(es[k])->0)) by {
                if k < prev.len() {
                    assert(prev[k] == es[k]);
                }
            }
        } else {
            assert(all =~= a);
            assert forall|k: int|
                0 <= k < es.len() && #[trigger] entry_source(es[k]) is Some implies (paths.contains(
                entry_source(es[k])->0,
            ) || all.contains(entry_source(es[k])->0)) by {
                if k < prev.len() {
                    assert(prev[k] == es[k]);
                } else {
                    assert(b.contains(entry_source(e)->0));
                }
            }
        }
    }
}

} // verus!
