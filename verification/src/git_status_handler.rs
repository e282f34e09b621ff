//! The change-set side of a run: reading the lines a VCS status query
//! produced, deciding for each whether it names a modified, deleted or
//! untracked file, and intersecting the candidate set against the change
//! set. Running the VCS commands, and asking whether a file is staged or
//! still exists, is the caller's part; the decisions over those answers
//! are made here.
use vstd::prelude::*;
use vstd::string::*;
use crate::distributor::FileRecord;
use crate::distributor::FileRecordView;
use crate::distributor::recs_view;
use crate::strutil::push_if_absent;
use crate::strutil::seq_contains_str;
use crate::strutil::set_insert_str;
use crate::strutil::str_eq;
use crate::strutil::trim_of;
use crate::strutil::trim_str;
use crate::strutil::vec_contains_str;
use crate::strutil::views_of;

verus! {

broadcast use vstd::seq_lib::group_seq_properties;

/// The paths a change query reported, split by kind; each holds no path
/// twice. The change set carries no ordering promise.
pub struct GitChanges {
    pub modified_files: Vec<String>,
    pub deleted_files: Vec<String>,
    pub untracked_files: Vec<String>,
}

/// Whether the change set holds the path, under any kind.
pub open spec fn changes_has(c: GitChanges, p: Seq<char>) -> bool {
    ||| seq_contains_str(views_of(c.modified_files@), p)
    ||| seq_contains_str(views_of(c.deleted_files@), p)
    ||| seq_contains_str(views_of(c.untracked_files@), p)
}

impl GitChanges {
    /// No changes at all: also what a query against something that is not
    /// a repository comes to.
    pub fn new() -> (c: GitChanges)
        ensures
            c.modified_files@.len() == 0,
            c.deleted_files@.len() == 0,
            c.untracked_files@.len() == 0,
    {
        GitChanges {
            modified_files: Vec::new(),
            deleted_files: Vec::new(),
            untracked_files: Vec::new(),
        }
    }

    /// Records a modified file.
    pub fn insert_modified(&mut self, path: &str)
        ensures
            views_of(final(self).modified_files@) == set_insert_str(
                views_of(old(self).modified_files@),
                path@,
            ),
            final(self).deleted_files@ == old(self).deleted_files@,
            final(self).untracked_files@ == old(self).untracked_files@,
    {
        push_if_absent(&mut self.modified_files, path);
    }

    /// Records a deleted file.
    pub fn insert_deleted(&mut self, path: &str)
        ensures
            views_of(final(self).deleted_files@) == set_insert_str(
                views_of(old(self).deleted_files@),
                path@,
            ),
            final(self).modified_files@ == old(self).modified_files@,
            final(self).untracked_files@ == old(self).untracked_files@,
    {
        push_if_absent(&mut self.deleted_files, path);
    }

    /// Records an untracked file.
    pub fn insert_untracked(&mut self, path: &str)
        ensures
            views_of(final(self).untracked_files@) == set_insert_str(
                views_of(old(self).untracked_files@),
                path@,
            ),
            final(self).modified_files@ == old(self).modified_files@,
            final(self).deleted_files@ == old(self).deleted_files@,
    {
        push_if_absent(&mut self.untracked_files, path);
    }

    /// Decides whether the change set holds the path, under any kind.
    pub fn contains(&self, path: &str) -> (r: bool)
        ensures
            r == changes_has(*self, path@),
    {
        vec_contains_str(&self.modified_files, path) || vec_contains_str(
            &self.deleted_files,
            path,
        ) || vec_contains_str(&self.untracked_files, path)
    }
}

/// A porcelain status line split into its two-character status code and
/// the path after them; a line of fewer than three characters carries
/// nothing.
pub open spec fn status_split(line: Seq<char>) -> Option<(Seq<char>, Seq<char>)> {
    if line.len() < 3 {
        None
    } else {
        Some((line.subrange(0, 2), line.skip(3)))
    }
}

/// Splits one status line into its code and its path.
pub fn parse_status_line(line: &str) -> (r: Option<(String, String)>)
    ensures
        match r {
            Some(pair) => status_split(line@) == Some((pair.0@, pair.1@)),
            None => status_split(line@) is None,
        },
{
    let len = line.unicode_len();
    if len < 3 {
        return None;
    }
    let status = String::from_str(line.substring_char(0, 2));
    let path = String::from_str(line.substring_char(3, len));
    Some((status, path))
}

/// What one status entry means for the change set.
pub enum StatusAction {
    /// The path joins the deleted files.
    Deleted,
    /// The path joins the untracked files.
    Untracked,
    /// The path joins the modified files.
    Modified,
    /// The entry contributes nothing.
    Skip,
}

/// The decision for one status entry: a deletion code counts when the file
/// is not staged; an untracked code counts when the file still exists; any
/// other code counts as a modification when the file is neither staged nor
/// gone.
pub open spec fn classify_status_spec(status: Seq<char>, staged: bool, exists: bool) -> StatusAction {
    if status == " D"@ || status == "D "@ {
        if !staged {
            StatusAction::Deleted
        } else {
            StatusAction::Skip
        }
    } else if status == "??"@ {
        if exists {
            StatusAction::Untracked
        } else {
            StatusAction::Skip
        }
    } else {
        if !staged && exists {
            StatusAction::Modified
        } else {
            StatusAction::Skip
        }
    }
}

/// Decides what one status entry contributes, given whether the file is
/// staged and whether it still exists.
pub fn classify_status_entry(status: &str, staged: bool, exists: bool) -> (r: StatusAction)
    ensures
        r == classify_status_spec(status@, staged, exists),
{
    if str_eq(status, " D") || str_eq(status, "D ") {
        if !staged {
            StatusAction::Deleted
        } else {
            StatusAction::Skip
        }
    } else if str_eq(status, "??") {
        if exists {
            StatusAction::Untracked
        } else {
            StatusAction::Skip
        }
    } else {
        if !staged && exists {
            StatusAction::Modified
        } else {
            StatusAction::Skip
        }
    }
}

/// The path named by one line of a deletions-only history query: the rest
/// of a line starting with `D`, whitespace trimmed; any other line names
/// nothing.
pub open spec fn log_deleted_path(line: Seq<char>) -> Option<Seq<char>> {
    if line.len() > 0 && line[0] == 'D' {
        Some(trim_of(line.drop_first()))
    } else {
        None
    }
}

/// Reads the deleted path out of one history line, if it holds one.
pub fn parse_log_deleted_line(line: &str) -> (r: Option<String>)
    ensures
        match r {
            Some(p) => log_deleted_path(line@) == Some(p@),
            None => log_deleted_path(line@) is None,
        },
{
    let len = line.unicode_len();
    if len == 0 {
        return None;
    }
    if line.get_char(0) != 'D' {
        return None;
    }
    let rest = line.substring_char(1, len);
    proof {
        assert(rest@ =~= line@.drop_first());
    }
    Some(trim_str(rest))
}

/// The candidate records whose paths the change set holds: the
/// intersection the change-aware pass works on, in candidate order.
pub fn filter_changed(files: &Vec<FileRecord>, changes: &GitChanges) -> (r: Vec<FileRecord>)
    ensures
        recs_view(r@) == recs_view(files@).filter(
            |rv: FileRecordView| changes_has(*changes, rv.path),
        ),
{
    let ghost fv = recs_view(files@);
    let ghost pred = |rv: FileRecordView| changes_has(*changes, rv.path);
    let mut r: Vec<FileRecord> = Vec::new();
    proof {
        assert(fv.take(0) =~= Seq::<FileRecordView>::empty());
        assert(fv.take(0).filter(pred) =~= Seq::<FileRecordView>::empty());
        assert(recs_view(r@) =~= Seq::<FileRecordView>::empty());
    }
    let mut i: usize = 0;
    while i < files.len()
        invariant
            i <= files@.len(),
            fv == recs_view(files@),
            fv.len() == files@.len(),
            pred == (|rv: FileRecordView| changes_has(*changes, rv.path)),
            recs_view(r@) == fv.take(i as int).filter(pred),
        decreases files@.len() - i,
    {
        proof {
            reveal_with_fuel(Seq::filter, 2);
            assert(fv.take(i + 1).drop_last() =~= fv.take(i as int));
            assert(fv.take(i + 1).last() == fv[i as int]);
            assert(fv[i as int] == files@[i as int]@);
        }
        if changes.contains(files[i].path.as_str()) {
            let ghost oldr = recs_view(r@);
            r.push(files[i].duplicate());
            proof {
                assert(recs_view(r@) =~= oldr.push(fv[i as int]));
            }
        }
        i = i + 1;
    }
    proof {
        assert(fv.take(fv.len() as int) =~= fv);
    }
    r
}

} // verus!
