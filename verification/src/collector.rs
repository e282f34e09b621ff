//! File collection: walked files are offered one by one, each passing the
//! glob matcher (where one applies) and the classifier, and land in either
//! the accepted list or the rejected provenance set; a literal path named
//! by the caller joins directly. Finishing sorts the accepted files by
//! path, removes duplicates, and reconciles the provenance so that a path
//! in the candidate set never also counts as rejected.
use vstd::prelude::*;
use vstd::string::*;
use crate::classifier::FileData;
use crate::classifier::admitted_spec;
use crate::classifier::should_include_file;
use crate::classifier::text_view;
use crate::cli::CliArgs;
use crate::distributor::FileRecord;
use crate::distributor::FileRecordView;
use crate::distributor::recs_view;
use crate::ignore_files_helper::IgnoreFilesHelper;
use crate::ignore_files_helper::in_vcs_meta_dir;
use crate::ignore_files_helper::path_in_vcs_meta_dir;
use crate::pattern_matcher::Matcher;
use crate::pattern_matcher::regex_match_of;
use crate::strutil::lex_lt;
use crate::strutil::lemma_lex_lt_total;
use crate::strutil::lemma_lex_lt_trans;
use crate::strutil::seq_contains_str;
use crate::strutil::set_insert_str;
use crate::strutil::push_if_absent;
use crate::strutil::str_eq;
use crate::strutil::str_lex_lt;
use crate::strutil::views_of;

verus! {

broadcast use vstd::seq_lib::group_seq_properties;

/// The paths of a sequence of records.
pub open spec fn paths_of(rs: Seq<FileRecord>) -> Seq<Seq<char>> {
    rs.map_values(|r: FileRecord| r.path@)
}

/// Whether an offered file is taken: it must match the glob where one
/// applies, and pass classification.
pub open spec fn offer_taken(
    pattern_regex: Option<Seq<char>>,
    path: Seq<char>,
    size: u64,
    head: Seq<u8>,
    text: Option<Seq<char>>,
    max_lines: Option<u64>,
) -> bool {
    &&& match pattern_regex {
        Some(re) => regex_match_of(re, path),
        None => true,
    }
    &&& admitted_spec(size, head, text, max_lines)
}

/// The collection state of one run.
pub struct FileCollector {
    /// Whether directory walks recurse (the caller's walk consults this).
    pub recursive: bool,
    /// The line ceiling handed to classification, when one is configured.
    pub max_lines: Option<u64>,
    /// The layered ignore rules consulted while walking.
    pub ignore_helper: IgnoreFilesHelper,
    /// Every file taken so far, in offer order, duplicates included.
    pub files: Vec<FileRecord>,
    /// The paths of walked files that were taken.
    pub processed_files: Vec<String>,
    /// The rejected provenance set: walked files that were offered and not
    /// taken.
    pub ignored_files: Vec<String>,
    /// Every file path ever offered or named directly in this run.
    pub offered: Ghost<Set<Seq<char>>>,
}

/// Every offered path is accounted for: it stands among the taken files
/// or in the rejected set.
pub open spec fn accounted(c: FileCollector) -> bool {
    paths_of(c.files@).to_set().union(views_of(c.ignored_files@).to_set()) == c.offered@
}

/// The ceiling as classification takes it.
pub open spec fn ceiling_view(m: Option<usize>) -> Option<u64> {
    match m {
        Some(n) => Some(n as u64),
        None => None,
    }
}

impl FileCollector {
    /// Sets up a run from the caller configuration and the rule sources
    /// the caller loaded (each `None` when disabled or absent).
    pub fn new(
        args: &CliArgs,
        custom_ignore: Option<ignore::gitignore::Gitignore>,
        gitignore: Option<ignore::gitignore::Gitignore>,
    ) -> (c: FileCollector)
        ensures
            c.recursive == args.recursive,
            c.max_lines == ceiling_view(args.max_lines),
            c.ignore_helper.custom_ignore == custom_ignore,
            c.ignore_helper.gitignore == gitignore,
            c.files@.len() == 0,
            c.processed_files@.len() == 0,
            c.ignored_files@.len() == 0,
            c.offered@ == Set::<Seq<char>>::empty(),
            accounted(c),
    {
        let max_lines: Option<u64> = match args.max_lines {
            Some(n) => Some(n as u64),
            None => None,
        };
        let c = FileCollector {
            recursive: args.recursive,
            max_lines,
            ignore_helper: IgnoreFilesHelper::new(custom_ignore, gitignore),
            files: Vec::new(),
            processed_files: Vec::new(),
            ignored_files: Vec::new(),
            offered: Ghost(Set::empty()),
        };
        proof {
            assert(paths_of(c.files@).to_set().union(views_of(c.ignored_files@).to_set())
                =~= Set::<Seq<char>>::empty());
        }
        c
    }

    /// Whether a walk may visit this entry at all: never inside the VCS
    /// metadata directory, whatever the configuration, and otherwise only
    /// when the ignore rules do not mark it.
    pub fn should_visit(&self, path: &str, is_dir: bool) -> (r: bool)
        ensures
            in_vcs_meta_dir(path@) ==> !r,
            (self.ignore_helper.custom_ignore is None && self.ignore_helper.gitignore is None)
                ==> r == !in_vcs_meta_dir(path@),
    {
        if path_in_vcs_meta_dir(path) {
            return false;
        }
        !self.ignore_helper.is_ignored(path, is_dir)
    }

    /// Offers one walked file, with what was read of it, and the compiled
    /// pattern when the walk serves a glob. The file is taken exactly when
    /// it matches and passes classification; otherwise it joins the
    /// rejected provenance set.
    pub fn offer_walked_file(
        &mut self,
        path: &str,
        data: &FileData,
        matcher: Option<&Matcher>,
    ) -> (taken: bool)
        ensures
            ({
                let re = match matcher {
                    Some(m) => Some(m.regex@),
                    None => None,
                };
                let adm = offer_taken(
                    re,
                    path@,
                    data.size,
                    data.head@,
                    text_view(data.text),
                    old(self).max_lines,
                );
                &&& taken == adm
                &&& adm ==> paths_of(final(self).files@) == paths_of(old(self).files@).push(path@)
                &&& adm ==> recs_view(final(self).files@) == recs_view(old(self).files@).push(
                    FileRecordView { path: path@, size: data.size },
                )
                &&& adm ==> views_of(final(self).processed_files@) == set_insert_str(
                    views_of(old(self).processed_files@),
                    path@,
                )
                &&& adm ==> final(self).ignored_files@ == old(self).ignored_files@
                &&& !adm ==> final(self).files@ == old(self).files@
                &&& !adm ==> final(self).processed_files@ == old(self).processed_files@
                &&& !adm ==> views_of(final(self).ignored_files@) == set_insert_str(
                    views_of(old(self).ignored_files@),
                    path@,
                )
                &&& final(self).offered@ == old(self).offered@.insert(path@)
                &&& final(self).recursive == old(self).recursive
                &&& final(self).max_lines == old(self).max_lines
                &&& final(self).ignore_helper == old(self).ignore_helper
                &&& accounted(*old(self)) ==> accounted(*final(self))
            }),
    {
        let matched = match matcher {
            Some(m) => m.matches(path),
            None => true,
        };
        let taken = matched && should_include_file(data, self.max_lines);
        proof {
            self.offered@ = self.offered@.insert(path@);
        }
        if taken {
            let owned = String::from_str(path);
            let ghost oldfiles = self.files@;
            self.files.push(FileRecord { path: owned, size: data.size });
            push_if_absent(&mut self.processed_files, path);
            proof {
                assert(paths_of(self.files@) =~= paths_of(oldfiles).push(path@));
                assert(recs_view(self.files@) =~= recs_view(oldfiles).push(
                    FileRecordView { path: path@, size: data.size },
                ));
                if accounted(*old(self)) {
                    assert(paths_of(self.files@).to_set().union(
                        views_of(self.ignored_files@).to_set(),
                    ) =~= old(self).offered@.insert(path@)) by {
                        Seq::lemma_to_set_insert_commutes(paths_of(oldfiles), path@);
                        assert(paths_of(oldfiles) + seq![path@] =~= paths_of(oldfiles).push(
                            path@,
                        ));
                    }
                }
            }
            true
        } else {
            let ghost oldignored = self.ignored_files@;
            push_if_absent(&mut self.ignored_files, path);
            proof {
                if accounted(*old(self)) {
                    if seq_contains_str(views_of(oldignored), path@) {
                        assert(views_of(oldignored).to_set().contains(path@));
                        assert(paths_of(self.files@).to_set().union(
                            views_of(self.ignored_files@).to_set(),
                        ) =~= old(self).offered@.insert(path@));
                    } else {
                        Seq::lemma_to_set_insert_commutes(views_of(oldignored), path@);
                        assert(views_of(oldignored) + seq![path@] =~= views_of(oldignored).push(
                            path@,
                        ));
                        assert(paths_of(self.files@).to_set().union(
                            views_of(self.ignored_files@).to_set(),
                        ) =~= old(self).offered@.insert(path@));
                    }
                }
            }
            false
        }
    }

    /// Takes a literal path the caller named, bypassing the ignore rules,
    /// the matcher and the classifier: an explicit path is always honored.
    pub fn add_literal_file(&mut self, path: &str, size: u64)
        ensures
            paths_of(final(self).files@) == paths_of(old(self).files@).push(path@),
            recs_view(final(self).files@) == recs_view(old(self).files@).push(
                FileRecordView { path: path@, size },
            ),
            final(self).processed_files@ == old(self).processed_files@,
            final(self).ignored_files@ == old(self).ignored_files@,
            final(self).offered@ == old(self).offered@.insert(path@),
            final(self).recursive == old(self).recursive,
            final(self).max_lines == old(self).max_lines,
            final(self).ignore_helper == old(self).ignore_helper,
            accounted(*old(self)) ==> accounted(*final(self)),
    {
        let owned = String::from_str(path);
        let ghost oldfiles = self.files@;
        self.files.push(FileRecord { path: owned, size });
        proof {
            self.offered@ = self.offered@.insert(path@);
            assert(paths_of(self.files@) =~= paths_of(oldfiles).push(path@));
            assert(recs_view(self.files@) =~= recs_view(oldfiles).push(
                FileRecordView { path: path@, size },
            ));
            if accounted(*old(self)) {
                Seq::lemma_to_set_insert_commutes(paths_of(oldfiles), path@);
                assert(paths_of(oldfiles) + seq![path@] =~= paths_of(oldfiles).push(path@));
                assert(paths_of(self.files@).to_set().union(
                    views_of(self.ignored_files@).to_set(),
                ) =~= old(self).offered@.insert(path@));
            }
        }
    }
}

/// The paths of a sequence of record views.
pub open spec fn vpaths(s: Seq<FileRecordView>) -> Seq<Seq<char>> {
    s.map_values(|r: FileRecordView| r.path)
}

/// Whether the records stand in strictly increasing path order (which also
/// rules out duplicate paths).
pub open spec fn sorted_by_path(s: Seq<FileRecordView>) -> bool {
    forall|i: int, j: int| 0 <= i < j < s.len() ==> lex_lt(s[i].path, s[j].path)
}

/// Inserts a record into a path-sorted, duplicate-free sequence; a record
/// whose path is already present is dropped, so the first occurrence wins.
pub open spec fn insert_by_path(x: FileRecordView, s: Seq<FileRecordView>) -> Seq<FileRecordView>
    decreases s.len(),
{
    if s.len() == 0 {
        seq![x]
    } else if x.path == s[0].path {
        s
    } else if lex_lt(x.path, s[0].path) {
        seq![x] + s
    } else {
        seq![s[0]] + insert_by_path(x, s.drop_first())
    }
}

/// The candidate set built from the accumulated files: sorted by path and
/// deduplicated, the first record for each path kept.
pub open spec fn dedup_sort(s: Seq<FileRecordView>) -> Seq<FileRecordView>
    decreases s.len(),
{
    if s.len() == 0 {
        Seq::empty()
    } else {
        insert_by_path(s.last(), dedup_sort(s.drop_last()))
    }
}

proof fn lemma_insert_by_path_ensures(x: FileRecordView, s: Seq<FileRecordView>)
    requires
        sorted_by_path(s),
    ensures
        sorted_by_path(insert_by_path(x, s)),
        vpaths(insert_by_path(x, s)).to_set() == vpaths(s).to_set().insert(x.path),
        forall|e: FileRecordView|
            #[trigger] insert_by_path(x, s).contains(e) ==> e == x || s.contains(e),
    decreases s.len(),
{
    let r = insert_by_path(x, s);
    if s.len() == 0 {
        assert(r =~= Seq::empty().push(x));
        assert(vpaths(r) =~= Seq::<Seq<char>>::empty().push(x.path));
        assert(vpaths(r).to_set() =~= vpaths(s).to_set().insert(x.path));
        assert forall|e: FileRecordView| #[trigger] r.contains(e) implies e == x || s.contains(
            e,
        ) by {
            assert(r[0] == x);
        }
    } else if x.path == s[0].path {
        assert(vpaths(s)[0] == s[0].path);
        assert(vpaths(s).to_set().contains(x.path));
        assert(vpaths(r).to_set() =~= vpaths(s).to_set().insert(x.path));
    } else if lex_lt(x.path, s[0].path) {
        assert forall|i: int, j: int| 0 <= i < j < r.len() implies lex_lt(
            r[i].path,
            r[j].path,
        ) by {
            if i == 0 {
                assert(r[j] == s[j - 1]);
                if j > 1 {
                    lemma_lex_lt_trans(x.path, s[0].path, s[j - 1].path);
                }
            } else {
                assert(r[i] == s[i - 1] && r[j] == s[j - 1]);
            }
        }
        assert(vpaths(r) =~= Seq::<Seq<char>>::empty().push(x.path) + vpaths(s));
        assert forall|p: Seq<char>| #[trigger] vpaths(r).to_set().contains(p) implies vpaths(
            s,
        ).to_set().insert(x.path).contains(p) by {
            let w = choose|w: int| 0 <= w < vpaths(r).len() && vpaths(r)[w] == p;
            if w > 0 {
                assert(vpaths(s)[w - 1] == p);
            }
        }
        assert forall|p: Seq<char>|
            vpaths(s).to_set().insert(x.path).contains(p) implies #[trigger] vpaths(
            r,
        ).to_set().contains(p) by {
            if p == x.path {
                assert(vpaths(r)[0] == p);
            } else {
                let w = choose|w: int| 0 <= w < vpaths(s).len() && vpaths(s)[w] == p;
                assert(vpaths(r)[w + 1] == p);
            }
        }
        assert(vpaths(r).to_set() =~= vpaths(s).to_set().insert(x.path));
        assert forall|e: FileRecordView| #[trigger] r.contains(e) implies e == x || s.contains(
            e,
        ) by {
            let w = choose|w: int| 0 <= w < r.len() && r[w] == e;
            if w > 0 {
                assert(s[w - 1] == e);
            }
        }
    } else {
        assert(sorted_by_path(s.drop_first()));
        lemma_insert_by_path_ensures(x, s.drop_first());
        let rest = insert_by_path(x, s.drop_first());
        // the head is below x and below every later element, so prepending
        // it keeps the strict order
        lemma_lex_lt_total(x.path, s[0].path);
        assert(lex_lt(s[0].path, x.path));
        assert forall|i: int, j: int| 0 <= i < j < r.len() implies lex_lt(
            r[i].path,
            r[j].path,
        ) by {
            if i == 0 {
                assert(r[j] == rest[j - 1]);
                assert(rest.contains(rest[j - 1]));
                if rest[j - 1] == x {
                } else {
                    assert(s.drop_first().contains(rest[j - 1]));
                    let w = choose|w: int|
                        0 <= w < s.drop_first().len() && s.drop_first()[w] == rest[j - 1];
                    assert(lex_lt(s[0].path, s[w + 1].path));
                }
            } else {
                assert(r[i] == rest[i - 1] && r[j] == rest[j - 1]);
            }
        }
        assert forall|p: Seq<char>| #[trigger] vpaths(r).to_set().contains(p) implies vpaths(
            s,
        ).to_set().insert(x.path).contains(p) by {
            let w = choose|w: int| 0 <= w < vpaths(r).len() && vpaths(r)[w] == p;
            if w == 0 {
                assert(vpaths(s)[0] == p);
            } else {
                assert(rest[w - 1].path == p);
                assert(vpaths(rest)[w - 1] == p);
                assert(vpaths(rest).to_set().contains(p));
                assert(vpaths(s.drop_first()).to_set().insert(x.path).contains(p));
                if p != x.path {
                    let w2 = choose|w2: int|
                        0 <= w2 < vpaths(s.drop_first()).len() && vpaths(s.drop_first())[w2] == p;
                    assert(vpaths(s)[w2 + 1] == p);
                }
            }
        }
        assert forall|p: Seq<char>|
            vpaths(s).to_set().insert(x.path).contains(p) implies #[trigger] vpaths(
            r,
        ).to_set().contains(p) by {
            if p == x.path {
                assert(vpaths(rest).to_set().contains(p)) by {
                    assert(vpaths(s.drop_first()).to_set().insert(x.path).contains(p));
                }
                let w = choose|w: int| 0 <= w < vpaths(rest).len() && vpaths(rest)[w] == p;
                assert(vpaths(r)[w + 1] == p);
            } else {
                let w = choose|w: int| 0 <= w < vpaths(s).len() && vpaths(s)[w] == p;
                if w == 0 {
                    assert(vpaths(r)[0] == p);
                } else {
                    assert(vpaths(s.drop_first())[w - 1] == p);
                    assert(vpaths(s.drop_first()).to_set().contains(p));
                    assert(vpaths(rest).to_set().contains(p));
                    let w2 = choose|w2: int| 0 <= w2 < vpaths(rest).len() && vpaths(rest)[w2] == p;
                    assert(vpaths(r)[w2 + 1] == p);
                }
            }
        }
        assert(vpaths(r).to_set() =~= vpaths(s).to_set().insert(x.path));
        assert forall|e: FileRecordView| #[trigger] r.contains(e) implies e == x || s.contains(
            e,
        ) by {
            let w = choose|w: int| 0 <= w < r.len() && r[w] == e;
            if w == 0 {
                assert(s[0] == e);
            } else {
                assert(rest[w - 1] == e);
                assert(rest.contains(rest[w - 1]));
                if e != x {
                    assert(s.drop_first().contains(e));
                    let w2 = choose|w2: int|
                        0 <= w2 < s.drop_first().len() && s.drop_first()[w2] == e;
                    assert(s[w2 + 1] == e);
                }
            }
        }
    }
}

/// What the candidate construction promises: a path-sorted, duplicate-free
/// sequence drawn from the given records, covering exactly their paths.
pub proof fn lemma_dedup_sort_ensures(s: Seq<FileRecordView>)
    ensures
        sorted_by_path(dedup_sort(s)),
        vpaths(dedup_sort(s)).to_set() == vpaths(s).to_set(),
        forall|e: FileRecordView| #[trigger] dedup_sort(s).contains(e) ==> s.contains(e),
    decreases s.len(),
{
    if s.len() == 0 {
        assert(vpaths(dedup_sort(s)) =~= vpaths(s));
    } else {
        lemma_dedup_sort_ensures(s.drop_last());
        lemma_insert_by_path_ensures(s.last(), dedup_sort(s.drop_last()));
        assert forall|p: Seq<char>| #[trigger] vpaths(s).to_set().contains(p) implies vpaths(
            s.drop_last(),
        ).to_set().insert(s.last().path).contains(p) by {
            let w = choose|w: int| 0 <= w < vpaths(s).len() && vpaths(s)[w] == p;
            if w < s.len() - 1 {
                assert(vpaths(s.drop_last())[w] == p);
            }
        }
        assert forall|p: Seq<char>|
            vpaths(s.drop_last()).to_set().insert(s.last().path).contains(
                p,
            ) implies #[trigger] vpaths(s).to_set().contains(p) by {
            if p == s.last().path {
                assert(vpaths(s)[s.len() - 1] == p);
            } else {
                let w = choose|w: int|
                    0 <= w < vpaths(s.drop_last()).len() && vpaths(s.drop_last())[w] == p;
                assert(vpaths(s)[w] == p);
            }
        }
        assert(vpaths(s.drop_last()).to_set().insert(s.last().path) =~= vpaths(s).to_set());
        assert forall|e: FileRecordView| #[trigger] dedup_sort(s).contains(e) implies s.contains(
            e,
        ) by {
            if e != s.last() && dedup_sort(s.drop_last()).contains(e) {
                let w = choose|w: int|
                    0 <= w < s.drop_last().len() && s.drop_last()[w] == e;
                assert(s[w] == e);
            }
        }
    }
}

proof fn lemma_insert_by_path_absorbed(x: FileRecordView, s: Seq<FileRecordView>)
    requires
        sorted_by_path(s),
        vpaths(s).contains(x.path),
    ensures
        insert_by_path(x, s) == s,
    decreases s.len(),
{
    let w = choose|w: int| 0 <= w < vpaths(s).len() && vpaths(s)[w] == x.path;
    assert(vpaths(s)[w] == s[w].path);
    if x.path == s[0].path {
    } else if lex_lt(x.path, s[0].path) {
        // every path in s lies at or above the head, strictly above x.path
        assert(w > 0);
        assert(lex_lt(s[0].path, s[w].path));
        lemma_lex_lt_trans(x.path, s[0].path, s[w].path);
        lemma_lex_lt_total(x.path, x.path);
        assert(false);
    } else {
        assert(w > 0) by {
            if w == 0 {
                lemma_lex_lt_total(x.path, s[0].path);
            }
        }
        assert(sorted_by_path(s.drop_first()));
        assert(vpaths(s.drop_first()).contains(x.path)) by {
            assert(vpaths(s.drop_first())[w - 1] == s.drop_first()[w - 1].path);
            assert(s.drop_first()[w - 1] == s[w]);
        }
        lemma_insert_by_path_absorbed(x, s.drop_first());
        assert(seq![s[0]] + s.drop_first() =~= s);
    }
}

/// Records whose paths the pass already produced contribute nothing more:
/// appending them, however many, leaves the candidate set unchanged.
pub proof fn lemma_dedup_sort_absorbs_duplicates(s: Seq<FileRecordView>, t: Seq<FileRecordView>)
    requires
        forall|i: int| 0 <= i < t.len() ==> vpaths(s).contains(#[trigger] t[i].path),
    ensures
        dedup_sort(s + t) == dedup_sort(s),
    decreases t.len(),
{
    if t.len() == 0 {
        assert(s + t =~= s);
    } else {
        assert((s + t).drop_last() =~= s + t.drop_last());
        assert forall|i: int| 0 <= i < t.drop_last().len() implies vpaths(s).contains(
            #[trigger] t.drop_last()[i].path,
        ) by {
            assert(t.drop_last()[i] == t[i]);
        }
        lemma_dedup_sort_absorbs_duplicates(s, t.drop_last());
        lemma_dedup_sort_ensures(s);
        let p = t.last().path;
        assert(vpaths(s).contains(p)) by {
            assert(t[t.len() - 1].path == p);
        }
        assert(vpaths(dedup_sort(s)).contains(p)) by {
            assert(vpaths(s).to_set().contains(p));
            assert(vpaths(dedup_sort(s)).to_set().contains(p));
        }
        assert((s + t).last() == t.last());
        lemma_insert_by_path_absorbed(t.last(), dedup_sort(s));
    }
}

/// Running the same pattern pass twice builds the same candidate set as
/// running it once: membership depends only on whether some pattern
/// produced a path, never on how many did.
pub proof fn lemma_duplicate_pass_changes_nothing(s: Seq<FileRecordView>)
    ensures
        dedup_sort(s + s) == dedup_sort(s),
{
    assert forall|i: int| 0 <= i < s.len() implies vpaths(s).contains(#[trigger] s[i].path) by {
        assert(vpaths(s)[i] == s[i].path);
    }
    lemma_dedup_sort_absorbs_duplicates(s, s);
}

proof fn lemma_insert_by_path_at(x: FileRecordView, s: Seq<FileRecordView>, j: int)
    requires
        sorted_by_path(s),
        0 <= j <= s.len(),
        forall|j2: int| 0 <= j2 < j ==> lex_lt(#[trigger] s[j2].path, x.path),
        j < s.len() ==> !lex_lt(s[j].path, x.path),
    ensures
        j < s.len() && x.path == s[j].path ==> insert_by_path(x, s) == s,
        !(j < s.len() && x.path == s[j].path) ==> insert_by_path(x, s) == s.insert(j, x),
    decreases s.len(),
{
    if s.len() == 0 {
        assert(insert_by_path(x, s) =~= s.insert(0, x));
    } else if j == 0 {
        if x.path == s[0].path {
        } else {
            lemma_lex_lt_total(x.path, s[0].path);
            assert(lex_lt(x.path, s[0].path));
            assert(seq![x] + s =~= s.insert(0, x));
        }
    } else {
        assert(lex_lt(s[0].path, x.path));
        lemma_lex_lt_total(x.path, s[0].path);
        assert(x.path != s[0].path) by {
            if x.path == s[0].path {
                lemma_lex_lt_total(s[0].path, s[0].path);
            }
        }
        assert(!lex_lt(x.path, s[0].path));
        assert(sorted_by_path(s.drop_first()));
        lemma_insert_by_path_at(x, s.drop_first(), j - 1);
        if j < s.len() && x.path == s[j].path {
            assert(s.drop_first()[j - 1] == s[j]);
            assert(seq![s[0]] + s.drop_first() =~= s);
        } else {
            assert(seq![s[0]] + s.drop_first().insert(j - 1, x) =~= s.insert(j, x));
        }
    }
}

/// Finds where a record belongs in a path-sorted sequence: the position
/// of the first path not below the new one, and whether that path is
/// already present.
fn find_insert_pos(sorted: &Vec<FileRecord>, x: &FileRecord) -> (r: (usize, bool))
    requires
        sorted_by_path(recs_view(sorted@)),
    ensures
        r.0 <= sorted@.len(),
        forall|j2: int| 0 <= j2 < r.0 ==> lex_lt(#[trigger] recs_view(sorted@)[j2].path, x@.path),
        r.0 < sorted@.len() ==> !lex_lt(recs_view(sorted@)[r.0 as int].path, x@.path),
        r.1 == (r.0 < sorted@.len() && recs_view(sorted@)[r.0 as int].path == x@.path),
{
    let mut j: usize = 0;
    loop
        invariant
            j <= sorted@.len(),
            forall|j2: int| 0 <= j2 < j ==> lex_lt(#[trigger] recs_view(sorted@)[j2].path, x@.path),
        decreases sorted@.len() - j,
    {
        if j >= sorted.len() {
            return (j, false);
        }
        proof {
            assert(recs_view(sorted@)[j as int].path == sorted@[j as int]@.path);
        }
        if str_eq(sorted[j].path.as_str(), x.path.as_str()) {
            proof {
                lemma_lex_lt_total(x@.path, x@.path);
            }
            return (j, true);
        }
        if !str_lex_lt(sorted[j].path.as_str(), x.path.as_str()) {
            return (j, false);
        }
        j = j + 1;
    }
}

/// Decides whether some record carries exactly this path.
pub fn records_contain_path(v: &Vec<FileRecord>, p: &str) -> (r: bool)
    ensures
        r == seq_contains_str(paths_of(v@), p@),
{
    let mut i: usize = 0;
    while i < v.len()
        invariant
            i <= v@.len(),
            forall|q: int| 0 <= q < i ==> paths_of(v@)[q] != p@,
        decreases v@.len() - i,
    {
        if str_eq(v[i].path.as_str(), p) {
            assert(paths_of(v@)[i as int] == p@);
            return true;
        }
        i = i + 1;
    }
    false
}

proof fn lemma_filter_kept_set(ss: Seq<Seq<char>>, excl: Seq<Seq<char>>)
    ensures
        ss.filter(|p: Seq<char>| !seq_contains_str(excl, p)).to_set() == ss.to_set().difference(
            excl.to_set(),
        ),
{
    broadcast use Seq::lemma_filter_pred;

    let pred = |p: Seq<char>| !seq_contains_str(excl, p);
    let f = ss.filter(pred);
    assert forall|p: Seq<char>| #[trigger] f.to_set().contains(p) implies ss.to_set().difference(
        excl.to_set(),
    ).contains(p) by {
        let w = choose|w: int| 0 <= w < f.len() && f[w] == p;
        assert(pred(f[w]));
        Seq::lemma_filter_contains_rev(ss, pred, p);
        if excl.to_set().contains(p) {
            let w2 = choose|w2: int| 0 <= w2 < excl.len() && excl[w2] == p;
            assert(seq_contains_str(excl, p));
        }
    }
    assert forall|p: Seq<char>|
        ss.to_set().difference(excl.to_set()).contains(p) implies #[trigger] f.to_set().contains(
        p,
    ) by {
        let w = choose|w: int| 0 <= w < ss.len() && ss[w] == p;
        assert(!seq_contains_str(excl, p)) by {
            if seq_contains_str(excl, p) {
                let w2 = choose|w2: int| 0 <= w2 < excl.len() && excl[w2] == p;
                assert(excl.to_set().contains(p));
            }
        }
        ss.lemma_filter_contains(pred, w);
        let w3 = choose|w3: int| 0 <= w3 < f.len() && f[w3] == ss[w];
    }
    assert(f.to_set() =~= ss.to_set().difference(excl.to_set()));
}

impl FileCollector {
    /// Closes the collection pass: the accumulated files become the
    /// candidate set, sorted by path with duplicates dropped (the first
    /// record for a path wins), and every path that made the candidate set
    /// leaves the rejected provenance set, so acceptance always wins. After
    /// this, the candidate and rejected sets are disjoint and together
    /// cover exactly the paths that were offered or named.
    pub fn finish(&mut self)
        ensures
            recs_view(final(self).files@) == dedup_sort(recs_view(old(self).files@)),
            sorted_by_path(recs_view(final(self).files@)),
            paths_of(final(self).files@).no_duplicates(),
            paths_of(final(self).files@).to_set() == paths_of(old(self).files@).to_set(),
            views_of(final(self).ignored_files@).to_set() == views_of(
                old(self).ignored_files@,
            ).to_set().difference(paths_of(old(self).files@).to_set()),
            paths_of(final(self).files@).to_set().disjoint(
                views_of(final(self).ignored_files@).to_set(),
            ),
            final(self).processed_files@ == old(self).processed_files@,
            final(self).offered@ == old(self).offered@,
            final(self).recursive == old(self).recursive,
            final(self).max_lines == old(self).max_lines,
            final(self).ignore_helper == old(self).ignore_helper,
            accounted(*old(self)) ==> paths_of(final(self).files@).to_set().union(
                views_of(final(self).ignored_files@).to_set(),
            ) == old(self).offered@,
            accounted(*old(self)) ==> accounted(*final(self)),
    {
        let ghost fv = recs_view(self.files@);
        // sort the accumulated records by path, dropping later duplicates
        let mut sorted: Vec<FileRecord> = Vec::new();
        proof {
            assert(recs_view(self.files@.take(0)) =~= Seq::<FileRecordView>::empty());
            assert(recs_view(sorted@) =~= Seq::<FileRecordView>::empty());
            assert(dedup_sort(Seq::<FileRecordView>::empty()) == Seq::<FileRecordView>::empty());
        }
        let mut i: usize = 0;
        while i < self.files.len()
            invariant
                i <= self.files@.len(),
                recs_view(sorted@) == dedup_sort(recs_view(self.files@.take(i as int))),
                sorted_by_path(recs_view(sorted@)),
            decreases self.files@.len() - i,
        {
            let x = self.files[i].duplicate();
            let ghost old_sorted = sorted@;
            let pos = find_insert_pos(&sorted, &x);
            let j = pos.0;
            let skip = pos.1;
            proof {
                lemma_insert_by_path_at(x@, recs_view(sorted@), j as int);
                assert(recs_view(self.files@.take(i + 1)).drop_last() =~= recs_view(
                    self.files@.take(i as int),
                ));
                assert(recs_view(self.files@.take(i + 1)).last() == self.files@[i as int]@);
                lemma_insert_by_path_ensures(x@, recs_view(sorted@));
            }
            if !skip {
                sorted.insert(j, x);
                proof {
                    assert(recs_view(sorted@) =~= recs_view(old_sorted).insert(j as int, x@));
                }
            }
            i = i + 1;
        }
        proof {
            assert(self.files@.take(self.files@.len() as int) =~= self.files@);
            lemma_dedup_sort_ensures(fv);
            assert forall|p: Seq<char>| #[trigger] paths_of(sorted@).to_set().contains(
                p,
            ) == vpaths(recs_view(sorted@)).to_set().contains(p) by {
                assert(paths_of(sorted@) =~= vpaths(recs_view(sorted@)));
            }
            assert(paths_of(sorted@) =~= vpaths(recs_view(sorted@)));
            assert(paths_of(self.files@) =~= vpaths(fv));
            assert(paths_of(sorted@).to_set() =~= paths_of(self.files@).to_set());
        }
        // acceptance wins: a path in the candidate set leaves the rejected set
        let mut kept: Vec<String> = Vec::new();
        let ghost iv = views_of(self.ignored_files@);
        let ghost keep_pred = |p: Seq<char>| !seq_contains_str(paths_of(sorted@), p);
        proof {
            assert(iv.take(0) =~= Seq::<Seq<char>>::empty());
            assert(iv.take(0).filter(keep_pred) =~= Seq::<Seq<char>>::empty());
            assert(views_of(kept@) =~= Seq::<Seq<char>>::empty());
        }
        let mut t: usize = 0;
        while t < self.ignored_files.len()
            invariant
                t <= self.ignored_files@.len(),
                iv == views_of(self.ignored_files@),
                iv.len() == self.ignored_files@.len(),
                keep_pred == (|p: Seq<char>| !seq_contains_str(paths_of(sorted@), p)),
                views_of(kept@) == iv.take(t as int).filter(keep_pred),
            decreases self.ignored_files@.len() - t,
        {
            proof {
                reveal_with_fuel(Seq::filter, 2);
                assert(iv.take(t + 1).drop_last() =~= iv.take(t as int));
                assert(iv.take(t + 1).last() == iv[t as int]);
                assert(iv[t as int] == self.ignored_files@[t as int]@);
            }
            if !records_contain_path(&sorted, self.ignored_files[t].as_str()) {
                let ghost oldkept = views_of(kept@);
                kept.push(self.ignored_files[t].clone());
                proof {
                    assert(views_of(kept@) =~= oldkept.push(iv[t as int]));
                }
            }
            t = t + 1;
        }
        proof {
            assert(iv.take(iv.len() as int) =~= iv);
            lemma_filter_kept_set(iv, paths_of(sorted@));
        }
        self.files = sorted;
        self.ignored_files = kept;
        proof {
            assert forall|a: int, b: int|
                0 <= a < paths_of(self.files@).len() && 0 <= b < paths_of(self.files@).len() && a
                    != b implies paths_of(self.files@)[a] != paths_of(self.files@)[b] by {
                let rv = recs_view(self.files@);
                assert(paths_of(self.files@)[a] == rv[a].path);
                assert(paths_of(self.files@)[b] == rv[b].path);
                if a < b {
                    assert(lex_lt(rv[a].path, rv[b].path));
                    if rv[a].path == rv[b].path {
                        lemma_lex_lt_total(rv[a].path, rv[a].path);
                    }
                } else {
                    assert(lex_lt(rv[b].path, rv[a].path));
                    if rv[a].path == rv[b].path {
                        lemma_lex_lt_total(rv[a].path, rv[a].path);
                    }
                }
            }
            assert(paths_of(self.files@).to_set().disjoint(
                views_of(self.ignored_files@).to_set(),
            )) by {
                assert forall|p: Seq<char>| #[trigger] views_of(self.ignored_files@).to_set()
                    .contains(p) implies !paths_of(self.files@).to_set().contains(p) by {}
            }
            if accounted(*old(self)) {
                assert(paths_of(self.files@).to_set().union(
                    views_of(self.ignored_files@).to_set(),
                ) =~= old(self).offered@);
            }
        }
    }
}

} // verus!
