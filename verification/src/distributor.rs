//! Size-balanced distribution of the candidate set into output chunks:
//! files are taken largest first and each is assigned to the chunk whose
//! running byte total is currently smallest, ties falling to the lowest
//! chunk index; chunks that received nothing are dropped from the result.
use vstd::prelude::*;
use vstd::string::*;
use crate::strutil::dec_str;
use crate::strutil::digit_char;
use crate::strutil::push_decimal;
use crate::strutil::push_char;
use crate::strutil::digit_char_exec;
use vstd::multiset::Multiset;
use vstd::pervasive::VecAdditionalExecFns;

verus! {

broadcast use vstd::seq_lib::group_seq_properties;

/// One selected file: its absolute path and the byte size observed when it
/// was discovered. Distribution sizes files from this record; a file that
/// changed or vanished after discovery keeps the size recorded here.
pub struct FileRecord {
    pub path: String,
    pub size: u64,
}

/// The mathematical content of a [`FileRecord`].
pub struct FileRecordView {
    pub path: Seq<char>,
    pub size: u64,
}

impl View for FileRecord {
    type V = FileRecordView;

    open spec fn view(&self) -> FileRecordView {
        FileRecordView { path: self.path@, size: self.size }
    }
}

impl FileRecord {
    /// Makes a record.
    pub fn new(path: String, size: u64) -> (r: FileRecord)
        ensures
            r@ == (FileRecordView { path: path@, size }),
    {
        FileRecord { path, size }
    }

    /// A copy with the same path and size.
    pub fn duplicate(&self) -> (r: FileRecord)
        ensures
            r@ == self@,
    {
        FileRecord { path: self.path.clone(), size: self.size }
    }
}

/// The views of a sequence of records.
pub open spec fn recs_view(s: Seq<FileRecord>) -> Seq<FileRecordView> {
    s.map_values(|r: FileRecord| r@)
}

/// The views of a sequence of chunks of records.
pub open spec fn chunks_view(s: Seq<Vec<FileRecord>>) -> Seq<Seq<FileRecordView>> {
    s.map_values(|c: Vec<FileRecord>| recs_view(c@))
}

/// Inserts `x` into a size-descending sequence, after any element of equal
/// size, so that equal sizes keep their first-seen order.
pub open spec fn insert_desc(x: FileRecordView, s: Seq<FileRecordView>) -> Seq<FileRecordView>
    decreases s.len(),
{
    if s.len() == 0 {
        seq![x]
    } else if s[0].size >= x.size {
        seq![s[0]] + insert_desc(x, s.drop_first())
    } else {
        seq![x] + s
    }
}

/// Stable sort by byte size, largest first.
pub open spec fn sort_desc(s: Seq<FileRecordView>) -> Seq<FileRecordView>
    decreases s.len(),
{
    if s.len() == 0 {
        Seq::empty()
    } else {
        insert_desc(s.last(), sort_desc(s.drop_last()))
    }
}

/// Whether the sequence is ordered by size, largest first.
pub open spec fn sorted_desc(s: Seq<FileRecordView>) -> bool {
    forall|i: int, j: int| 0 <= i < j < s.len() ==> s[i].size >= s[j].size
}

proof fn lemma_insert_desc_ensures(x: FileRecordView, s: Seq<FileRecordView>)
    requires
        sorted_desc(s),
    ensures
        sorted_desc(insert_desc(x, s)),
        insert_desc(x, s).to_multiset() == s.to_multiset().insert(x),
        insert_desc(x, s).len() == s.len() + 1,
    decreases s.len(),
{
    broadcast use vstd::seq_lib::group_to_multiset_ensures;

    if s.len() == 0 {
        assert(insert_desc(x, s) =~= Seq::empty().push(x));
        assert(insert_desc(x, s).to_multiset() =~= s.to_multiset().insert(x));
    } else if s[0].size >= x.size {
        assert(sorted_desc(s.drop_first()));
        lemma_insert_desc_ensures(x, s.drop_first());
        let rest = insert_desc(x, s.drop_first());
        let r = seq![s[0]] + rest;
        assert forall|i: int, j: int| 0 <= i < j < r.len() implies r[i].size >= r[j].size by {
            if i > 0 {
                assert(r[i] == rest[i - 1] && r[j] == rest[j - 1]);
            } else {
                // r[j] is x or an element of s.drop_first(); both are at most s[0].size
                assert(r[j] == rest[j - 1]);
                assert(rest.to_multiset().count(rest[j - 1]) > 0);
                if rest[j - 1] == x {
                } else {
                    assert(s.drop_first().to_multiset().count(rest[j - 1]) > 0);
                    assert(s.drop_first().contains(rest[j - 1]));
                    let w = choose|w: int|
                        0 <= w < s.drop_first().len() && s.drop_first()[w] == rest[j - 1];
                    assert(s[0].size >= s[w + 1].size);
                }
            }
        }
        assert(seq![s[0]] + s.drop_first() =~= s);
        vstd::seq_lib::lemma_multiset_commutative(seq![s[0]], rest);
        vstd::seq_lib::lemma_multiset_commutative(seq![s[0]], s.drop_first());
        assert(seq![s[0]].to_multiset() =~= Multiset::empty().insert(s[0]));
        assert(insert_desc(x, s).to_multiset() =~= s.to_multiset().insert(x));
    } else {
        let r = seq![x] + s;
        assert forall|i: int, j: int| 0 <= i < j < r.len() implies r[i].size >= r[j].size by {
            if i > 0 {
                assert(r[i] == s[i - 1] && r[j] == s[j - 1]);
            } else if j > 1 {
                assert(s[0].size >= s[j - 1].size);
            }
        }
        vstd::seq_lib::lemma_multiset_commutative(seq![x], s);
        assert(seq![x].to_multiset() =~= Multiset::empty().insert(x));
        assert(insert_desc(x, s).to_multiset() =~= s.to_multiset().insert(x));
    }
}

/// What the sort promises: a size-descending permutation.
pub proof fn lemma_sort_desc_ensures(s: Seq<FileRecordView>)
    ensures
        sorted_desc(sort_desc(s)),
        sort_desc(s).to_multiset() == s.to_multiset(),
        sort_desc(s).len() == s.len(),
    decreases s.len(),
{
    broadcast use vstd::seq_lib::group_to_multiset_ensures;

    if s.len() > 0 {
        lemma_sort_desc_ensures(s.drop_last());
        lemma_insert_desc_ensures(s.last(), sort_desc(s.drop_last()));
        assert(s.drop_last().push(s.last()) =~= s);
    }
}

proof fn lemma_insert_desc_at(x: FileRecordView, s: Seq<FileRecordView>, j: int)
    requires
        0 <= j <= s.len(),
        forall|j2: int| 0 <= j2 < j ==> s[j2].size >= x.size,
        j < s.len() ==> s[j].size < x.size,
    ensures
        insert_desc(x, s) == s.insert(j, x),
    decreases s.len(),
{
    if s.len() == 0 {
        assert(insert_desc(x, s) =~= s.insert(0, x));
    } else if j == 0 {
        assert(s[0].size < x.size);
        assert(seq![x] + s =~= s.insert(0, x));
    } else {
        assert(s[0].size >= x.size);
        lemma_insert_desc_at(x, s.drop_first(), j - 1);
        assert(seq![s[0]] + s.drop_first().insert(j - 1, x) =~= s.insert(j, x));
    }
}

/// Sorts the records by size, largest first, equal sizes keeping their
/// input order.
pub fn sort_files_desc(files: &Vec<FileRecord>) -> (r: Vec<FileRecord>)
    ensures
        recs_view(r@) == sort_desc(recs_view(files@)),
        sorted_desc(recs_view(r@)),
        recs_view(r@).to_multiset() == recs_view(files@).to_multiset(),
{
    proof {
        lemma_sort_desc_ensures(recs_view(files@));
    }
    let mut r: Vec<FileRecord> = Vec::new();
    proof {
        assert(recs_view(files@.take(0)) =~= Seq::empty());
        assert(recs_view(r@) =~= Seq::empty());
    }
    let mut i: usize = 0;
    while i < files.len()
        invariant
            i <= files@.len(),
            recs_view(r@) == sort_desc(recs_view(files@.take(i as int))),
            r@.len() == i,
        decreases files@.len() - i,
    {
        let x = files[i].duplicate();
        let ghost old_r = r@;
        let mut j: usize = 0;
        while j < r.len() && r[j].size >= x.size
            invariant
                j <= r@.len(),
                r@ == old_r,
                x@ == files@[i as int]@,
                forall|j2: int| 0 <= j2 < j ==> recs_view(r@)[j2].size >= x@.size,
            decreases r@.len() - j,
        {
            assert(recs_view(r@)[j as int].size == r@[j as int].size);
            j = j + 1;
        }
        proof {
            assert(j < r@.len() ==> recs_view(r@)[j as int].size < x@.size);
            lemma_insert_desc_at(x@, recs_view(r@), j as int);
        }
        r.insert(j, x);
        proof {
            assert(recs_view(r@) =~= recs_view(old_r).insert(j as int, files@[i as int]@));
            assert(recs_view(files@.take(i + 1)).drop_last() =~= recs_view(files@.take(i as int)));
            assert(recs_view(files@.take(i + 1)).last() == files@[i as int]@);
            assert(recs_view(files@.take(i + 1)) =~= recs_view(files@.take(i as int)).push(
                files@[i as int]@,
            ));
            assert(sort_desc(recs_view(files@.take(i + 1))) == insert_desc(
                files@[i as int]@,
                sort_desc(recs_view(files@.take(i as int))),
            ));
        }
        i = i + 1;
    }
    proof {
        assert(files@.take(files@.len() as int) =~= files@);
    }
    r
}

/// The first index holding the minimum of the running totals: the
/// least-loaded chunk, ties falling to the lowest index.
pub open spec fn min_total_index(t: Seq<int>) -> int
    recommends
        t.len() > 0,
    decreases t.len(),
{
    if t.len() <= 1 {
        0
    } else {
        let m = min_total_index(t.drop_first());
        if t[0] <= t[m + 1] {
            0
        } else {
            m + 1
        }
    }
}

proof fn lemma_min_total_index_props(t: Seq<int>)
    requires
        t.len() > 0,
    ensures
        0 <= min_total_index(t) < t.len(),
        forall|j: int| 0 <= j < t.len() ==> t[min_total_index(t)] <= #[trigger] t[j],
        forall|j: int| 0 <= j < min_total_index(t) ==> #[trigger] t[j] > t[min_total_index(t)],
    decreases t.len(),
{
    if t.len() > 1 {
        lemma_min_total_index_props(t.drop_first());
        let m = min_total_index(t.drop_first());
        assert forall|j: int| 1 <= j < t.len() implies t[m + 1] <= #[trigger] t[j] by {
            assert(t.drop_first()[m] <= t.drop_first()[j - 1]);
        }
        assert forall|j: int| 1 <= j < m + 1 implies #[trigger] t[j] > t[m + 1] by {
            assert(t.drop_first()[j - 1] > t.drop_first()[m]);
        }
    }
}

/// `k` chunks holding nothing.
pub open spec fn empty_chunks(k: nat) -> Seq<Seq<FileRecordView>> {
    Seq::new(k, |i: int| Seq::<FileRecordView>::empty())
}

/// `k` running totals of zero.
pub open spec fn zero_totals(k: nat) -> Seq<int> {
    Seq::new(k, |i: int| 0int)
}

/// One greedy step: the file joins the least-loaded chunk.
pub open spec fn assign_step(
    chunks: Seq<Seq<FileRecordView>>,
    totals: Seq<int>,
    f: FileRecordView,
) -> (Seq<Seq<FileRecordView>>, Seq<int>) {
    let m = min_total_index(totals);
    (chunks.update(m, chunks[m].push(f)), totals.update(m, totals[m] + f.size))
}

/// Greedy assignment of every file, in sequence order, to `k` chunks.
pub open spec fn assign_all(files: Seq<FileRecordView>, k: nat) -> (Seq<
    Seq<FileRecordView>,
>, Seq<int>)
    decreases files.len(),
{
    if files.len() == 0 {
        (empty_chunks(k), zero_totals(k))
    } else {
        let prev = assign_all(files.drop_last(), k);
        assign_step(prev.0, prev.1, files.last())
    }
}

/// The sum of the byte sizes of a sequence of files.
pub open spec fn size_sum(files: Seq<FileRecordView>) -> int
    decreases files.len(),
{
    if files.len() == 0 {
        0
    } else {
        size_sum(files.drop_last()) + files.last().size
    }
}

proof fn lemma_assign_all_shape(files: Seq<FileRecordView>, k: nat)
    requires
        k >= 1,
    ensures
        assign_all(files, k).0.len() == k,
        assign_all(files, k).1.len() == k,
        forall|j: int|
            0 <= j < k ==> 0 <= #[trigger] assign_all(files, k).1[j] <= size_sum(files),
    decreases files.len(),
{
    if files.len() == 0 {
    } else {
        lemma_assign_all_shape(files.drop_last(), k);
        lemma_size_sum_nonneg(files.drop_last());
        lemma_min_total_index_props(assign_all(files.drop_last(), k).1);
    }
}

proof fn lemma_size_sum_nonneg(files: Seq<FileRecordView>)
    ensures
        size_sum(files) >= 0,
    decreases files.len(),
{
    if files.len() > 0 {
        lemma_size_sum_nonneg(files.drop_last());
    }
}

/// Splits the files, largest first, over `k` chunks and drops the chunks
/// that received nothing.
pub open spec fn distribute_spec(files: Seq<FileRecordView>, k: nat) -> Seq<
    Seq<FileRecordView>,
> {
    assign_all(sort_desc(files), k).0.filter(|c: Seq<FileRecordView>| c.len() > 0)
}

/// Distributes the files over at most `requested` chunks, greedily
/// balancing byte totals. `None` or zero chunks, or no files at all, yield
/// one chunk holding everything (possibly nothing).
pub fn distribute_files(files: &Vec<FileRecord>, requested: Option<usize>) -> (r: Vec<
    Vec<FileRecord>,
>)
    ensures
        match requested {
            Some(k) if k >= 1 && files@.len() > 0 => {
                &&& chunks_view(r@) == distribute_spec(recs_view(files@), k as nat)
                &&& chunks_view(r@).flatten().to_multiset() == recs_view(files@).to_multiset()
                &&& forall|i: int| 0 <= i < r@.len() ==> #[trigger] r@[i]@.len() > 0
                &&& r@.len() <= k
            },
            _ => r@.len() == 1 && recs_view(r@[0]@) == recs_view(files@),
        },
{
    let k: usize = match requested {
        None => 0,
        Some(k) => k,
    };
    if k == 0 || files.len() == 0 {
        let mut whole: Vec<FileRecord> = Vec::new();
        let mut i: usize = 0;
        while i < files.len()
            invariant
                i <= files@.len(),
                recs_view(whole@) == recs_view(files@).take(i as int),
            decreases files@.len() - i,
        {
            let d = files[i].duplicate();
            let ghost prevw = whole@;
            whole.push(d);
            proof {
                assert(whole@ == prevw.push(d));
                assert(d@ == files@[i as int]@);
                assert(recs_view(prevw).len() == i);
                assert(prevw.len() == i);
                assert(recs_view(prevw.push(d)).len() == i + 1);
                assert forall|q: int| 0 <= q < prevw.len() + 1 implies recs_view(prevw.push(d))[q]
                    == recs_view(files@).take(i + 1)[q] by {
                    if q < prevw.len() {
                        assert(recs_view(prevw)[q] == recs_view(files@).take(i as int)[q]);
                        assert(prevw.push(d)[q] == prevw[q]);
                    } else {
                        assert(prevw.push(d)[q] == d);
                    }
                }
                assert(recs_view(whole@) =~= recs_view(files@).take(i + 1));
            }
            i = i + 1;
        }
        proof {
            assert(recs_view(files@).take(files@.len() as int) =~= recs_view(files@));
        }
        let mut r: Vec<Vec<FileRecord>> = Vec::new();
        r.push(whole);
        return r;
    }
    let sorted = sort_files_desc(files);
    let ghost sfiles = sort_desc(recs_view(files@));
    let mut result: Vec<Vec<FileRecord>> = Vec::new();
    let mut totals: Vec<u128> = Vec::new();
    let mut j: usize = 0;
    while j < k
        invariant
            j <= k,
            result@.len() == j,
            totals@.len() == j,
            forall|i: int| 0 <= i < j ==> recs_view(#[trigger] result@[i]@) == Seq::<
                FileRecordView,
            >::empty(),
            forall|i: int| 0 <= i < j ==> totals@[i] == 0,
        decreases k - j,
    {
        result.push(Vec::new());
        totals.push(0);
        j = j + 1;
    }
    proof {
        assert(chunks_view(result@) =~= empty_chunks(k as nat));
        assert(totals@.map_values(|t: u128| t as int) =~= zero_totals(k as nat));
        assert(sfiles.take(0) =~= Seq::empty());
        lemma_sort_desc_ensures(recs_view(files@));
    }
    let mut i: usize = 0;
    while i < sorted.len()
        invariant
            i <= sorted@.len(),
            k >= 1,
            result@.len() == k,
            totals@.len() == k,
            recs_view(sorted@) == sfiles,
            sfiles.len() == sorted@.len(),
            chunks_view(result@) == assign_all(sfiles.take(i as int), k as nat).0,
            totals@.map_values(|t: u128| t as int) == assign_all(sfiles.take(i as int), k as nat).1,
        decreases sorted@.len() - i,
    {
        let ghost prev = assign_all(sfiles.take(i as int), k as nat);
        proof {
            lemma_assign_all_shape(sfiles.take(i as int), k as nat);
            lemma_size_sum_le_mul(sfiles.take(i as int));
            lemma_min_total_index_props(prev.1);
        }
        // find the first least-loaded chunk
        let mut m: usize = 0;
        let mut jj: usize = 1;
        while jj < k
            invariant
                jj <= k,
                m < jj,
                totals@.len() == k,
                forall|t: int| 0 <= t < jj ==> totals@[m as int] <= totals@[t],
                forall|t: int| 0 <= t < m ==> totals@[t] > totals@[m as int],
            decreases k - jj,
        {
            if totals[jj] < totals[m] {
                m = jj;
            }
            jj = jj + 1;
        }
        proof {
            let tv = totals@.map_values(|t: u128| t as int);
            assert forall|t: int| 0 <= t < k implies tv[m as int] <= tv[t] by {
                assert(totals@[m as int] <= totals@[t]);
            }
            assert forall|t: int| 0 <= t < m implies tv[t] > tv[m as int] by {
                assert(totals@[t] > totals@[m as int]);
            }
            lemma_min_total_index_is(tv, m as int);
        }
        // rebuild the chosen chunk with the file appended
        let mut chunk: Vec<FileRecord> = Vec::new();
        let mut t: usize = 0;
        while t < result[m].len()
            invariant
                m < result@.len(),
                t <= result@[m as int]@.len(),
                recs_view(chunk@) == recs_view(result@[m as int]@).take(t as int),
            decreases result@[m as int]@.len() - t,
        {
            let d = result[m][t].duplicate();
            let ghost prevc = chunk@;
            chunk.push(d);
            proof {
                assert(chunk@ == prevc.push(d));
                assert(d@ == result@[m as int]@[t as int]@);
                assert(recs_view(prevc).len() == t);
                assert(prevc.len() == t);
                assert forall|q: int| 0 <= q < prevc.len() + 1 implies recs_view(prevc.push(d))[q]
                    == recs_view(result@[m as int]@).take(t + 1)[q] by {
                    if q < prevc.len() {
                        assert(recs_view(prevc)[q] == recs_view(result@[m as int]@).take(
                            t as int,
                        )[q]);
                        assert(prevc.push(d)[q] == prevc[q]);
                    } else {
                        assert(prevc.push(d)[q] == d);
                    }
                }
                assert(recs_view(chunk@) =~= recs_view(result@[m as int]@).take(t + 1));
            }
            t = t + 1;
        }
        proof {
            assert(recs_view(chunk@) =~= recs_view(result@[m as int]@));
        }
        chunk.push(sorted[i].duplicate());
        let ghost oldresult = result@;
        result.set(m, chunk);
        let add = sorted[i].size;
        let t0 = totals[m];
        proof {
            // the new total stays within the sum of all sizes seen so far,
            // which fits comfortably in a u128
            assert(prev.1[m as int] + add <= size_sum(sfiles.take(i + 1))) by {
                assert(sfiles.take(i + 1).drop_last() =~= sfiles.take(i as int));
                assert(sfiles.take(i + 1).last() == sfiles[i as int]);
            }
            lemma_size_sum_le_mul(sfiles.take(i + 1));
            assert(sfiles.take(i + 1).len() * (u64::MAX as int) <= 0x10000000000000000 * (
            u64::MAX as int)) by (nonlinear_arith)
                requires
                    sfiles.take(i + 1).len() <= 0x10000000000000000,
            ;
            assert(totals@[m as int] as int == prev.1[m as int]);
        }
        totals.set(m, t0 + (add as u128));
        proof {
            let stepped = assign_step(prev.0, prev.1, sfiles[i as int]);
            assert(sfiles.take(i + 1).drop_last() =~= sfiles.take(i as int));
            assert(sfiles.take(i + 1).last() == sfiles[i as int]);
            assert(assign_all(sfiles.take(i + 1), k as nat) == stepped);
            assert(recs_view(result@[m as int]@) =~= prev.0[m as int].push(sfiles[i as int]));
            assert(chunks_view(result@) =~= stepped.0);
            assert(totals@.map_values(|t: u128| t as int) =~= stepped.1);
        }
        i = i + 1;
    }
    proof {
        assert(sfiles.take(sfiles.len() as int) =~= sfiles);
    }
    // drop the chunks that received nothing
    let mut out: Vec<Vec<FileRecord>> = Vec::new();
    let mut j2: usize = 0;
    proof {
        assert(chunks_view(result@).take(0) =~= Seq::empty());
        assert(chunks_view(result@).take(0).filter(|c: Seq<FileRecordView>| c.len() > 0)
            =~= Seq::empty());
        assert(chunks_view(out@) =~= Seq::empty());
    }
    while j2 < result.len()
        invariant
            j2 <= result@.len(),
            chunks_view(out@) == chunks_view(result@).take(j2 as int).filter(
                |c: Seq<FileRecordView>| c.len() > 0,
            ),
        decreases result@.len() - j2,
    {
        proof {
            reveal_with_fuel(Seq::filter, 2);
            assert(chunks_view(result@).take(j2 + 1).drop_last() =~= chunks_view(result@).take(
                j2 as int,
            ));
            assert(chunks_view(result@).take(j2 + 1).last() == chunks_view(result@)[j2 as int]);
        }
        if result[j2].len() > 0 {
            let ghost oldout = chunks_view(out@);
            // move the chunk over without disturbing the ones before it
            let mut copied: Vec<FileRecord> = Vec::new();
            let mut t: usize = 0;
            while t < result[j2].len()
                invariant
                    j2 < result@.len(),
                    t <= result@[j2 as int]@.len(),
                    recs_view(copied@) == recs_view(result@[j2 as int]@).take(t as int),
                decreases result@[j2 as int]@.len() - t,
            {
                let d = result[j2][t].duplicate();
                let ghost prevc = copied@;
                copied.push(d);
                proof {
                    assert(copied@ == prevc.push(d));
                    assert(d@ == result@[j2 as int]@[t as int]@);
                    assert(recs_view(prevc).len() == t);
                    assert(prevc.len() == t);
                    assert forall|q: int|
                        0 <= q < prevc.len() + 1 implies recs_view(prevc.push(d))[q] == recs_view(
                        result@[j2 as int]@,
                    ).take(t + 1)[q] by {
                        if q < prevc.len() {
                            assert(recs_view(prevc)[q] == recs_view(result@[j2 as int]@).take(
                                t as int,
                            )[q]);
                            assert(prevc.push(d)[q] == prevc[q]);
                        } else {
                            assert(prevc.push(d)[q] == d);
                        }
                    }
                    assert(recs_view(copied@) =~= recs_view(result@[j2 as int]@).take(t + 1));
                }
                t = t + 1;
            }
            proof {
                assert(recs_view(copied@) =~= recs_view(result@[j2 as int]@));
            }
            out.push(copied);
            proof {
                assert(chunks_view(out@) =~= oldout.push(chunks_view(result@)[j2 as int]));
            }
        }
        j2 = j2 + 1;
    }
    proof {
        assert(chunks_view(result@).take(result@.len() as int) =~= chunks_view(result@));
        lemma_distribute_partition(recs_view(files@), k as nat);
        assert forall|i: int| 0 <= i < out@.len() implies #[trigger] out@[i]@.len() > 0 by {
            assert(chunks_view(out@)[i] == recs_view(out@[i]@));
            assert(recs_view(out@[i]@).len() == out@[i]@.len());
        }
    }
    out
}

/// A pinned-down characterization: the first position holding the least
/// total is the index the greedy step picks.
proof fn lemma_min_total_index_is(t: Seq<int>, m: int)
    requires
        t.len() > 0,
        0 <= m < t.len(),
        forall|j: int| 0 <= j < t.len() ==> t[m] <= t[j],
        forall|j: int| 0 <= j < m ==> t[j] > t[m],
    ensures
        min_total_index(t) == m,
    decreases t.len(),
{
    if t.len() > 1 {
        lemma_min_total_index_props(t.drop_first());
        let mi = min_total_index(t.drop_first());
        if m == 0 {
            assert(t[0] <= t[mi + 1]);
        } else {
            assert forall|j: int| 0 <= j < t.drop_first().len() implies t.drop_first()[m - 1]
                <= #[trigger] t.drop_first()[j] by {
                assert(t[m] <= t[j + 1]);
            }
            assert forall|j: int| 0 <= j < m - 1 implies #[trigger] t.drop_first()[j] > t.drop_first()[m
                - 1] by {
                assert(t[j + 1] > t[m]);
            }
            lemma_min_total_index_is(t.drop_first(), m - 1);
            assert(t[0] > t[m]);
            assert(t[mi + 1] == t.drop_first()[mi]);
            assert(t.drop_first()[mi] == t.drop_first()[m - 1]);
        }
    }
}

proof fn lemma_flatten_empty_chunks(k: nat)
    ensures
        empty_chunks(k).flatten() =~= Seq::<FileRecordView>::empty(),
    decreases k,
{
    if k > 0 {
        assert(empty_chunks(k).drop_first() =~= empty_chunks((k - 1) as nat));
        lemma_flatten_empty_chunks((k - 1) as nat);
        assert(empty_chunks(k).flatten() == empty_chunks(k).first() + empty_chunks(
            k,
        ).drop_first().flatten());
    }
}

proof fn lemma_flatten_update_push(chunks: Seq<Seq<FileRecordView>>, m: int, f: FileRecordView)
    requires
        0 <= m < chunks.len(),
    ensures
        chunks.update(m, chunks[m].push(f)).flatten().to_multiset() == chunks.flatten()
            .to_multiset().insert(f),
    decreases chunks.len(),
{
    broadcast use vstd::seq_lib::group_to_multiset_ensures;

    let upd = chunks.update(m, chunks[m].push(f));
    if m == 0 {
        assert(upd.first() == chunks[0].push(f));
        assert(upd.drop_first() =~= chunks.drop_first());
        assert(upd.flatten() == upd.first() + upd.drop_first().flatten());
        assert(chunks.flatten() == chunks.first() + chunks.drop_first().flatten());
        vstd::seq_lib::lemma_multiset_commutative(chunks[0].push(f), chunks.drop_first().flatten());
        vstd::seq_lib::lemma_multiset_commutative(chunks[0], chunks.drop_first().flatten());
        assert(upd.flatten().to_multiset() =~= chunks.flatten().to_multiset().insert(f));
    } else {
        lemma_flatten_update_push(chunks.drop_first(), m - 1, f);
        assert(upd.drop_first() =~= chunks.drop_first().update(
            m - 1,
            chunks.drop_first()[m - 1].push(f),
        ));
        assert(upd.first() == chunks.first());
        assert(upd.flatten() == upd.first() + upd.drop_first().flatten());
        assert(chunks.flatten() == chunks.first() + chunks.drop_first().flatten());
        vstd::seq_lib::lemma_multiset_commutative(chunks.first(), upd.drop_first().flatten());
        vstd::seq_lib::lemma_multiset_commutative(chunks.first(), chunks.drop_first().flatten());
        assert(upd.flatten().to_multiset() =~= chunks.flatten().to_multiset().insert(f));
    }
}

proof fn lemma_assign_all_multiset(files: Seq<FileRecordView>, k: nat)
    requires
        k >= 1,
    ensures
        assign_all(files, k).0.flatten().to_multiset() == files.to_multiset(),
    decreases files.len(),
{
    broadcast use vstd::seq_lib::group_to_multiset_ensures;

    if files.len() == 0 {
        lemma_flatten_empty_chunks(k);
        assert(empty_chunks(k).flatten().to_multiset() =~= files.to_multiset());
    } else {
        lemma_assign_all_multiset(files.drop_last(), k);
        let prev = assign_all(files.drop_last(), k);
        lemma_assign_all_shape(files.drop_last(), k);
        lemma_min_total_index_props(prev.1);
        lemma_flatten_update_push(prev.0, min_total_index(prev.1), files.last());
        assert(files.drop_last().push(files.last()) =~= files);
    }
}

proof fn lemma_filter_nonempty_flatten(chunks: Seq<Seq<FileRecordView>>)
    ensures
        chunks.filter(|c: Seq<FileRecordView>| c.len() > 0).flatten() =~= chunks.flatten(),
    decreases chunks.len(),
{
    reveal(Seq::filter);
    broadcast use Seq::lemma_flatten_push;

    let pred = |c: Seq<FileRecordView>| c.len() > 0;
    if chunks.len() > 0 {
        let t = chunks.drop_last();
        let l = chunks.last();
        lemma_filter_nonempty_flatten(t);
        assert(t.push(l) =~= chunks);
        if l.len() > 0 {
            assert(chunks.filter(pred) == t.filter(pred).push(l));
        } else {
            assert(chunks.filter(pred) == t.filter(pred));
            assert(t.flatten() + l =~= t.flatten());
        }
    }
}

/// What distribution promises of the parts: for every chunk count of at
/// least one, the returned chunks together hold exactly the given files
/// (as a multiset, nothing duplicated or dropped), no returned chunk is
/// empty, and no more chunks come back than were requested.
pub proof fn lemma_distribute_partition(files: Seq<FileRecordView>, k: nat)
    requires
        k >= 1,
    ensures
        distribute_spec(files, k).flatten().to_multiset() == files.to_multiset(),
        forall|i: int|
            0 <= i < distribute_spec(files, k).len() ==> #[trigger] distribute_spec(files, k)[i].len()
                > 0,
        distribute_spec(files, k).len() <= k,
{
    broadcast use Seq::lemma_filter_len;
    broadcast use Seq::lemma_filter_pred;

    lemma_sort_desc_ensures(files);
    lemma_assign_all_multiset(sort_desc(files), k);
    lemma_assign_all_shape(sort_desc(files), k);
    lemma_filter_nonempty_flatten(assign_all(sort_desc(files), k).0);
}

/// Whether every file carries at least one byte.
pub open spec fn all_positive(files: Seq<FileRecordView>) -> bool {
    forall|i: int| 0 <= i < files.len() ==> #[trigger] files[i].size > 0
}

/// The smaller of the candidate count and the requested chunk count.
pub open spec fn min_chunks(n: int, k: int) -> int {
    if n < k {
        n
    } else {
        k
    }
}

proof fn lemma_assign_all_positive_shape(files: Seq<FileRecordView>, k: nat)
    requires
        k >= 1,
        all_positive(files),
    ensures
        forall|j: int|
            0 <= j < min_chunks(files.len() as int, k as int) ==> #[trigger] assign_all(
                files,
                k,
            ).0[j].len() > 0,
        forall|j: int|
            0 <= j < min_chunks(files.len() as int, k as int) ==> #[trigger] assign_all(
                files,
                k,
            ).1[j] > 0,
        forall|j: int|
            min_chunks(files.len() as int, k as int) <= j < k ==> #[trigger] assign_all(
                files,
                k,
            ).0[j].len() == 0,
        forall|j: int|
            min_chunks(files.len() as int, k as int) <= j < k ==> #[trigger] assign_all(
                files,
                k,
            ).1[j] == 0,
    decreases files.len(),
{
    lemma_assign_all_shape(files, k);
    if files.len() == 0 {
    } else {
        assert(all_positive(files.drop_last())) by {
            assert forall|i: int| 0 <= i < files.drop_last().len() implies #[trigger] files.drop_last()[i].size
                > 0 by {
                assert(files.drop_last()[i] == files[i]);
            }
        }
        lemma_assign_all_positive_shape(files.drop_last(), k);
        lemma_assign_all_shape(files.drop_last(), k);
        let prev = assign_all(files.drop_last(), k);
        let m0 = min_chunks(files.len() - 1, k as int);
        lemma_min_total_index_props(prev.1);
        let m = min_total_index(prev.1);
        assert(files.last().size > 0) by {
            assert(files[files.len() - 1].size > 0);
        }
        if files.len() - 1 < k {
            // the first chunk still at zero takes the file
            assert(assign_all(files.drop_last(), k).1[m0] == 0);
            assert(prev.1[m0] == 0);
            assert forall|j: int| 0 <= j < prev.1.len() implies prev.1[m0] <= #[trigger] prev.1[j] by {
                assert(assign_all(files.drop_last(), k).1[j] == prev.1[j]);
                if j < m0 {
                    assert(assign_all(files.drop_last(), k).1[j] > 0);
                } else {
                    assert(assign_all(files.drop_last(), k).1[j] == 0);
                }
            }
            assert forall|j: int| 0 <= j < m0 implies #[trigger] prev.1[j] > prev.1[m0] by {
                assert(assign_all(files.drop_last(), k).1[j] > 0);
            }
            lemma_min_total_index_is(prev.1, m0);
            assert(m == m0);
            assert forall|j: int|
                0 <= j < min_chunks(files.len() as int, k as int) implies #[trigger] assign_all(
                files,
                k,
            ).0[j].len() > 0 && assign_all(files, k).1[j] > 0 by {
                if j < m0 {
                    assert(assign_all(files.drop_last(), k).0[j].len() > 0);
                    assert(assign_all(files.drop_last(), k).1[j] > 0);
                }
            }
            assert forall|j: int|
                min_chunks(files.len() as int, k as int) <= j < k implies #[trigger] assign_all(
                files,
                k,
            ).0[j].len() == 0 && assign_all(files, k).1[j] == 0 by {
                assert(assign_all(files.drop_last(), k).0[j].len() == 0);
                assert(assign_all(files.drop_last(), k).1[j] == 0);
            }
        } else {
            // every chunk already holds something; the file lands on one of them
            assert forall|j: int|
                0 <= j < min_chunks(files.len() as int, k as int) implies #[trigger] assign_all(
                files,
                k,
            ).0[j].len() > 0 && assign_all(files, k).1[j] > 0 by {
                assert(assign_all(files.drop_last(), k).0[j].len() > 0);
                assert(assign_all(files.drop_last(), k).1[j] > 0);
            }
        }
    }
}

proof fn lemma_filter_prefix_len(cs: Seq<Seq<FileRecordView>>, m: int)
    requires
        0 <= m <= cs.len(),
        forall|j: int| 0 <= j < m ==> #[trigger] cs[j].len() > 0,
        forall|j: int| m <= j < cs.len() ==> #[trigger] cs[j].len() == 0,
    ensures
        cs.filter(|c: Seq<FileRecordView>| c.len() > 0).len() == m,
    decreases cs.len(),
{
    reveal(Seq::filter);
    if cs.len() > 0 {
        let t = cs.drop_last();
        assert(forall|j: int| 0 <= j < t.len() ==> #[trigger] t[j] == cs[j]);
        if m == cs.len() {
            lemma_filter_prefix_len(t, m - 1);
        } else {
            lemma_filter_prefix_len(t, m);
        }
    }
}

/// When every candidate carries at least one byte, distribution fills as
/// many chunks as it can: exactly the smaller of the candidate count and
/// the requested count come back.
pub proof fn lemma_distribute_fills_chunks(files: Seq<FileRecordView>, k: nat)
    requires
        k >= 1,
        all_positive(files),
    ensures
        distribute_spec(files, k).len() == min_chunks(files.len() as int, k as int),
{
    broadcast use vstd::seq_lib::group_to_multiset_ensures;

    lemma_sort_desc_ensures(files);
    let sorted = sort_desc(files);
    assert(all_positive(sorted)) by {
        assert forall|i: int| 0 <= i < sorted.len() implies #[trigger] sorted[i].size > 0 by {
            assert(sorted.contains(sorted[i]));
            assert(sorted.to_multiset().count(sorted[i]) > 0);
            assert(files.to_multiset().count(sorted[i]) > 0);
            assert(files.contains(sorted[i]));
            let w = choose|w: int| 0 <= w < files.len() && files[w] == sorted[i];
            assert(files[w].size > 0);
        }
    }
    lemma_assign_all_positive_shape(sorted, k);
    lemma_assign_all_shape(sorted, k);
    lemma_filter_prefix_len(
        assign_all(sorted, k).0,
        min_chunks(sorted.len() as int, k as int),
    );
}

/// The byte sizes of a sequence of files.
pub open spec fn sizes_of(s: Seq<FileRecordView>) -> Seq<u64> {
    s.map_values(|r: FileRecordView| r.size)
}

/// The byte sizes within each chunk.
pub open spec fn chunk_sizes_of(cs: Seq<Seq<FileRecordView>>) -> Seq<Seq<u64>> {
    cs.map_values(|c: Seq<FileRecordView>| sizes_of(c))
}

proof fn lemma_insert_desc_same_sizes(
    x1: FileRecordView,
    s1: Seq<FileRecordView>,
    x2: FileRecordView,
    s2: Seq<FileRecordView>,
)
    requires
        x1.size == x2.size,
        sizes_of(s1) == sizes_of(s2),
    ensures
        sizes_of(insert_desc(x1, s1)) == sizes_of(insert_desc(x2, s2)),
    decreases s1.len(),
{
    assert(sizes_of(s1).len() == s1.len());
    assert(sizes_of(s2).len() == s2.len());
    assert(s1.len() == s2.len());
    if s1.len() == 0 {
        assert(sizes_of(seq![x1]) =~= sizes_of(seq![x2]));
    } else {
        assert(s1[0].size == sizes_of(s1)[0]);
        assert(s2[0].size == sizes_of(s2)[0]);
        if s1[0].size >= x1.size {
            assert(sizes_of(s1.drop_first()) =~= sizes_of(s1).drop_first());
            assert(sizes_of(s2.drop_first()) =~= sizes_of(s2).drop_first());
            lemma_insert_desc_same_sizes(x1, s1.drop_first(), x2, s2.drop_first());
            let ins1 = insert_desc(x1, s1.drop_first());
            let ins2 = insert_desc(x2, s2.drop_first());
            let l1 = seq![s1[0]] + ins1;
            let l2 = seq![s2[0]] + ins2;
            assert(sizes_of(ins1).len() == ins1.len());
            assert(sizes_of(ins2).len() == ins2.len());
            assert(ins1.len() == ins2.len());
            assert forall|q: int| 0 <= q < l1.len() implies sizes_of(l1)[q] == sizes_of(l2)[q] by {
                assert(sizes_of(l1)[q] == l1[q].size);
                assert(sizes_of(l2)[q] == l2[q].size);
                if q == 0 {
                    assert(l1[0] == s1[0] && l2[0] == s2[0]);
                } else {
                    assert(l1[q] == ins1[q - 1] && l2[q] == ins2[q - 1]);
                    assert(sizes_of(ins1)[q - 1] == ins1[q - 1].size);
                    assert(sizes_of(ins2)[q - 1] == ins2[q - 1].size);
                }
            }
            assert(sizes_of(l1) =~= sizes_of(l2));
        } else {
            let l1 = seq![x1] + s1;
            let l2 = seq![x2] + s2;
            assert forall|q: int| 0 <= q < l1.len() implies sizes_of(l1)[q] == sizes_of(l2)[q] by {
                assert(sizes_of(l1)[q] == l1[q].size);
                assert(sizes_of(l2)[q] == l2[q].size);
                if q > 0 {
                    assert(l1[q] == s1[q - 1] && l2[q] == s2[q - 1]);
                    assert(sizes_of(s1)[q - 1] == s1[q - 1].size);
                    assert(sizes_of(s2)[q - 1] == s2[q - 1].size);
                }
            }
            assert(sizes_of(l1) =~= sizes_of(l2));
        }
    }
}

proof fn lemma_sort_desc_same_sizes(s1: Seq<FileRecordView>, s2: Seq<FileRecordView>)
    requires
        sizes_of(s1) == sizes_of(s2),
    ensures
        sizes_of(sort_desc(s1)) == sizes_of(sort_desc(s2)),
    decreases s1.len(),
{
    assert(sizes_of(s1).len() == s1.len());
    assert(sizes_of(s2).len() == s2.len());
    assert(s1.len() == s2.len());
    if s1.len() > 0 {
        assert(sizes_of(s1.drop_last()) =~= sizes_of(s1).drop_last());
        assert(sizes_of(s2.drop_last()) =~= sizes_of(s2).drop_last());
        lemma_sort_desc_same_sizes(s1.drop_last(), s2.drop_last());
        assert(s1.last().size == sizes_of(s1).last());
        assert(s2.last().size == sizes_of(s2).last());
        lemma_insert_desc_same_sizes(
            s1.last(),
            sort_desc(s1.drop_last()),
            s2.last(),
            sort_desc(s2.drop_last()),
        );
    }
}

proof fn lemma_assign_all_same_sizes(s1: Seq<FileRecordView>, s2: Seq<FileRecordView>, k: nat)
    requires
        k >= 1,
        sizes_of(s1) == sizes_of(s2),
    ensures
        chunk_sizes_of(assign_all(s1, k).0) == chunk_sizes_of(assign_all(s2, k).0),
        assign_all(s1, k).1 == assign_all(s2, k).1,
    decreases s1.len(),
{
    assert(sizes_of(s1).len() == s1.len());
    assert(sizes_of(s2).len() == s2.len());
    assert(s1.len() == s2.len());
    if s1.len() == 0 {
    } else {
        assert(sizes_of(s1.drop_last()) =~= sizes_of(s1).drop_last());
        assert(sizes_of(s2.drop_last()) =~= sizes_of(s2).drop_last());
        lemma_assign_all_same_sizes(s1.drop_last(), s2.drop_last(), k);
        let p1 = assign_all(s1.drop_last(), k);
        let p2 = assign_all(s2.drop_last(), k);
        lemma_assign_all_shape(s1.drop_last(), k);
        lemma_assign_all_shape(s2.drop_last(), k);
        lemma_min_total_index_props(p1.1);
        let m = min_total_index(p1.1);
        assert(s1.last().size == sizes_of(s1).last());
        assert(s2.last().size == sizes_of(s2).last());
        assert(chunk_sizes_of(p1.0)[m] == sizes_of(p1.0[m]));
        assert(chunk_sizes_of(p2.0)[m] == sizes_of(p2.0[m]));
        let push1 = p1.0[m].push(s1.last());
        let push2 = p2.0[m].push(s2.last());
        assert forall|q: int| 0 <= q < push1.len() implies sizes_of(push1)[q] == sizes_of(
            push2,
        )[q] by {
            assert(sizes_of(p1.0[m]).len() == p1.0[m].len());
            assert(sizes_of(p2.0[m]).len() == p2.0[m].len());
            assert(sizes_of(push1)[q] == push1[q].size);
            assert(sizes_of(push2)[q] == push2[q].size);
            if q < p1.0[m].len() {
                assert(push1[q] == p1.0[m][q] && push2[q] == p2.0[m][q]);
                assert(sizes_of(p1.0[m])[q] == p1.0[m][q].size);
                assert(sizes_of(p2.0[m])[q] == p2.0[m][q].size);
            }
        }
        assert(sizes_of(p1.0[m]).len() == p1.0[m].len());
        assert(sizes_of(p2.0[m]).len() == p2.0[m].len());
        assert(sizes_of(push1) =~= sizes_of(push2));
        let u1 = p1.0.update(m, push1);
        let u2 = p2.0.update(m, push2);
        assert forall|j: int| 0 <= j < u1.len() implies chunk_sizes_of(u1)[j] == chunk_sizes_of(
            u2,
        )[j] by {
            assert(chunk_sizes_of(u1)[j] == sizes_of(u1[j]));
            assert(chunk_sizes_of(u2)[j] == sizes_of(u2[j]));
            if j != m {
                assert(u1[j] == p1.0[j] && u2[j] == p2.0[j]);
                assert(chunk_sizes_of(p1.0)[j] == sizes_of(p1.0[j]));
                assert(chunk_sizes_of(p2.0)[j] == sizes_of(p2.0[j]));
            }
        }
        assert(chunk_sizes_of(u1) =~= chunk_sizes_of(u2));
        assert(chunk_sizes_of(assign_all(s1, k).0) =~= chunk_sizes_of(assign_all(s2, k).0));
        assert(assign_all(s1, k).1 =~= assign_all(s2, k).1);
    }
}

proof fn lemma_filter_nonempty_same_sizes(cs1: Seq<Seq<FileRecordView>>, cs2: Seq<
    Seq<FileRecordView>,
>)
    requires
        chunk_sizes_of(cs1) == chunk_sizes_of(cs2),
    ensures
        chunk_sizes_of(cs1.filter(|c: Seq<FileRecordView>| c.len() > 0)) == chunk_sizes_of(
            cs2.filter(|c: Seq<FileRecordView>| c.len() > 0),
        ),
    decreases cs1.len(),
{
    reveal(Seq::filter);
    let pred = |c: Seq<FileRecordView>| c.len() > 0;
    assert(chunk_sizes_of(cs1).len() == cs1.len());
    assert(chunk_sizes_of(cs2).len() == cs2.len());
    assert(cs1.len() == cs2.len());
    if cs1.len() > 0 {
        assert(chunk_sizes_of(cs1.drop_last()) =~= chunk_sizes_of(cs1).drop_last());
        assert(chunk_sizes_of(cs2.drop_last()) =~= chunk_sizes_of(cs2).drop_last());
        lemma_filter_nonempty_same_sizes(cs1.drop_last(), cs2.drop_last());
        assert(sizes_of(cs1.last()) == chunk_sizes_of(cs1).last());
        assert(sizes_of(cs2.last()) == chunk_sizes_of(cs2).last());
        assert(cs1.last().len() == sizes_of(cs1.last()).len());
        assert(cs2.last().len() == sizes_of(cs2.last()).len());
        if cs1.last().len() > 0 {
            assert(cs1.filter(pred) == cs1.drop_last().filter(pred).push(cs1.last()));
            assert(cs2.filter(pred) == cs2.drop_last().filter(pred).push(cs2.last()));
            assert(chunk_sizes_of(cs1.drop_last().filter(pred).push(cs1.last())) =~= chunk_sizes_of(
                cs1.drop_last().filter(pred),
            ).push(sizes_of(cs1.last())));
            assert(chunk_sizes_of(cs2.drop_last().filter(pred).push(cs2.last())) =~= chunk_sizes_of(
                cs2.drop_last().filter(pred),
            ).push(sizes_of(cs2.last())));
        } else {
            assert(cs1.filter(pred) == cs1.drop_last().filter(pred));
            assert(cs2.filter(pred) == cs2.drop_last().filter(pred));
        }
    }
}

/// Distribution is deterministic and looks only at sizes: two candidate
/// sequences with the same byte sizes, split over the same chunk count,
/// give chunks whose size sequences coincide — equal totals always fall to
/// the lowest chunk index, so repeated runs agree.
pub proof fn lemma_distribute_deterministic(
    f1: Seq<FileRecordView>,
    f2: Seq<FileRecordView>,
    k: nat,
)
    requires
        k >= 1,
        sizes_of(f1) == sizes_of(f2),
    ensures
        chunk_sizes_of(distribute_spec(f1, k)) == chunk_sizes_of(distribute_spec(f2, k)),
{
    lemma_sort_desc_same_sizes(f1, f2);
    lemma_assign_all_same_sizes(sort_desc(f1), sort_desc(f2), k);
    lemma_filter_nonempty_same_sizes(assign_all(sort_desc(f1), k).0, assign_all(sort_desc(f2), k).0);
}

/// Bytes in one kilobyte, with the 1024-based thresholds above it.
pub const KB: u64 = 1024;

/// Bytes in one megabyte.
pub const MB: u64 = 1024 * 1024;

/// Bytes in one gigabyte.
pub const GB: u64 = 1024 * 1024 * 1024;

/// The whole part and the rounded two-decimal fraction of `size / unit`
/// (rounding to nearest, halves up, with the carry folded into the whole
/// part).
pub open spec fn two_dec_parts(size: u64, unit: u64) -> (nat, nat)
    recommends
        unit >= 1,
{
    let whole = size as nat / unit as nat;
    let centi = ((size as nat % unit as nat) * 100 + unit as nat / 2) / unit as nat;
    if centi == 100 {
        (whole + 1, 0)
    } else {
        (whole, centi)
    }
}

/// The characters of `size / unit` with two decimals.
pub open spec fn scaled_str(size: u64, unit: u64) -> Seq<char> {
    let parts = two_dec_parts(size, unit);
    dec_str(parts.0) + seq!['.', digit_char(parts.1 / 10), digit_char(parts.1 % 10)]
}

/// The human-readable rendering of a byte count: plain bytes below one
/// kilobyte, otherwise two decimals against the largest 1024-based unit
/// reached.
pub open spec fn format_size_spec(size: u64) -> Seq<char> {
    if size >= GB {
        scaled_str(size, GB) + " GB"@
    } else if size >= MB {
        scaled_str(size, MB) + " MB"@
    } else if size >= KB {
        scaled_str(size, KB) + " KB"@
    } else {
        dec_str(size as nat) + " B"@
    }
}

fn push_scaled(size: u64, unit: u64, out: &mut String)
    requires
        1024 <= unit <= 0x40000000,
    ensures
        final(out)@ == old(out)@ + scaled_str(size, unit),
{
    let whole = size / unit;
    let rem = size % unit;
    proof {
        assert(size / unit <= size / 2) by (nonlinear_arith)
            requires
                unit >= 2,
        ;
        assert(rem * 100 + unit / 2 < 0x10000000000000000) by (nonlinear_arith)
            requires
                rem < unit,
                1024 <= unit <= 0x40000000,
        ;
    }
    let num = rem * 100 + unit / 2;
    let centi = num / unit;
    proof {
        assert(num / unit <= 100) by (nonlinear_arith)
            requires
                rem < unit,
                unit >= 2,
                num == rem * 100 + unit / 2,
        ;
    }
    if centi == 100 {
        push_decimal(whole + 1, out);
        push_char(out, '.');
        push_char(out, '0');
        push_char(out, '0');
    } else {
        push_decimal(whole, out);
        push_char(out, '.');
        push_char(out, digit_char_exec(centi / 10));
        push_char(out, digit_char_exec(centi % 10));
    }
    proof {
        assert(final(out)@ =~= old(out)@ + scaled_str(size, unit));
    }
}

/// Renders a byte count the way the distribution summary shows it.
pub fn format_size(size: u64) -> (r: String)
    ensures
        r@ == format_size_spec(size),
{
    let mut out = String::new();
    if size >= GB {
        push_scaled(size, GB, &mut out);
        out.append(" GB");
    } else if size >= MB {
        push_scaled(size, MB, &mut out);
        out.append(" MB");
    } else if size >= KB {
        push_scaled(size, KB, &mut out);
        out.append(" KB");
    } else {
        push_decimal(size, &mut out);
        out.append(" B");
    }
    proof {
        assert(out@ =~= format_size_spec(size));
    }
    out
}

/// Sums the byte sizes of one chunk.
pub fn chunk_total(chunk: &Vec<FileRecord>) -> (t: u128)
    ensures
        t as int == size_sum(recs_view(chunk@)),
{
    let mut t: u128 = 0;
    let mut i: usize = 0;
    proof {
        assert(recs_view(chunk@).take(0) =~= Seq::empty());
    }
    while i < chunk.len()
        invariant
            i <= chunk@.len(),
            t as int == size_sum(recs_view(chunk@).take(i as int)),
        decreases chunk@.len() - i,
    {
        proof {
            lemma_size_sum_le_mul(recs_view(chunk@).take(i + 1));
            assert(recs_view(chunk@).take(i + 1).len() * (u64::MAX as int) <= 0x10000000000000000
                * (u64::MAX as int)) by (nonlinear_arith)
                requires
                    recs_view(chunk@).take(i + 1).len() <= 0x10000000000000000,
            ;
            assert(recs_view(chunk@).take(i + 1).drop_last() =~= recs_view(chunk@).take(i as int));
            assert(recs_view(chunk@).take(i + 1).last() == recs_view(chunk@)[i as int]);
            assert(recs_view(chunk@)[i as int].size == chunk@[i as int]@.size);
            lemma_size_sum_nonneg(recs_view(chunk@).take(i as int));
        }
        t = t + (chunk[i].size as u128);
        i = i + 1;
    }
    proof {
        assert(recs_view(chunk@).take(chunk@.len() as int) =~= recs_view(chunk@));
    }
    t
}

/// The note printed when fewer chunks came back than were requested.
pub open spec fn shortfall_note_spec(created: u64, requested: u64) -> Seq<char> {
    "Note: Created "@ + dec_str(created as nat)
        + " chunks instead of the requested "@ + dec_str(requested as nat)
        + " due to the number of files available."@
}

/// The shortfall note, owed exactly when fewer chunks were created than
/// requested.
pub fn chunk_shortfall_note(created: u64, requested: u64) -> (r: Option<String>)
    ensures
        match r {
            Some(s) => created < requested && s@ == shortfall_note_spec(created, requested),
            None => created >= requested,
        },
{
    if created >= requested {
        return None;
    }
    let mut out = String::from_str("Note: Created ");
    push_decimal(created, &mut out);
    out.append(" chunks instead of the requested ");
    push_decimal(requested, &mut out);
    out.append(" due to the number of files available.");
    proof {
        assert(out@ =~= shortfall_note_spec(created, requested));
    }
    Some(out)
}

/// One line of the distribution summary.
pub open spec fn summary_line_spec(index: u64, size: u64, count: u64) -> Seq<char> {
    "Chunk "@ + dec_str(index as nat) + " size: "@ + format_size_spec(size) + " ("@ + dec_str(
        count as nat,
    ) + " files)"@
}

/// Renders one line of the distribution summary: the 1-based chunk index,
/// its human-readable byte total, and its file count.
pub fn chunk_summary_line(index: u64, size: u64, count: u64) -> (r: String)
    ensures
        r@ == summary_line_spec(index, size, count),
{
    let mut out = String::from_str("Chunk ");
    push_decimal(index, &mut out);
    out.append(" size: ");
    let sz = format_size(size);
    out.append(sz.as_str());
    out.append(" (");
    push_decimal(count, &mut out);
    out.append(" files)");
    proof {
        assert(out@ =~= summary_line_spec(index, size, count));
    }
    out
}

/// The byte sizes seen so far never exceed one `u64` each, so a running
/// total stays well inside a `u128`.
proof fn lemma_size_sum_le_mul(files: Seq<FileRecordView>)
    ensures
        size_sum(files) <= files.len() * (u64::MAX as int),
    decreases files.len(),
{
    if files.len() > 0 {
        lemma_size_sum_le_mul(files.drop_last());
        assert((files.len() - 1) * (u64::MAX as int) + (u64::MAX as int) == files.len() * (
        u64::MAX as int)) by (nonlinear_arith);
    }
}

} // verus!
