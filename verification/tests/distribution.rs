//! Chunk distribution, size formatting, file naming, and string helpers.
use agg_files::distributor::FileRecord;
use agg_files::distributor::chunk_shortfall_note;
use agg_files::distributor::chunk_summary_line;
use agg_files::distributor::chunk_total;
use agg_files::distributor::distribute_files;
use agg_files::distributor::format_size;
use agg_files::distributor::sort_files_desc;
use agg_files::output_names::output_filename;
use agg_files::output_names::replace_braces_str;
use agg_files::strutil::parse_usize;
use agg_files::strutil::str_lex_lt;
use agg_files::strutil::trim_str;
use agg_files::strutil::u64_to_string;

fn rec(path: &str, size: u64) -> FileRecord {
    FileRecord::new(path.to_string(), size)
}

fn chunk_paths(chunks: &Vec<Vec<FileRecord>>) -> Vec<Vec<String>> {
    chunks.iter().map(|c| c.iter().map(|r| r.path.clone()).collect()).collect()
}

#[test]
fn greedy_assignment_balances_largest_first() {
    let files = vec![rec("a", 10), rec("b", 80), rec("c", 30), rec("d", 40)];
    let chunks = distribute_files(&files, Some(2));
    // descending order: b(80), d(40), c(30), a(10);
    // b -> chunk 1, d -> chunk 2, c -> chunk 2 (70), a -> chunk 2 (80)
    assert_eq!(
        chunk_paths(&chunks),
        vec![vec!["b".to_string()], vec!["d".to_string(), "c".to_string(), "a".to_string()]]
    );
}

#[test]
fn equal_totals_fall_to_the_lowest_chunk_index() {
    let files = vec![rec("a", 5), rec("b", 5), rec("c", 5)];
    let chunks = distribute_files(&files, Some(3));
    // all totals are equal at every step, so assignment goes 1, 2, 3
    assert_eq!(
        chunk_paths(&chunks),
        vec![vec!["a".to_string()], vec!["b".to_string()], vec!["c".to_string()]]
    );
}

#[test]
fn chunks_partition_the_candidate_set() {
    let files = vec![rec("a", 7), rec("b", 3), rec("c", 9), rec("d", 1), rec("e", 9)];
    for k in 1..=6usize {
        let chunks = distribute_files(&files, Some(k));
        assert!(chunks.len() <= k);
        // every size is positive, so distribution fills as many chunks as it can
        assert_eq!(chunks.len(), k.min(files.len()));
        for c in &chunks {
            assert!(!c.is_empty());
        }
        let mut all: Vec<String> = chunks.iter().flatten().map(|r| r.path.clone()).collect();
        all.sort();
        assert_eq!(
            all,
            vec![
                "a".to_string(),
                "b".to_string(),
                "c".to_string(),
                "d".to_string(),
                "e".to_string()
            ]
        );
    }
}

#[test]
fn repeated_runs_give_identical_assignments() {
    let files = vec![rec("x", 12), rec("y", 12), rec("z", 40), rec("w", 1)];
    let first = chunk_paths(&distribute_files(&files, Some(3)));
    for _ in 0..3 {
        assert_eq!(chunk_paths(&distribute_files(&files, Some(3))), first);
    }
}

#[test]
fn zero_or_absent_chunk_count_means_one_chunk() {
    let files = vec![rec("a", 1), rec("b", 2)];
    let whole = distribute_files(&files, None);
    assert_eq!(whole.len(), 1);
    assert_eq!(whole[0].len(), 2);
    let zero = distribute_files(&files, Some(0));
    assert_eq!(zero.len(), 1);
    assert_eq!(zero[0].len(), 2);
    let none = distribute_files(&Vec::new(), Some(4));
    assert_eq!(none.len(), 1);
    assert!(none[0].is_empty());
}

#[test]
fn sort_is_stable_for_equal_sizes() {
    let files = vec![rec("first", 5), rec("second", 5), rec("big", 9), rec("third", 5)];
    let sorted = sort_files_desc(&files);
    let names: Vec<&str> = sorted.iter().map(|r| r.path.as_str()).collect();
    assert_eq!(names, vec!["big", "first", "second", "third"]);
}

#[test]
fn shortfall_note_owed_exactly_when_fewer_chunks_came_back() {
    let note = chunk_shortfall_note(1, 2).expect("a note is owed");
    assert_eq!(
        note,
        "Note: Created 1 chunks instead of the requested 2 due to the number of files available."
    );
    assert!(chunk_shortfall_note(2, 2).is_none());
    assert!(chunk_shortfall_note(3, 2).is_none());
}

#[test]
fn end_to_end_selection_and_distribution() {
    // the candidate set that survives filtering is b.txt alone; asking for
    // two chunks yields one, and the shortfall is reported
    let candidates = vec![rec("b.txt", 500)];
    let chunks = distribute_files(&candidates, Some(2));
    assert_eq!(chunks.len(), 1);
    assert_eq!(chunks[0].len(), 1);
    assert_eq!(chunks[0][0].path, "b.txt");
    let note = chunk_shortfall_note(chunks.len() as u64, 2).expect("one chunk instead of two");
    assert!(note.contains("Created 1 chunks instead of the requested 2"));
}

#[test]
fn size_formatting_uses_1024_based_units() {
    assert_eq!(format_size(0), "0 B");
    assert_eq!(format_size(512), "512 B");
    assert_eq!(format_size(1023), "1023 B");
    assert_eq!(format_size(1024), "1.00 KB");
    assert_eq!(format_size(1536), "1.50 KB");
    assert_eq!(format_size(1100), "1.07 KB");
    assert_eq!(format_size(1024 * 1024), "1.00 MB");
    assert_eq!(format_size(2621440), "2.50 MB");
    assert_eq!(format_size(1073741824), "1.00 GB");
    // just under a unit boundary the fraction carries into the whole part
    assert_eq!(format_size(1024 * 1024 - 1), "1024.00 KB");
}

#[test]
fn chunk_summary_line_reads_naturally() {
    assert_eq!(chunk_summary_line(1, 1536, 3), "Chunk 1 size: 1.50 KB (3 files)");
    assert_eq!(chunk_summary_line(2, 10, 1), "Chunk 2 size: 10 B (1 files)");
}

#[test]
fn chunk_totals_sum_record_sizes() {
    let c = vec![rec("a", 3), rec("b", 4)];
    assert_eq!(chunk_total(&c), 7);
    assert_eq!(chunk_total(&Vec::new()), 0);
}

#[test]
fn output_names_fill_the_placeholder() {
    let pat = "part_{}.txt".to_string();
    assert_eq!(
        output_filename(Some(&pat), "proj", "20240101_120000", Some(0), Some(2), "main"),
        "part_1.txt"
    );
    assert_eq!(
        output_filename(Some(&pat), "proj", "20240101_120000", None, None, "main"),
        "part_.txt"
    );
    assert_eq!(
        output_filename(None, "proj", "20240101_120000", Some(1), Some(2), "main"),
        "proj_20240101_120000_part_2.txt"
    );
    assert_eq!(
        output_filename(None, "proj", "20240101_120000", None, None, "main"),
        "proj_20240101_120000.txt"
    );
    assert_eq!(
        output_filename(None, "proj", "20240101_120000", None, None, "read"),
        "proj_20240101_120000_reads.txt"
    );
}

#[test]
fn brace_replacement_replaces_every_hole() {
    assert_eq!(replace_braces_str("a{}b{}c", "X"), "aXbXc");
    assert_eq!(replace_braces_str("{}", ""), "");
    assert_eq!(replace_braces_str("no holes", "X"), "no holes");
    assert_eq!(replace_braces_str("{ }", "X"), "{ }");
    assert_eq!(replace_braces_str("a{", "X"), "a{");
}

#[test]
fn decimal_rendering_and_parsing() {
    assert_eq!(u64_to_string(0), "0");
    assert_eq!(u64_to_string(7), "7");
    assert_eq!(u64_to_string(12030), "12030");
    assert_eq!(u64_to_string(u64::MAX), u64::MAX.to_string());
    assert_eq!(parse_usize("123"), Some(123));
    assert_eq!(parse_usize("+5"), Some(5));
    assert_eq!(parse_usize("0"), Some(0));
    assert_eq!(parse_usize(""), None);
    assert_eq!(parse_usize("+"), None);
    assert_eq!(parse_usize("12a"), None);
    assert_eq!(parse_usize("-3"), None);
    assert_eq!(parse_usize("99999999999999999999999"), None);
    assert_eq!(parse_usize(&usize::MAX.to_string()), Some(usize::MAX));
}

#[test]
fn lexicographic_order_and_trimming() {
    assert!(str_lex_lt("a", "b"));
    assert!(str_lex_lt("a", "ab"));
    assert!(!str_lex_lt("b", "a"));
    assert!(!str_lex_lt("a", "a"));
    assert!(str_lex_lt("a/b", "a.b") == ('/' < '.'));
    assert_eq!(trim_str("  a b\t"), "a b");
    assert_eq!(trim_str(""), "");
    assert_eq!(trim_str(" \t\n"), "");
    assert_eq!(trim_str("x"), "x");
}
