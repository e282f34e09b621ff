//! Pattern matching, classification, ignore filtering, and collection.
use agg_files::classifier::Classification;
use agg_files::classifier::FileData;
use agg_files::classifier::classify;
use agg_files::classifier::count_lines;
use agg_files::classifier::is_binary_file;
use agg_files::classifier::should_include_file;
use agg_files::cli::CliArgs;
use agg_files::collector::FileCollector;
use agg_files::ignore_files_helper::IgnoreFilesHelper;
use agg_files::pattern_matcher::PatternMatcher;
use agg_files::strutil::path_has_component;

fn text_data(size: u64, text: &str) -> FileData {
    let bytes = text.as_bytes();
    let take = if bytes.len() < 1024 { bytes.len() } else { 1024 };
    FileData {
        size,
        head: bytes[..take].to_vec(),
        text: Some(text.to_string()),
    }
}

fn args_with(extra: &[&str]) -> CliArgs {
    let mut argv = vec!["agg".to_string()];
    for a in extra {
        argv.push(a.to_string());
    }
    CliArgs::parse(&argv)
}

#[test]
fn glob_translation_matches_expected_names() {
    let pm = PatternMatcher::new();
    let m = pm.compile("*.{rs,toml}");
    assert!(m.matches("lib.rs"));
    assert!(m.matches("Cargo.toml"));
    assert!(!m.matches("readme.md"));
    let m2 = pm.compile("src/*");
    assert!(m2.matches("src/main.rs"));
    assert!(m2.matches("src/cli.rs"));
    assert!(!m2.matches("tests/main.rs"));
}

#[test]
fn glob_translation_exact_regex_text() {
    let pm = PatternMatcher::new();
    assert_eq!(pm.glob_to_regex("*.{rs,toml}"), ".*.*\\.(rs|toml)$");
    assert_eq!(pm.glob_to_regex("src/*"), ".*src/.*$");
    assert_eq!(pm.glob_to_regex("a b"), ".*ab$");
    assert_eq!(pm.glob_to_regex("a\tb\n"), ".*ab$");
}

#[test]
fn bad_pattern_matches_nothing() {
    let pm = PatternMatcher::new();
    // an unclosed brace translates to an unclosed group, which does not compile
    let m = pm.compile("foo{bar");
    assert!(!m.matches("foobar"));
    assert!(!m.matches("foo{bar"));
}

#[test]
fn matcher_matches_suffix_only() {
    let pm = PatternMatcher::new();
    let m = pm.compile("*.txt");
    assert!(m.matches("/some/deep/dir/notes.txt"));
    assert!(!m.matches("notes.txt.bak"));
}

#[test]
fn binary_sniff_rejects_null_byte_whatever_the_line_count() {
    let data = FileData {
        size: 10,
        head: vec![b'a', 0u8, b'b'],
        text: Some("one line".to_string()),
    };
    assert!(matches!(classify(&data, Some(1000)), Classification::RejectedBinary));
    assert!(matches!(classify(&data, None), Classification::RejectedBinary));
}

#[test]
fn oversize_file_rejected_without_content() {
    let data = FileData { size: 1_000_001, head: Vec::new(), text: None };
    assert!(matches!(classify(&data, Some(10)), Classification::RejectedBinary));
    assert!(is_binary_file(1_000_001, &Vec::new()));
    assert!(!is_binary_file(1_000_000, &Vec::new()));
}

#[test]
fn null_byte_beyond_sniff_prefix_is_not_seen() {
    let mut head = vec![b'x'; 1025];
    head[1024] = 0u8;
    assert!(!is_binary_file(10, &head));
    head[1023] = 0u8;
    assert!(is_binary_file(10, &head));
}

#[test]
fn line_ceiling_boundary() {
    let three = "a\nb\nc";
    let data = text_data(5, three);
    assert!(matches!(classify(&data, Some(3)), Classification::Admitted { lines: Some(3) }));
    match classify(&data, Some(2)) {
        Classification::RejectedTooLong { lines, limit } => {
            assert_eq!(lines, 3);
            assert_eq!(limit, 2);
        }
        _ => panic!("expected a line-ceiling rejection"),
    }
}

#[test]
fn skip_notice_names_file_count_and_maximum() {
    assert_eq!(
        agg_files::classifier::line_skip_notice("big.txt", 120, 100),
        "Skipping big.txt (has 120 lines, max is 100)"
    );
}

#[test]
fn line_counting_follows_str_lines() {
    assert_eq!(count_lines(""), 0);
    assert_eq!(count_lines("\n"), 1);
    assert_eq!(count_lines("a"), 1);
    assert_eq!(count_lines("a\n"), 1);
    assert_eq!(count_lines("a\nb"), 2);
    assert_eq!(count_lines("a\r\nb\r\n"), 2);
    assert_eq!("a\r\nb\r\n".lines().count() as u64, count_lines("a\r\nb\r\n"));
}

#[test]
fn undecodable_text_counts_as_binary_when_counting_lines() {
    let data = FileData { size: 10, head: vec![b'a'], text: None };
    assert!(matches!(classify(&data, Some(5)), Classification::RejectedBinary));
    // with no ceiling configured, line counting is skipped entirely
    assert!(matches!(classify(&data, None), Classification::Admitted { lines: None }));
}

#[test]
fn no_ceiling_admits_text_files() {
    let data = text_data(100, "x\ny\nz");
    assert!(should_include_file(&data, None));
    assert!(should_include_file(&data, Some(3)));
    assert!(!should_include_file(&data, Some(2)));
}

#[test]
fn vcs_metadata_directory_is_always_pruned() {
    let args = args_with(&["*.rs"]);
    let c = FileCollector::new(&args, None, None);
    assert!(!c.should_visit("repo/.git", true));
    assert!(!c.should_visit("repo/.git/config", false));
    assert!(c.should_visit("repo/.github", true));
    assert!(c.should_visit("repo/src", true));
}

#[test]
fn path_component_test_is_exact() {
    assert!(path_has_component("a/.git/b", ".git"));
    assert!(path_has_component(".git", ".git"));
    assert!(path_has_component("x/.git", ".git"));
    assert!(!path_has_component("a/.gitx/b", ".git"));
    assert!(!path_has_component("a/x.git/b", ".git"));
    assert!(!path_has_component("agit", ".git"));
}

#[test]
fn custom_rules_mark_paths_ignored() {
    let mut builder = ignore::gitignore::GitignoreBuilder::new("");
    builder.add_line(None, "*.log").unwrap();
    builder.add_line(None, "target/").unwrap();
    let gi = builder.build().unwrap();
    let helper = IgnoreFilesHelper::new(Some(gi), None);
    assert!(helper.is_ignored("debug.log", false));
    assert!(helper.is_ignored("target", true));
    assert!(!helper.is_ignored("src/main.rs", false));
    // the metadata directory is ignored with no rule saying so
    assert!(helper.is_ignored("a/.git/b", false));
}

#[test]
fn collector_carries_the_rule_sources_it_was_given() {
    let mut builder = ignore::gitignore::GitignoreBuilder::new("");
    builder.add_line(None, "*.tmp").unwrap();
    let custom = builder.build().unwrap();
    let args = args_with(&["*"]);
    let c = FileCollector::new(&args, Some(custom), None);
    // a walk consults the loaded rules, so the constructor must keep them
    assert!(!c.should_visit("scratch.tmp", false));
    assert!(c.should_visit("kept.rs", false));
}

#[test]
fn collector_builds_sorted_unique_candidates() {
    let args = args_with(&["*"]);
    let mut c = FileCollector::new(&args, None, None);
    let d = text_data(10, "x");
    assert!(c.offer_walked_file("b.txt", &d, None));
    assert!(c.offer_walked_file("a.txt", &d, None));
    // the same path offered again under a later pattern
    assert!(c.offer_walked_file("b.txt", &d, None));
    c.add_literal_file("c.txt", 10);
    c.finish();
    let paths: Vec<&str> = c.files.iter().map(|r| r.path.as_str()).collect();
    assert_eq!(paths, vec!["a.txt", "b.txt", "c.txt"]);
}

#[test]
fn candidates_sort_by_scalar_value_not_by_path_components() {
    let args = args_with(&["*"]);
    let mut c = FileCollector::new(&args, None, None);
    let d = text_data(1, "x");
    assert!(c.offer_walked_file("a/b", &d, None));
    assert!(c.offer_walked_file("a.b", &d, None));
    assert!(c.offer_walked_file("a", &d, None));
    c.finish();
    let paths: Vec<&str> = c.files.iter().map(|r| r.path.as_str()).collect();
    // '.' sorts below '/', and a prefix sorts below its extensions
    assert_eq!(paths, vec!["a", "a.b", "a/b"]);
}

#[test]
fn acceptance_wins_over_earlier_rejection() {
    let args = args_with(&["--max-lines", "1", "*"]);
    let mut c = FileCollector::new(&args, None, None);
    let long = text_data(10, "1\n2\n3");
    // rejected under the first pattern's walk
    assert!(!c.offer_walked_file("x.txt", &long, None));
    assert_eq!(c.ignored_files.len(), 1);
    // a later literal pattern names the same path outright
    c.add_literal_file("x.txt", 10);
    c.finish();
    let paths: Vec<&str> = c.files.iter().map(|r| r.path.as_str()).collect();
    assert_eq!(paths, vec!["x.txt"]);
    assert!(c.ignored_files.is_empty());
}

#[test]
fn accepted_and_rejected_partition_the_offered_files() {
    let args = args_with(&["--max-lines", "100", "*"]);
    let mut c = FileCollector::new(&args, None, None);
    let mut long = String::new();
    for _ in 0..500 {
        long.push_str("line\n");
    }
    let a = text_data(2000, &long);
    let b = text_data(500, "fifty\n");
    let bin = FileData { size: 20, head: vec![1, 0, 2], text: None };
    assert!(!c.offer_walked_file("a.txt", &a, None));
    assert!(c.offer_walked_file("b.txt", &b, None));
    assert!(!c.offer_walked_file("c.bin", &bin, None));
    c.finish();
    let mut accepted: Vec<String> = c.files.iter().map(|r| r.path.clone()).collect();
    let mut rejected: Vec<String> = c.ignored_files.clone();
    accepted.sort();
    rejected.sort();
    assert_eq!(accepted, vec!["b.txt".to_string()]);
    assert_eq!(rejected, vec!["a.txt".to_string(), "c.bin".to_string()]);
    for p in &accepted {
        assert!(!rejected.contains(p));
    }
    let mut all = accepted.clone();
    all.extend(rejected.clone());
    all.sort();
    assert_eq!(all, vec!["a.txt".to_string(), "b.txt".to_string(), "c.bin".to_string()]);
}

#[test]
fn glob_walk_records_non_matching_files_as_rejected() {
    let args = args_with(&["*.txt"]);
    let mut c = FileCollector::new(&args, None, None);
    let pm = PatternMatcher::new();
    let m = pm.compile("*.txt");
    let d = text_data(10, "x");
    assert!(c.offer_walked_file("keep.txt", &d, Some(&m)));
    assert!(!c.offer_walked_file("drop.rs", &d, Some(&m)));
    c.finish();
    assert_eq!(c.files.len(), 1);
    assert_eq!(c.files[0].path, "keep.txt");
    assert_eq!(c.ignored_files, vec!["drop.rs".to_string()]);
    assert_eq!(c.processed_files, vec!["keep.txt".to_string()]);
}
