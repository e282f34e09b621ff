//! Argument parsing, repository URLs, cache paths, and change-set logic.
use agg_files::cli::CliArgs;
use agg_files::distributor::FileRecord;
use agg_files::git_status_handler::GitChanges;
use agg_files::git_status_handler::StatusAction;
use agg_files::git_status_handler::classify_status_entry;
use agg_files::git_status_handler::filter_changed;
use agg_files::git_status_handler::parse_log_deleted_line;
use agg_files::git_status_handler::parse_status_line;
use agg_files::github_handler::RepoUrlError;
use agg_files::github_handler::parse_url;
use agg_files::github_handler::tarball_url;
use agg_files::temp_manager::TempManager;

fn parse(args: &[&str]) -> CliArgs {
    let argv: Vec<String> = args.iter().map(|a| a.to_string()).collect();
    CliArgs::parse(&argv)
}

#[test]
fn flags_are_read_as_the_option_loop_reads_them() {
    let a = parse(&["agg", "-r", "-i", "--no-custom-ignore", "--index", "-v", "*.rs"]);
    assert!(a.recursive);
    assert!(a.ignore_gitignore);
    assert!(a.ignore_custom);
    assert!(a.create_index);
    assert!(a.show_version);
    assert_eq!(a.patterns, vec!["*.rs".to_string()]);
    assert!(a.is_valid());
}

#[test]
fn valued_flags_take_the_next_argument() {
    let a = parse(&["agg", "--max-lines", "100", "-n", "5", "-o", "out_{}.txt", "--url",
        "https://github.com/u/r", "src"]);
    assert_eq!(a.max_lines, Some(100));
    assert_eq!(a.split_chunks, Some(5));
    assert_eq!(a.output_pattern, Some("out_{}.txt".to_string()));
    assert_eq!(a.github_url, Some("https://github.com/u/r".to_string()));
    assert_eq!(a.patterns, vec!["src".to_string()]);
}

#[test]
fn bad_count_still_consumes_its_argument() {
    let a = parse(&["agg", "--max-lines", "ten", "*.rs"]);
    assert_eq!(a.max_lines, None);
    // "ten" was consumed by --max-lines, so only *.rs remains a pattern
    assert_eq!(a.patterns, vec!["*.rs".to_string()]);
}

#[test]
fn unknown_dashed_arguments_are_dropped() {
    let a = parse(&["agg", "--mystery", "keep.me"]);
    assert_eq!(a.patterns, vec!["keep.me".to_string()]);
}

#[test]
fn url_without_patterns_defaults_to_match_everything() {
    let a = parse(&["agg", "--url", "https://github.com/u/r"]);
    assert_eq!(a.patterns, vec!["*".to_string()]);
    assert!(a.is_valid());
    let b = parse(&["agg"]);
    assert!(b.patterns.is_empty());
    assert!(!b.is_valid());
}

#[test]
fn repository_urls_are_taken_apart() {
    let info = parse_url("https://github.com/someone/project").unwrap();
    assert_eq!(info.owner, "someone");
    assert_eq!(info.repo, "project");
    assert_eq!(info.branch, "main");
    assert_eq!(info.path, None);

    let info = parse_url("https://github.com/someone/project/tree/dev").unwrap();
    assert_eq!(info.branch, "dev");
    assert_eq!(info.path, None);

    let info = parse_url("https://github.com/someone/project/tree/dev/src/inner").unwrap();
    assert_eq!(info.branch, "dev");
    assert_eq!(info.path, Some("src/inner".to_string()));
}

#[test]
fn unusable_urls_are_refused() {
    assert!(matches!(parse_url("not a url"), Err(RepoUrlError::Invalid)));
    assert!(matches!(parse_url("mailto:someone@example.com"), Err(RepoUrlError::Invalid)));
    assert!(matches!(parse_url("https://github.com/justowner"), Err(RepoUrlError::NotGitHub)));
    assert_eq!(RepoUrlError::Invalid.message(), "Invalid URL");
    assert_eq!(RepoUrlError::NotGitHub.message(), "Invalid GitHub URL");
}

#[test]
fn tarball_address_names_owner_repo_and_branch() {
    let info = parse_url("https://github.com/someone/project/tree/dev").unwrap();
    assert_eq!(
        tarball_url(&info),
        "https://api.github.com/repos/someone/project/tarball/dev"
    );
}

#[test]
fn cache_paths_follow_owner_repo_branch() {
    let tm = TempManager::new("/cache/agg".to_string());
    let info = parse_url("https://github.com/someone/project/tree/dev/src").unwrap();
    assert_eq!(tm.get_repo_path(&info), "/cache/agg/someone/project/dev/src");
    let plain = parse_url("https://github.com/someone/project").unwrap();
    assert_eq!(tm.get_repo_path(&plain), "/cache/agg/someone/project/main");
}

#[test]
fn status_lines_split_into_code_and_path() {
    let (code, path) = parse_status_line(" M src/main.rs").unwrap();
    assert_eq!(code, " M");
    assert_eq!(path, "src/main.rs");
    let (code, path) = parse_status_line("?? new.txt").unwrap();
    assert_eq!(code, "??");
    assert_eq!(path, "new.txt");
    assert!(parse_status_line("??").is_none());
    assert!(parse_status_line("").is_none());
}

#[test]
fn status_entries_classify_by_code_staging_and_existence() {
    assert!(matches!(classify_status_entry(" D", false, false), StatusAction::Deleted));
    assert!(matches!(classify_status_entry("D ", false, true), StatusAction::Deleted));
    assert!(matches!(classify_status_entry(" D", true, false), StatusAction::Skip));
    assert!(matches!(classify_status_entry("??", false, true), StatusAction::Untracked));
    assert!(matches!(classify_status_entry("??", false, false), StatusAction::Skip));
    assert!(matches!(classify_status_entry(" M", false, true), StatusAction::Modified));
    assert!(matches!(classify_status_entry(" M", true, true), StatusAction::Skip));
    assert!(matches!(classify_status_entry(" M", false, false), StatusAction::Skip));
}

#[test]
fn history_lines_name_deleted_files() {
    assert_eq!(parse_log_deleted_line("D\told/file.rs"), Some("old/file.rs".to_string()));
    assert_eq!(parse_log_deleted_line("D gone.txt "), Some("gone.txt".to_string()));
    assert_eq!(parse_log_deleted_line("M kept.txt"), None);
    assert_eq!(parse_log_deleted_line(""), None);
}

#[test]
fn change_sets_deduplicate_and_answer_membership() {
    let mut c = GitChanges::new();
    c.insert_modified("a.rs");
    c.insert_modified("a.rs");
    c.insert_deleted("b.rs");
    c.insert_untracked("c.rs");
    assert_eq!(c.modified_files, vec!["a.rs".to_string()]);
    assert!(c.contains("a.rs"));
    assert!(c.contains("b.rs"));
    assert!(c.contains("c.rs"));
    assert!(!c.contains("d.rs"));
}

#[test]
fn change_filtering_intersects_the_candidate_set() {
    let mut c = GitChanges::new();
    c.insert_modified("b.rs");
    c.insert_untracked("d.rs");
    let files = vec![
        FileRecord::new("a.rs".to_string(), 1),
        FileRecord::new("b.rs".to_string(), 2),
        FileRecord::new("d.rs".to_string(), 3),
    ];
    let kept = filter_changed(&files, &c);
    let names: Vec<&str> = kept.iter().map(|r| r.path.as_str()).collect();
    assert_eq!(names, vec!["b.rs", "d.rs"]);
    let empty = filter_changed(&files, &GitChanges::new());
    assert!(empty.is_empty());
}
