//! Caller configuration, read from an argument list: flags for recursion
//! and the two ignore sources, the chunk count, the output-name pattern,
//! the line ceiling, the remote source, and the patterns themselves. An
//! argument to a flag that does not parse leaves the flag unset but is
//! still consumed; a free argument starting with `-` is dropped.
use vstd::prelude::*;
use vstd::string::*;
use crate::strutil::parse_usize;
use crate::strutil::parse_usize_spec;
use crate::strutil::str_eq;
use crate::strutil::views_of;

verus! {

/// The parsed caller configuration.
pub struct CliArgs {
    pub recursive: bool,
    pub ignore_gitignore: bool,
    pub ignore_custom: bool,
    pub patterns: Vec<String>,
    pub github_url: Option<String>,
    pub show_version: bool,
    pub split_chunks: Option<usize>,
    pub output_pattern: Option<String>,
    pub create_index: bool,
    pub max_lines: Option<usize>,
}

/// The mathematical content of a [`CliArgs`].
pub struct CliArgsView {
    pub recursive: bool,
    pub ignore_gitignore: bool,
    pub ignore_custom: bool,
    pub patterns: Seq<Seq<char>>,
    pub github_url: Option<Seq<char>>,
    pub show_version: bool,
    pub split_chunks: Option<nat>,
    pub output_pattern: Option<Seq<char>>,
    pub create_index: bool,
    pub max_lines: Option<nat>,
}

/// The view of an optional owned string.
pub open spec fn opt_str_view(o: Option<String>) -> Option<Seq<char>> {
    match o {
        Some(s) => Some(s@),
        None => None,
    }
}

/// The view of an optional count.
pub open spec fn opt_usize_view(o: Option<usize>) -> Option<nat> {
    match o {
        Some(n) => Some(n as nat),
        None => None,
    }
}

impl View for CliArgs {
    type V = CliArgsView;

    open spec fn view(&self) -> CliArgsView {
        CliArgsView {
            recursive: self.recursive,
            ignore_gitignore: self.ignore_gitignore,
            ignore_custom: self.ignore_custom,
            patterns: views_of(self.patterns@),
            github_url: opt_str_view(self.github_url),
            show_version: self.show_version,
            split_chunks: opt_usize_view(self.split_chunks),
            output_pattern: opt_str_view(self.output_pattern),
            create_index: self.create_index,
            max_lines: opt_usize_view(self.max_lines),
        }
    }
}

/// Everything off and nothing collected.
pub open spec fn default_args_view() -> CliArgsView {
    CliArgsView {
        recursive: false,
        ignore_gitignore: false,
        ignore_custom: false,
        patterns: Seq::empty(),
        github_url: None,
        show_version: false,
        split_chunks: None,
        output_pattern: None,
        create_index: false,
        max_lines: None,
    }
}

/// Whether a free argument is discarded rather than taken as a pattern.
pub open spec fn dash_arg(a: Seq<char>) -> bool {
    a.len() > 0 && a[0] == '-'
}

/// One pass over the argument list from position `i`, folding each
/// argument into the configuration exactly as the option loop reads them.
pub open spec fn parse_from(args: Seq<Seq<char>>, i: int, acc: CliArgsView) -> CliArgsView
    decreases args.len() - i,
{
    if i < 0 || i >= args.len() {
        acc
    } else {
        let a = args[i];
        if a == "-r"@ {
            parse_from(args, i + 1, CliArgsView { recursive: true, ..acc })
        } else if a == "-i"@ {
            parse_from(args, i + 1, CliArgsView { ignore_gitignore: true, ..acc })
        } else if a == "--no-custom-ignore"@ {
            parse_from(args, i + 1, CliArgsView { ignore_custom: true, ..acc })
        } else if a == "-v"@ || a == "--version"@ {
            parse_from(args, i + 1, CliArgsView { show_version: true, ..acc })
        } else if a == "--index"@ {
            parse_from(args, i + 1, CliArgsView { create_index: true, ..acc })
        } else if a == "--max-lines"@ {
            if i + 1 < args.len() {
                parse_from(
                    args,
                    i + 2,
                    match parse_usize_spec(args[i + 1]) {
                        Some(n) => CliArgsView { max_lines: Some(n), ..acc },
                        None => acc,
                    },
                )
            } else {
                parse_from(args, i + 1, acc)
            }
        } else if a == "-n"@ || a == "--chunks"@ {
            if i + 1 < args.len() {
                parse_from(
                    args,
                    i + 2,
                    match parse_usize_spec(args[i + 1]) {
                        Some(n) => CliArgsView { split_chunks: Some(n), ..acc },
                        None => acc,
                    },
                )
            } else {
                parse_from(args, i + 1, acc)
            }
        } else if a == "-o"@ || a == "--output"@ {
            if i + 1 < args.len() {
                parse_from(args, i + 2, CliArgsView { output_pattern: Some(args[i + 1]), ..acc })
            } else {
                parse_from(args, i + 1, acc)
            }
        } else if a == "--url"@ {
            if i + 1 < args.len() {
                parse_from(args, i + 2, CliArgsView { github_url: Some(args[i + 1]), ..acc })
            } else {
                parse_from(args, i + 1, acc)
            }
        } else if !dash_arg(a) {
            parse_from(args, i + 1, CliArgsView { patterns: acc.patterns.push(a), ..acc })
        } else {
            parse_from(args, i + 1, acc)
        }
    }
}

/// The configuration read from a full argument list (the element at
/// position zero is the program name): the option pass, and then the
/// default pattern, matching everything, when a remote source was named
/// but no pattern given.
pub open spec fn parse_args_spec(args: Seq<Seq<char>>) -> CliArgsView {
    let r = parse_from(args, 1, default_args_view());
    if r.patterns.len() == 0 && r.github_url is Some {
        CliArgsView { patterns: seq!["*"@], ..r }
    } else {
        r
    }
}

impl CliArgs {
    /// Reads the configuration from the argument list handed in by the
    /// caller, program name first.
    pub fn parse(args: &Vec<String>) -> (r: CliArgs)
        ensures
            r@ == parse_args_spec(views_of(args@)),
    {
        let ghost av = views_of(args@);
        let mut recursive = false;
        let mut ignore_gitignore = false;
        let mut ignore_custom = false;
        let mut patterns: Vec<String> = Vec::new();
        let mut github_url: Option<String> = None;
        let mut show_version = false;
        let mut split_chunks: Option<usize> = None;
        let mut output_pattern: Option<String> = None;
        let mut create_index = false;
        let mut max_lines: Option<usize> = None;
        let mut i: usize = 1;
        proof {
            assert(views_of(patterns@) =~= Seq::<Seq<char>>::empty());
        }
        while i < args.len()
            invariant
                1 <= i,
                av == views_of(args@),
                av.len() == args@.len(),
                parse_from(av, 1, default_args_view()) == parse_from(
                    av,
                    i as int,
                    CliArgsView {
                        recursive,
                        ignore_gitignore,
                        ignore_custom,
                        patterns: views_of(patterns@),
                        github_url: opt_str_view(github_url),
                        show_version,
                        split_chunks: opt_usize_view(split_chunks),
                        output_pattern: opt_str_view(output_pattern),
                        create_index,
                        max_lines: opt_usize_view(max_lines),
                    },
                ),
            decreases args@.len() - i,
        {
            let ghost acc = CliArgsView {
                recursive,
                ignore_gitignore,
                ignore_custom,
                patterns: views_of(patterns@),
                github_url: opt_str_view(github_url),
                show_version,
                split_chunks: opt_usize_view(split_chunks),
                output_pattern: opt_str_view(output_pattern),
                create_index,
                max_lines: opt_usize_view(max_lines),
            };
            proof {
                assert(av[i as int] == args@[i as int]@);
            }
            let a = args[i].as_str();
            if str_eq(a, "-r") {
                recursive = true;
            } else if str_eq(a, "-i") {
                ignore_gitignore = true;
            } else if str_eq(a, "--no-custom-ignore") {
                ignore_custom = true;
            } else if str_eq(a, "-v") || str_eq(a, "--version") {
                show_version = true;
            } else if str_eq(a, "--index") {
                create_index = true;
            } else if str_eq(a, "--max-lines") {
                if i + 1 < args.len() {
                    proof {
                        assert(av[i + 1] == args@[i + 1]@);
                    }
                    if let Some(n) = parse_usize(args[i + 1].as_str()) {
                        max_lines = Some(n);
                    }
                    i = i + 1;
                }
            } else if str_eq(a, "-n") || str_eq(a, "--chunks") {
                if i + 1 < args.len() {
                    proof {
                        assert(av[i + 1] == args@[i + 1]@);
                    }
                    if let Some(n) = parse_usize(args[i + 1].as_str()) {
                        split_chunks = Some(n);
                    }
                    i = i + 1;
                }
            } else if str_eq(a, "-o") || str_eq(a, "--output") {
                if i + 1 < args.len() {
                    proof {
                        assert(av[i + 1] == args@[i + 1]@);
                    }
                    output_pattern = Some(args[i + 1].clone());
                    i = i + 1;
                }
            } else if str_eq(a, "--url") {
                if i + 1 < args.len() {
                    proof {
                        assert(av[i + 1] == args@[i + 1]@);
                    }
                    github_url = Some(args[i + 1].clone());
                    i = i + 1;
                }
            } else {
                let starts_dash = args[i].as_str().unicode_len() > 0 && args[i].as_str().get_char(0)
                    == '-';
                if !starts_dash {
                    let ghost oldp = patterns@;
                    patterns.push(args[i].clone());
                    proof {
                        assert(views_of(patterns@) =~= views_of(oldp).push(args@[i as int]@));
                    }
                }
            }
            i = i + 1;
        }
        let mut r = CliArgs {
            recursive,
            ignore_gitignore,
            ignore_custom,
            patterns,
            github_url,
            show_version,
            split_chunks,
            output_pattern,
            create_index,
            max_lines,
        };
        if r.patterns.len() == 0 && r.github_url.is_some() {
            let star = String::from_str("*");
            let ghost oldp = r.patterns@;
            r.patterns.push(star);
            proof {
                assert(views_of(r.patterns@) =~= views_of(oldp).push("*"@));
                assert(views_of(oldp) =~= Seq::<Seq<char>>::empty());
                assert(views_of(r.patterns@) =~= seq!["*"@]);
            }
        }
        r
    }

    /// Whether the run has anything to do: a version request, at least one
    /// pattern, or a remote source.
    pub fn is_valid(&self) -> (r: bool)
        ensures
            r == (self@.show_version || self@.patterns.len() > 0 || self@.github_url is Some),
    {
        self.show_version || self.patterns.len() > 0 || self.github_url.is_some()
    }
}

} // verus!
