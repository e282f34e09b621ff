//! Glob-style pattern matching over path strings. A caller pattern may hold
//! `*` wildcards and `{a,b}` alternation; it is translated, character by
//! character, into an anchored suffix regular expression, and the `regex`
//! crate decides the matches. A pattern whose translation does not compile
//! matches nothing.
use vstd::prelude::*;
use vstd::string::*;
use crate::strutil::push_char;

verus! {

/// The regular-expression text one pattern character turns into: `.` is
/// escaped, `*` becomes "any sequence" (path separators included), braces
/// become a group, commas become alternation, and whitespace is stripped.
pub open spec fn glob_char_regex(c: char) -> Seq<char> {
    if c == '.' {
        seq!['\\', '.']
    } else if c == '*' {
        seq!['.', '*']
    } else if c == '{' {
        seq!['(']
    } else if c == '}' {
        seq![')']
    } else if c == ',' {
        seq!['|']
    } else if c == ' ' || c == '\t' || c == '\n' || c == '\r' {
        seq![]
    } else {
        seq![c]
    }
}

/// The translated body of a pattern.
pub open spec fn glob_body_regex(p: Seq<char>) -> Seq<char>
    decreases p.len(),
{
    if p.len() == 0 {
        Seq::empty()
    } else {
        glob_char_regex(p[0]) + glob_body_regex(p.drop_first())
    }
}

/// The full regular expression for a pattern: the translated body, allowed
/// any prefix and anchored at the end of the path, so that a pattern only
/// ever needs to match a suffix of the full path.
pub open spec fn glob_regex(p: Seq<char>) -> Seq<char> {
    seq!['.', '*'] + glob_body_regex(p) + seq!['$']
}

/// Whether the regular expression with source text `re` matches `text`; a
/// source that does not compile matches nothing. The result is a function
/// of the two strings alone.
pub uninterp spec fn regex_match_of(re: Seq<char>, text: Seq<char>) -> bool;

/// Whether the regular-expression source text compiles — a function of the
/// text alone.
pub uninterp spec fn regex_compiles(re: Seq<char>) -> bool;

/// Relies on `regex::Regex::new` and `regex::Regex::is_match`: whether the
/// compiled expression matches anywhere in `text`; a source that `new`
/// rejects matches nothing, so that one bad pattern cannot abort a run.
#[verifier::external_body]
fn regex_is_match(re: &str, text: &str) -> (b: bool)
    ensures
        b == regex_match_of(re@, text@),
        !regex_compiles(re@) ==> !b,
{
    match regex::Regex::new(re) {
        Ok(r) => r.is_match(text),
        Err(_) => false,
    }
}

/// Translates glob patterns into anchored suffix regular expressions.
pub struct PatternMatcher;

/// A compiled pattern: the translated regular-expression source it matches
/// paths against.
pub struct Matcher {
    pub regex: String,
}

impl PatternMatcher {
    /// Makes a translator.
    pub fn new() -> (r: PatternMatcher) {
        PatternMatcher
    }

    /// The regular-expression text for one glob pattern.
    pub fn glob_to_regex(&self, pattern: &str) -> (r: String)
        ensures
            r@ == glob_regex(pattern@),
    {
        let mut out = String::new();
        push_char(&mut out, '.');
        push_char(&mut out, '*');
        let len = pattern.unicode_len();
        let mut i: usize = 0;
        proof {
            assert(glob_body_regex(pattern@.skip(0)) == glob_body_regex(pattern@)) by {
                assert(pattern@.skip(0) =~= pattern@);
            }
            assert(out@ =~= seq!['.', '*']);
        }
        while i < len
            invariant
                i <= len,
                len == pattern@.len(),
                out@.len() >= 2,
                glob_body_regex(pattern@) == out@.skip(2) + glob_body_regex(
                    pattern@.skip(i as int),
                ),
                out@.take(2) == seq!['.', '*'],
            decreases len - i,
        {
            let c = pattern.get_char(i);
            proof {
                assert(pattern@.skip(i as int)[0] == pattern@[i as int]);
                assert(pattern@.skip(i as int).drop_first() =~= pattern@.skip(i + 1));
                assert(glob_body_regex(pattern@.skip(i as int)) == glob_char_regex(
                    pattern@[i as int],
                ) + glob_body_regex(pattern@.skip(i + 1)));
            }
            if c == '.' {
                push_char(&mut out, '\\');
                push_char(&mut out, '.');
            } else if c == '*' {
                push_char(&mut out, '.');
                push_char(&mut out, '*');
            } else if c == '{' {
                push_char(&mut out, '(');
            } else if c == '}' {
                push_char(&mut out, ')');
            } else if c == ',' {
                push_char(&mut out, '|');
            } else if c == ' ' || c == '\t' || c == '\n' || c == '\r' {
            } else {
                push_char(&mut out, c);
            }
            proof {
                assert(glob_body_regex(pattern@) =~= out@.skip(2) + glob_body_regex(
                    pattern@.skip(i + 1),
                ));
                assert(out@.take(2) =~= seq!['.', '*']);
            }
            i = i + 1;
        }
        push_char(&mut out, '$');
        proof {
            assert(pattern@.skip(len as int).len() == 0);
            assert(out@ =~= glob_regex(pattern@));
        }
        out
    }

    /// Compiles one pattern into a matcher.
    pub fn compile(&self, pattern: &str) -> (m: Matcher)
        ensures
            m.regex@ == glob_regex(pattern@),
    {
        Matcher { regex: self.glob_to_regex(pattern) }
    }
}

impl Matcher {
    /// Whether the pattern matches the path, as the translated regular
    /// expression decides it; a pattern whose translation does not compile
    /// matches no path at all.
    pub fn matches(&self, path: &str) -> (b: bool)
        ensures
            b == regex_match_of(self.regex@, path@),
            !regex_compiles(self.regex@) ==> !b,
    {
        regex_is_match(self.regex.as_str(), path)
    }
}

} // verus!
