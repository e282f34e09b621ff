//! Per-file admission decision: binary-content sniff, size ceiling, and an
//! optional line-count ceiling, decided over data read once at discovery.
use vstd::prelude::*;
use vstd::string::*;
use crate::BINARY_SIZE_CEILING;
use crate::BINARY_SNIFF_PREFIX;

verus! {

/// What one read of a file observed: its byte size from metadata, its first
/// bytes (up to [`BINARY_SNIFF_PREFIX`]; empty when the size ceiling already
/// decided the matter, or the file could not be read), and its content
/// decoded as UTF-8 (`None` when the bytes do not decode or were not read).
pub struct FileData {
    pub size: u64,
    pub head: Vec<u8>,
    pub text: Option<String>,
}

/// The admission decision for one file.
pub enum Classification {
    /// The file is admitted; the line count is reported when a ceiling was
    /// configured (line counting is skipped entirely otherwise).
    Admitted { lines: Option<u64> },
    /// Over the size ceiling, a null byte in the sniffed prefix, or content
    /// that does not decode as text.
    RejectedBinary,
    /// More lines than the configured ceiling.
    RejectedTooLong { lines: u64, limit: u64 },
}

/// The view of optionally decoded text.
pub open spec fn text_view(t: Option<String>) -> Option<Seq<char>> {
    match t {
        Some(s) => Some(s@),
        None => None,
    }
}

/// How many of the given characters are newlines.
pub open spec fn newline_count(s: Seq<char>) -> nat
    decreases s.len(),
{
    if s.len() == 0 {
        0
    } else {
        newline_count(s.drop_last()) + if s.last() == '\n' { 1nat } else { 0nat }
    }
}

/// The number of lines of a text, as `str::lines` yields them: every
/// newline ends a line, and a non-empty trailing fragment counts as one
/// more line.
pub open spec fn line_count_of(s: Seq<char>) -> nat {
    if s.len() == 0 {
        0
    } else if s.last() == '\n' {
        newline_count(s)
    } else {
        newline_count(s) + 1
    }
}

/// A text never has more newlines than characters.
pub proof fn lemma_newline_count_le_len(s: Seq<char>)
    ensures
        newline_count(s) <= s.len(),
    decreases s.len(),
{
    if s.len() > 0 {
        lemma_newline_count_le_len(s.drop_last());
    }
}

/// Whether the observed size and prefix classify the file as binary: over
/// the size ceiling, or a null byte among the sniffed bytes.
pub open spec fn is_binary_spec(size: u64, head: Seq<u8>) -> bool {
    ||| size > BINARY_SIZE_CEILING
    ||| head.take(if head.len() < BINARY_SNIFF_PREFIX {
        head.len() as int
    } else {
        BINARY_SNIFF_PREFIX as int
    }).contains(0u8)
}

/// The admission decision: the binary check always precedes the line-count
/// check, a file that did not decode as text counts as binary, and the
/// line-count check runs only when a ceiling is configured.
pub open spec fn classify_spec(
    size: u64,
    head: Seq<u8>,
    text: Option<Seq<char>>,
    max_lines: Option<u64>,
) -> Classification {
    if is_binary_spec(size, head) {
        Classification::RejectedBinary
    } else {
        match max_lines {
            None => Classification::Admitted { lines: None },
            Some(limit) => match text {
                None => Classification::RejectedBinary,
                Some(t) => if line_count_of(t) > limit {
                    Classification::RejectedTooLong { lines: line_count_of(t) as u64, limit }
                } else {
                    Classification::Admitted { lines: Some(line_count_of(t) as u64) }
                },
            },
        }
    }
}

/// Decides whether the observed size and leading bytes mark the file binary.
pub fn is_binary_file(size: u64, head: &Vec<u8>) -> (r: bool)
    ensures
        r == is_binary_spec(size, head@),
{
    if size > BINARY_SIZE_CEILING {
        return true;
    }
    let n = if head.len() < BINARY_SNIFF_PREFIX {
        head.len()
    } else {
        BINARY_SNIFF_PREFIX
    };
    let ghost sniffed: Seq<u8> = head@.take(n as int);
    let mut i: usize = 0;
    while i < n
        invariant
            i <= n,
            n <= head@.len(),
            n as int == (if head@.len() < BINARY_SNIFF_PREFIX { head@.len() as int } else { BINARY_SNIFF_PREFIX as int }),
            sniffed == head@.take(n as int),
            forall|j: int| 0 <= j < i ==> sniffed[j] != 0u8,
        decreases n - i,
    {
        if head[i] == 0u8 {
            assert(sniffed[i as int] == 0u8);
            assert(sniffed.contains(0u8));
            return true;
        }
        i = i + 1;
    }
    proof {
        if sniffed.contains(0u8) {
            let w = choose|j: int| 0 <= j < sniffed.len() && sniffed[j] == 0u8;
            assert(sniffed[w] != 0u8);
        }
    }
    false
}

/// Counts the lines of a decoded text, as `str::lines` would.
pub fn count_lines(text: &str) -> (n: u64)
    ensures
        n as nat == line_count_of(text@),
{
    let len = text.unicode_len();
    if len == 0 {
        return 0;
    }
    let mut newlines: u64 = 0;
    let mut i: usize = 0;
    proof {
        assert(text@.take(0) =~= Seq::<char>::empty());
    }
    while i < len
        invariant
            i <= len,
            len == text@.len(),
            newlines as nat == newline_count(text@.take(i as int)),
            newlines <= i,
        decreases len - i,
    {
        let c = text.get_char(i);
        proof {
            assert(text@.take(i + 1).drop_last() =~= text@.take(i as int));
            assert(text@.take(i + 1).last() == text@[i as int]);
        }
        if c == '\n' {
            newlines = newlines + 1;
        }
        i = i + 1;
    }
    proof {
        assert(text@.take(len as int) =~= text@);
    }
    let last = text.get_char(len - 1);
    if last == '\n' {
        newlines
    } else {
        proof {
            lemma_newline_count_le_len(text@.drop_last());
            assert(newline_count(text@) <= text@.len() - 1);
        }
        newlines + 1
    }
}

/// Classifies one file against the size, binary and line-count rules.
pub fn classify(data: &FileData, max_lines: Option<u64>) -> (c: Classification)
    ensures
        c == classify_spec(data.size, data.head@, text_view(data.text), max_lines),
{
    if is_binary_file(data.size, &data.head) {
        return Classification::RejectedBinary;
    }
    match max_lines {
        None => Classification::Admitted { lines: None },
        Some(limit) => match &data.text {
            None => Classification::RejectedBinary,
            Some(t) => {
                let n = count_lines(t.as_str());
                if n > limit {
                    Classification::RejectedTooLong { lines: n, limit }
                } else {
                    Classification::Admitted { lines: Some(n) }
                }
            },
        },
    }
}

/// A null byte among the sniffed bytes rejects the file as binary,
/// whatever its text or reported line count and whatever ceiling is
/// configured.
pub proof fn lemma_null_byte_rejects(
    size: u64,
    head: Seq<u8>,
    text: Option<Seq<char>>,
    max_lines: Option<u64>,
)
    requires
        head.take(
            if head.len() < BINARY_SNIFF_PREFIX {
                head.len() as int
            } else {
                BINARY_SNIFF_PREFIX as int
            },
        ).contains(0u8),
    ensures
        classify_spec(size, head, text, max_lines) is RejectedBinary,
{
}

/// A file over the size ceiling is rejected as binary, and the decision
/// owes nothing to its content: every head and text gives the same answer.
pub proof fn lemma_oversize_rejected_unread(
    size: u64,
    h1: Seq<u8>,
    t1: Option<Seq<char>>,
    h2: Seq<u8>,
    t2: Option<Seq<char>>,
    max_lines: Option<u64>,
)
    requires
        size > BINARY_SIZE_CEILING,
    ensures
        classify_spec(size, h1, t1, max_lines) is RejectedBinary,
        classify_spec(size, h1, t1, max_lines) == classify_spec(size, h2, t2, max_lines),
{
}

/// The line-ceiling boundary: a text file of exactly `n` lines is admitted
/// under a ceiling of `n` and rejected under a ceiling of `n - 1`.
pub proof fn lemma_line_ceiling_boundary(size: u64, head: Seq<u8>, t: Seq<char>, n: u64)
    requires
        !is_binary_spec(size, head),
        line_count_of(t) == n,
        n >= 1,
    ensures
        classify_spec(size, head, Some(t), Some(n)) is Admitted,
        classify_spec(size, head, Some(t), Some((n - 1) as u64)) is RejectedTooLong,
{
}

/// The informational notice for a file skipped over the line ceiling.
pub open spec fn skip_notice_spec(path: Seq<char>, lines: u64, limit: u64) -> Seq<char> {
    "Skipping "@ + path + " (has "@ + crate::strutil::dec_str(lines as nat) + " lines, max is "@
        + crate::strutil::dec_str(limit as nat) + ")"@
}

/// Renders the notice for a file rejected over the line ceiling, naming
/// the file, its line count, and the configured maximum.
pub fn line_skip_notice(path: &str, lines: u64, limit: u64) -> (r: String)
    ensures
        r@ == skip_notice_spec(path@, lines, limit),
{
    let mut out = String::from_str("Skipping ");
    out.append(path);
    out.append(" (has ");
    crate::strutil::push_decimal(lines, &mut out);
    out.append(" lines, max is ");
    crate::strutil::push_decimal(limit, &mut out);
    out.append(")");
    proof {
        assert(out@ =~= skip_notice_spec(path@, lines, limit));
    }
    out
}

/// Whether the classification admits the file.
pub open spec fn admitted_spec(
    size: u64,
    head: Seq<u8>,
    text: Option<Seq<char>>,
    max_lines: Option<u64>,
) -> bool {
    classify_spec(size, head, text, max_lines) is Admitted
}

/// Decides whether one file passes classification, as the collector asks it.
pub fn should_include_file(data: &FileData, max_lines: Option<u64>) -> (r: bool)
    ensures
        r == admitted_spec(data.size, data.head@, text_view(data.text), max_lines),
{
    let c = classify(data, max_lines);
    match c {
        Classification::Admitted { .. } => true,
        _ => false,
    }
}

} // verus!
