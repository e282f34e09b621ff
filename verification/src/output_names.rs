//! The names of the files a run writes: a caller-supplied pattern with its
//! `{}` placeholder filled by the 1-based chunk index, or a default name
//! built from the working directory's name, a timestamp, and what the file
//! holds. Reading the clock and the directory name is the caller's part;
//! the composition is verified here.
use vstd::prelude::*;
use vstd::string::*;
use crate::strutil::dec_str;
use crate::strutil::push_char;
use crate::strutil::push_decimal;
use crate::strutil::str_eq;
use crate::strutil::u64_to_string;

verus! {

/// Every `{}` in `s` replaced by `with`, left to right, matches never
/// overlapping, as `str::replace` does it.
pub open spec fn replace_braces(s: Seq<char>, with: Seq<char>) -> Seq<char>
    decreases s.len(),
{
    if s.len() < 2 {
        s
    } else if s[0] == '{' && s[1] == '}' {
        with + replace_braces(s.skip(2), with)
    } else {
        seq![s[0]] + replace_braces(s.skip(1), with)
    }
}

/// Replaces every `{}` in `s` by `with`.
pub fn replace_braces_str(s: &str, with: &str) -> (r: String)
    ensures
        r@ == replace_braces(s@, with@),
{
    let len = s.unicode_len();
    let mut out = String::new();
    let mut i: usize = 0;
    proof {
        assert(s@.skip(0) =~= s@);
        assert(out@ =~= Seq::<char>::empty());
    }
    while i < len
        invariant
            i <= len,
            len == s@.len(),
            replace_braces(s@, with@) == out@ + replace_braces(s@.skip(i as int), with@),
        decreases len - i,
    {
        proof {
            assert(s@.skip(i as int)[0] == s@[i as int]);
            if i + 1 < len {
                assert(s@.skip(i as int)[1] == s@[i + 1]);
            }
            assert(s@.skip(i as int).skip(1) =~= s@.skip(i + 1));
            if i + 2 <= len {
                assert(s@.skip(i as int).skip(2) =~= s@.skip(i + 2));
            }
        }
        let c = s.get_char(i);
        if i + 1 < len && c == '{' && s.get_char(i + 1) == '}' {
            out.append(with);
            proof {
                assert(replace_braces(s@, with@) =~= out@ + replace_braces(
                    s@.skip(i + 2),
                    with@,
                ));
            }
            i = i + 2;
        } else {
            push_char(&mut out, c);
            proof {
                if i + 1 >= len {
                    assert(s@.skip(i as int).len() == 1);
                    assert(replace_braces(s@.skip(i as int), with@) == s@.skip(i as int));
                    assert(s@.skip(i as int) =~= seq![s@[i as int]]);
                }
                assert(replace_braces(s@, with@) =~= out@ + replace_braces(
                    s@.skip(i + 1),
                    with@,
                ));
            }
            i = i + 1;
        }
    }
    proof {
        assert(s@.skip(len as int).len() == 0);
        assert(replace_braces(s@, with@) =~= out@);
    }
    out
}

/// The name of one output file. With a caller pattern, its `{}` holes take
/// the 1-based chunk index when the output is one chunk of several, and
/// nothing otherwise. Without one, a chunk is named from the directory,
/// the timestamp and its 1-based index; the main output from directory and
/// timestamp alone; and any other kind from those plus its own name.
pub open spec fn output_filename_spec(
    pattern: Option<Seq<char>>,
    dir: Seq<char>,
    time: Seq<char>,
    index: Option<u64>,
    total: Option<u64>,
    kind: Seq<char>,
) -> Seq<char> {
    match pattern {
        Some(p) => if index is Some && total is Some {
            replace_braces(p, dec_str((index->0 + 1) as nat))
        } else {
            replace_braces(p, Seq::empty())
        },
        None => if index is Some && total is Some {
            dir + "_"@ + time + "_part_"@ + dec_str((index->0 + 1) as nat) + ".txt"@
        } else if kind == "main"@ {
            dir + "_"@ + time + ".txt"@
        } else {
            dir + "_"@ + time + "_"@ + kind + "s.txt"@
        },
    }
}

/// Builds the name of one output file.
pub fn output_filename(
    pattern: Option<&String>,
    dir: &str,
    time: &str,
    index: Option<u64>,
    total: Option<u64>,
    kind: &str,
) -> (r: String)
    requires
        index is Some ==> index->0 < u64::MAX,
    ensures
        r@ == output_filename_spec(
            match pattern {
                Some(p) => Some(p@),
                None => None,
            },
            dir@,
            time@,
            index,
            total,
            kind@,
        ),
{
    if let Some(p) = pattern {
        if let (Some(idx), Some(_t)) = (index, total) {
            let n = u64_to_string(idx + 1);
            replace_braces_str(p.as_str(), n.as_str())
        } else {
            proof {
                reveal_strlit("");
                assert(""@ =~= Seq::<char>::empty());
            }
            replace_braces_str(p.as_str(), "")
        }
    } else if let (Some(idx), Some(_t)) = (index, total) {
        let mut out = String::new();
        out.append(dir);
        out.append("_");
        out.append(time);
        out.append("_part_");
        push_decimal(idx + 1, &mut out);
        out.append(".txt");
        proof {
            assert(out@ =~= dir@ + "_"@ + time@ + "_part_"@ + dec_str((idx + 1) as nat)
                + ".txt"@);
        }
        out
    } else if str_eq(kind, "main") {
        let mut out = String::new();
        out.append(dir);
        out.append("_");
        out.append(time);
        out.append(".txt");
        proof {
            assert(out@ =~= dir@ + "_"@ + time@ + ".txt"@);
        }
        out
    } else {
        let mut out = String::new();
        out.append(dir);
        out.append("_");
        out.append(time);
        out.append("_");
        out.append(kind);
        out.append("s.txt");
        proof {
            assert(out@ =~= dir@ + "_"@ + time@ + "_"@ + kind@ + "s.txt"@);
        }
        out
    }
}

} // verus!
