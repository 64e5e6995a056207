//! Command-line preparation for descriptor `Exec` fields.
//!
//! An `Exec` value carries placeholder field codes (`%f`, `%u`, ...) that
//! stand for files or URIs; launching without arguments removes them, with
//! `%%` unescaping to a literal percent sign. The cleaned text is then
//! split into words as a POSIX shell would, which an outside crate does.

use vstd::prelude::*;

use crate::strutil::str_chars;

verus! {

/// A placeholder letter a descriptor may carry after `%`.
pub open spec fn is_field_code(c: char) -> bool {
    c == 'f' || c == 'F' || c == 'u' || c == 'U' || c == 'd' || c == 'D' || c == 'n' || c == 'N'
        || c == 'i' || c == 'c' || c == 'k' || c == 'v' || c == 'm'
}

/// The text with every field code removed and `%%` unescaped: `%` followed
/// by a placeholder letter disappears, `%%` becomes `%`, anything else is
/// kept as it stands.
pub open spec fn strip_codes(s: Seq<char>) -> Seq<char>
    decreases s.len(),
{
    if s.len() == 0 {
        s
    } else if s[0] == '%' && s.len() >= 2 && s[1] == '%' {
        seq!['%'] + strip_codes(s.skip(2))
    } else if s[0] == '%' && s.len() >= 2 && is_field_code(s[1]) {
        strip_codes(s.skip(2))
    } else {
        seq![s[0]] + strip_codes(s.skip(1))
    }
}

/// Removes desktop-entry field codes from an `Exec` value.
pub fn remove_field_codes(command: &str) -> (r: String)
    ensures
        r@ == strip_codes(command@),
{
    let s = str_chars(command);
    let n = s.len();
    let mut out: Vec<char> = Vec::new();
    let mut i: usize = 0;
    proof {
        assert(s@.skip(0) =~= s@);
        assert(strip_codes(s@) =~= out@ + strip_codes(s@.skip(0)));
    }
    while i < n
        invariant
            i <= n,
            n == s@.len(),
            s@ == command@,
            strip_codes(command@) == out@ + strip_codes(s@.skip(i as int)),
        decreases n - i,
    {
        let ghost rest = s@.skip(i as int);
        proof {
            assert(rest[0] == s@[i as int]);
            if i + 1 < n {
                assert(rest[1] == s@[i + 1]);
            }
            assert(rest.skip(1) =~= s@.skip(i + 1));
            if i + 2 <= n {
                assert(rest.skip(2) =~= s@.skip(i + 2));
            }
        }
        let c = s[i];
        let ghost old_out = out@;
        if c == '%' && i + 1 < n {
            let nx = s[i + 1];
            if nx == '%' {
                out.push('%');
                i = i + 2;
                proof {
                    assert(out@ =~= old_out.push('%'));
                    assert(old_out + (seq!['%'] + strip_codes(s@.skip(i as int))) =~= out@
                        + strip_codes(s@.skip(i as int)));
                }
            } else if nx == 'f' || nx == 'F' || nx == 'u' || nx == 'U' || nx == 'd' || nx == 'D'
                || nx == 'n' || nx == 'N' || nx == 'i' || nx == 'c' || nx == 'k' || nx == 'v'
                || nx == 'm' {
                i = i + 2;
            } else {
                out.push(c);
                i = i + 1;
                proof {
                    assert(out@ =~= old_out.push(c));
                    assert(old_out + (seq![c] + strip_codes(s@.skip(i as int))) =~= out@
                        + strip_codes(s@.skip(i as int)));
                }
            }
        } else {
            out.push(c);
            i = i + 1;
            proof {
                assert(out@ =~= old_out.push(c));
                assert(old_out + (seq![c] + strip_codes(s@.skip(i as int))) =~= out@
                    + strip_codes(s@.skip(i as int)));
            }
        }
    }
    proof {
        assert(s@.skip(n as int) =~= Seq::<char>::empty());
        assert(strip_codes(command@) =~= out@);
    }
    crate::strutil::chars_string(&out)
}

/// How a POSIX shell splits the cleaned command into words: the result
/// depends on the text alone, and is nothing at all on an unmatched quote.
pub uninterp spec fn shell_split(s: Seq<char>) -> Option<Seq<Seq<char>>>;

/// Relies on `shell_words::split`: splits a command line into words under
/// POSIX shell quoting rules, failing exactly on an unmatched quote; the
/// result is a function of the text alone.
#[verifier::external_body]
fn shell_split_words(s: &str) -> (r: Option<Vec<String>>)
    ensures
        r.deep_view() == shell_split(s@),
{
    match shell_words::split(s) {
        Ok(words) => Some(words),
        Err(_) => None,
    }
}

/// An `Exec` value that cannot be launched: its quoting is unbalanced, or
/// nothing is left once field codes are removed.
#[derive(Debug, Clone)]
pub enum ExecError {
    InvalidSyntax(String),
    EmptyCommand,
}

/// A command line ready to launch: the program and its arguments.
#[derive(Debug, Clone)]
pub struct ParsedExec {
    /// The word naming the program.
    pub program: String,
    /// The remaining words.
    pub args: Vec<String>,
}

/// Strips field codes from an `Exec` value and splits what remains into a
/// program and its arguments under shell quoting rules.
pub fn parse_exec(command: &str) -> (r: Result<ParsedExec, ExecError>)
    ensures
        match r {
            Ok(p) => match shell_split(strip_codes(command@)) {
                Some(words) => words.len() > 0 && p.program@ == words[0] && p.args.deep_view()
                    == words.drop_first(),
                None => false,
            },
            Err(e) => match e {
                ExecError::InvalidSyntax(m) => shell_split(strip_codes(command@)) is None && m@
                    == command@,
                ExecError::EmptyCommand => shell_split(strip_codes(command@)) == Some(
                    Seq::<Seq<char>>::empty(),
                ),
            },
        },
{
    let cleaned = remove_field_codes(command);
    match shell_split_words(cleaned.as_str()) {
        None => Err(ExecError::InvalidSyntax(command.to_owned())),
        Some(parts) => {
            if parts.len() == 0 {
                proof {
                    assert(parts.deep_view() =~= Seq::<Seq<char>>::empty());
                }
                Err(ExecError::EmptyCommand)
            } else {
                let program = parts[0].clone();
                let mut args: Vec<String> = Vec::new();
                let mut i: usize = 1;
                while i < parts.len()
                    invariant
                        1 <= i <= parts@.len(),
                        parts.deep_view().len() == parts@.len(),
                        args@.len() == i - 1,
                        forall|j: int|
                            0 <= j < i - 1 ==> (#[trigger] args@[j])@ == parts.deep_view()[j + 1],
                    decreases parts@.len() - i,
                {
                    proof {
                        assert(parts.deep_view()[i as int] == parts@[i as int]@);
                    }
                    args.push(parts[i].clone());
                    i = i + 1;
                }
                proof {
                    assert(parts.deep_view()[0] == parts@[0]@);
                    assert forall|j: int| 0 <= j < args.deep_view().len() implies args.deep_view()[j]
                        == parts.deep_view().drop_first()[j] by {
                        assert(args.deep_view()[j] =~= args@[j]@);
                    }
                    assert(args.deep_view() =~~= parts.deep_view().drop_first());
                }
                Ok(ParsedExec { program, args })
            }
        },
    }
}

/// The text with each `%` followed by `code` replaced by `w`, scanning
/// left to right without overlap, as a substring replacement does.
pub open spec fn replace_pct(s: Seq<char>, code: char, w: Seq<char>) -> Seq<char>
    decreases s.len(),
{
    if s.len() < 2 {
        s
    } else if s[0] == '%' && s[1] == code {
        w + replace_pct(s.skip(2), code, w)
    } else {
        seq![s[0]] + replace_pct(s.skip(1), code, w)
    }
}

/// Whether `%` followed by `code` occurs in the text.
pub open spec fn has_pct(s: Seq<char>, code: char) -> bool {
    exists|i: int| 0 <= i && i + 1 < s.len() && s[i] == '%' && #[trigger] s[i + 1] == code
}

/// Replaces each `%code` in `s` by `w`.
fn replace_pct_chars(s: &Vec<char>, code: char, w: &Vec<char>) -> (r: Vec<char>)
    ensures
        r@ == replace_pct(s@, code, w@),
{
    let n = s.len();
    let mut out: Vec<char> = Vec::new();
    let mut i: usize = 0;
    proof {
        assert(s@.skip(0) =~= s@);
        assert(replace_pct(s@, code, w@) =~= out@ + replace_pct(s@.skip(0), code, w@));
    }
    while i < n
        invariant
            i <= n,
            n == s@.len(),
            replace_pct(s@, code, w@) == out@ + replace_pct(s@.skip(i as int), code, w@),
        decreases n - i,
    {
        let ghost rest = s@.skip(i as int);
        proof {
            assert(rest[0] == s@[i as int]);
            if i + 1 < n {
                assert(rest[1] == s@[i + 1]);
            }
            assert(rest.skip(1) =~= s@.skip(i + 1));
            if i + 2 <= n {
                assert(rest.skip(2) =~= s@.skip(i + 2));
            }
        }
        let ghost old_out = out@;
        if i + 1 < n && s[i] == '%' && s[i + 1] == code {
            crate::strutil::append_chars(&mut out, w);
            i = i + 2;
            proof {
                assert(out@ =~= old_out + w@);
                assert(old_out + (w@ + replace_pct(s@.skip(i as int), code, w@)) =~= out@
                    + replace_pct(s@.skip(i as int), code, w@));
            }
        } else {
            out.push(s[i]);
            i = i + 1;
            proof {
                assert(out@ =~= old_out.push(s@[i - 1]));
                assert(old_out + (seq![s@[i - 1]] + replace_pct(s@.skip(i as int), code, w@))
                    =~= out@ + replace_pct(s@.skip(i as int), code, w@));
            }
        }
    }
    proof {
        assert(s@.skip(n as int) =~= Seq::<char>::empty());
        assert(replace_pct(s@, code, w@) =~= out@);
    }
    out
}

/// Whether `%code` occurs in `s`.
fn has_pct_chars(s: &Vec<char>, code: char) -> (r: bool)
    ensures
        r == has_pct(s@, code),
{
    let n = s.len();
    if n < 2 {
        return false;
    }
    let mut i: usize = 0;
    while i < n - 1
        invariant
            2 <= n,
            n == s@.len(),
            i <= n - 1,
            forall|j: int|
                0 <= j < i ==> !(s@[j] == '%' && #[trigger] s@[j + 1] == code),
        decreases n - i,
    {
        if s[i] == '%' && s[i + 1] == code {
            proof {
                assert(s@[i as int] == '%' && s@[i as int + 1] == code);
            }
            return true;
        }
        i = i + 1;
    }
    false
}

/// The file's place in an `Exec` value: each of the four file and URI
/// placeholders replaced by the path.
pub open spec fn substituted(s: Seq<char>, p: Seq<char>) -> Seq<char> {
    replace_pct(replace_pct(replace_pct(replace_pct(s, 'f', p), 'F', p), 'u', p), 'U', p)
}

/// Whether the `Exec` value carries any file or URI placeholder.
pub open spec fn mentions_file(s: Seq<char>) -> bool {
    has_pct(s, 'f') || has_pct(s, 'F') || has_pct(s, 'u') || has_pct(s, 'U')
}

/// Prepares an `Exec` value for launching with one file: the file and URI
/// placeholders are replaced by the path first; an `Exec` value that never
/// mentioned the file gets it appended as a final argument instead.
pub fn build_file_command(command: &str, file_path: &str) -> (r: Result<ParsedExec, ExecError>)
    ensures
        match r {
            Ok(p) => match shell_split(strip_codes(substituted(command@, file_path@))) {
                Some(words) => words.len() > 0 && p.program@ == words[0] && p.args.deep_view()
                    == words.drop_first() + (if mentions_file(command@) {
                    Seq::<Seq<char>>::empty()
                } else {
                    seq![file_path@]
                }),
                None => false,
            },
            Err(e) => match e {
                ExecError::InvalidSyntax(m) => shell_split(strip_codes(substituted(command@, file_path@)))
                    is None && m@ == substituted(command@, file_path@),
                ExecError::EmptyCommand => shell_split(strip_codes(substituted(command@, file_path@)))
                    == Some(Seq::<Seq<char>>::empty()),
            },
        },
{
    let sc = str_chars(command);
    let has_codes = has_pct_chars(&sc, 'f') || has_pct_chars(&sc, 'F') || has_pct_chars(&sc, 'u')
        || has_pct_chars(&sc, 'U');
    let pc = str_chars(file_path);
    let s1 = replace_pct_chars(&sc, 'f', &pc);
    let s2 = replace_pct_chars(&s1, 'F', &pc);
    let s3 = replace_pct_chars(&s2, 'u', &pc);
    let s4 = replace_pct_chars(&s3, 'U', &pc);
    let with_file = crate::strutil::chars_string(&s4);
    match parse_exec(with_file.as_str()) {
        Err(e) => Err(e),
        Ok(mut p) => {
            if !has_codes {
                let ghost before = p.args.deep_view();
                p.args.push(file_path.to_owned());
                proof {
                    assert(p.args.deep_view() =~~= before.push(file_path@));
                    assert(before.push(file_path@) =~= before + seq![file_path@]);
                }
            } else {
                proof {
                    assert(p.args.deep_view() =~= p.args.deep_view()
                        + Seq::<Seq<char>>::empty());
                }
            }
            Ok(p)
        },
    }
}


} // verus!
