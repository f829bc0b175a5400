//! Command-line arguments: `[--limit N] [--files] [--dirs] [--depth N] [PATH]`,
//! `-h` / `--help` and `--version`.
use vstd::prelude::*;

verus! {

/// How many entries are shown when `--limit` is not given.
pub const DEFAULT_LIMIT: usize = 20;

/// The settings a command line asks for.
#[derive(Debug, PartialEq, Eq)]
pub struct Cli {
    pub path: String,
    pub limit: usize,
    pub include_files: bool,
    pub include_dirs: bool,
    pub max_depth: Option<usize>,
}

/// Why parsing stopped without settings: help or the version was asked
/// for, or the command line is wrong.
#[derive(Debug, PartialEq, Eq)]
pub enum ParseOutcome {
    Help,
    Version,
    Error(String),
}

/// The mathematical content of a [`Cli`].
pub struct CliModel {
    pub path: Seq<char>,
    pub limit: usize,
    pub include_files: bool,
    pub include_dirs: bool,
    pub max_depth: Option<usize>,
}

/// The mathematical content of a [`ParseOutcome`].
pub enum OutcomeModel {
    Help,
    Version,
    Error(Seq<char>),
}

impl View for Cli {
    type V = CliModel;

    open spec fn view(&self) -> CliModel {
        CliModel {
            path: self.path@,
            limit: self.limit,
            include_files: self.include_files,
            include_dirs: self.include_dirs,
            max_depth: self.max_depth,
        }
    }
}

impl View for ParseOutcome {
    type V = OutcomeModel;

    open spec fn view(&self) -> OutcomeModel {
        match self {
            ParseOutcome::Help => OutcomeModel::Help,
            ParseOutcome::Version => OutcomeModel::Version,
            ParseOutcome::Error(message) => OutcomeModel::Error(message@),
        }
    }
}

/// A parse result as its mathematical content.
pub open spec fn outcome_view<T: View>(r: Result<T, ParseOutcome>) -> Result<T::V, OutcomeModel> {
    match r {
        Ok(value) => Ok(value@),
        Err(outcome) => Err(outcome@),
    }
}

/// A decimal digit.
pub open spec fn is_digit(c: char) -> bool {
    '0' <= c && c <= '9'
}

/// Every character is a decimal digit.
pub open spec fn all_digits(s: Seq<char>) -> bool {
    forall|i: int| 0 <= i < s.len() ==> is_digit(#[trigger] s[i])
}

/// The number that a string of decimal digits denotes.
pub open spec fn digits_value(s: Seq<char>) -> nat
    decreases s.len(),
{
    if s.len() == 0 {
        0
    } else {
        digits_value(s.drop_last()) * 10 + (s.last() as nat - '0' as nat) as nat
    }
}

/// The digits of an unsigned number: the text without one leading `+`.
pub open spec fn unsigned_digits(s: Seq<char>) -> Seq<char> {
    if s.len() > 0 && s[0] == '+' {
        s.drop_first()
    } else {
        s
    }
}

/// The `usize` that a text denotes, as the standard parser reads it: an
/// optional `+`, then at least one decimal digit and nothing else, with a
/// value that fits.
pub open spec fn parsed_usize(s: Seq<char>) -> Option<usize> {
    let d = unsigned_digits(s);
    if d.len() > 0 && all_digits(d) && digits_value(d) <= usize::MAX {
        Some(digits_value(d) as usize)
    } else {
        None
    }
}

/// What `parse_non_negative_usize` gives for `option` and `value`.
pub open spec fn non_negative_outcome(option: Seq<char>, value: Seq<char>) -> Result<usize, OutcomeModel> {
    match parsed_usize(value) {
        Some(n) => Ok(n),
        None => Err(
            OutcomeModel::Error(option + " expects a non-negative integer, got '"@ + value + "'"@),
        ),
    }
}

/// What `parse_positive_usize` gives for `option` and `value`.
pub open spec fn positive_outcome(option: Seq<char>, value: Seq<char>) -> Result<usize, OutcomeModel> {
    match non_negative_outcome(option, value) {
        Ok(n) => if n == 0 {
            Err(OutcomeModel::Error(option + " must be greater than zero"@))
        } else {
            Ok(n)
        },
        Err(e) => Err(e),
    }
}

/// Reads a non-negative integer given for `option`.
pub fn parse_non_negative_usize(option: &str, value: &str) -> (result: Result<usize, ParseOutcome>)
    ensures
        outcome_view(result) == non_negative_outcome(option@, value@),
{
    let len = value.unicode_len();
    let mut start: usize = 0;
    if len > 0 && value.get_char(0) == '+' {
        start = 1;
    }
    let ghost d = unsigned_digits(value@);
    assert(d =~= value@.subrange(start as int, len as int));
    let mut ok = start < len;
    let mut n: usize = 0;
    let mut i: usize = start;
    while ok && i < len
        invariant
            start <= i <= len,
            len == value@.len(),
            d == value@.subrange(start as int, len as int),
            d == unsigned_digits(value@),
            ok ==> start < len,
            ok ==> all_digits(d.subrange(0, i - start)),
            ok ==> n == digits_value(d.subrange(0, i - start)),
            !ok ==> parsed_usize(value@) is None,
        decreases len - i,
    {
        let c = value.get_char(i);
        let ghost prefix = d.subrange(0, i - start);
        let ghost next = d.subrange(0, i + 1 - start);
        assert(next.drop_last() =~= prefix);
        assert(next.last() == c);
        if !('0' <= c && c <= '9') {
            ok = false;
            assert(!is_digit(d[i - start]));
            assert(!all_digits(d));
        } else {
            let digit = (c as u32 - '0' as u32) as usize;
            match n.checked_mul(10) {
                Some(tens) => match tens.checked_add(digit) {
                    Some(v) => {
                        n = v;
                    },
                    None => {
                        ok = false;
                        proof {
                            assert(digits_value(next) > usize::MAX);
                            if all_digits(d) {
                                lemma_digits_value_prefix(d, (i + 1 - start) as nat);
                            }
                                        }
                    },
                },
                None => {
                    ok = false;
                    proof {
                        assert(digits_value(next) > usize::MAX) by (nonlinear_arith)
                            requires
                                digits_value(next) == digits_value(prefix) * 10 + (c as nat - '0' as nat),
                                digits_value(prefix) * 10 > usize::MAX,
                                c as nat >= '0' as nat;
                        if all_digits(d) {
                            lemma_digits_value_prefix(d, (i + 1 - start) as nat);
                        }
                                }
                },
            }
        }
        i = i + 1;
    }
    if ok {
        assert(d.subrange(0, len - start) =~= d);
        Ok(n)
    } else {
        let mut message = String::from_str(option);
        message.append(" expects a non-negative integer, got '");
        message.append(value);
        message.append("'");
        Err(ParseOutcome::Error(message))
    }
}

/// The value of a digit string is at least that of each of its prefixes.
proof fn lemma_digits_value_prefix(s: Seq<char>, n: nat)
    requires
        n <= s.len(),
        all_digits(s),
    ensures
        digits_value(s.subrange(0, n as int)) <= digits_value(s),
    decreases s.len(),
{
    if n < s.len() {
        let t = s.drop_last();
        assert(t.subrange(0, n as int) =~= s.subrange(0, n as int));
        assert forall|u: int| 0 <= u < t.len() implies is_digit(#[trigger] t[u]) by {
            assert(is_digit(s[u]));
        }
        assert(all_digits(t));
        lemma_digits_value_prefix(t, n);
    } else {
        assert(s.subrange(0, n as int) =~= s);
    }
}

/// Reads a positive integer given for `option`.
pub fn parse_positive_usize(option: &str, value: &str) -> (result: Result<usize, ParseOutcome>)
    ensures
        outcome_view(result) == positive_outcome(option@, value@),
{
    match parse_non_negative_usize(option, value) {
        Ok(parsed) => {
            if parsed == 0 {
                let mut message = String::from_str(option);
                message.append(" must be greater than zero");
                Err(ParseOutcome::Error(message))
            } else {
                Ok(parsed)
            }
        },
        Err(e) => Err(e),
    }
}

/// The flags and values read so far.
pub struct ArgState {
    pub path: Option<Seq<char>>,
    pub limit: usize,
    pub max_depth: Option<usize>,
    pub files: bool,
    pub dirs: bool,
}

/// Nothing read yet.
pub open spec fn initial_state() -> ArgState {
    ArgState { path: None, limit: DEFAULT_LIMIT, max_depth: None, files: false, dirs: false }
}

/// The settings once every argument is read: the path defaults to ".",
/// `--files` alone shows only files, `--dirs` alone only directories, both
/// or neither show both.
pub open spec fn finish(st: ArgState) -> CliModel {
    CliModel {
        path: match st.path {
            Some(p) => p,
            None => "."@,
        },
        limit: st.limit,
        include_files: st.files || !st.dirs,
        include_dirs: st.dirs || !st.files,
        max_depth: st.max_depth,
    }
}

/// Reads the arguments from position `i` on, in state `st`.
pub open spec fn parse_from(args: Seq<Seq<char>>, i: nat, st: ArgState) -> Result<CliModel, OutcomeModel>
    decreases args.len() - i,
{
    if args.len() <= i {
        Ok(finish(st))
    } else {
        let a = args[i as int];
        if a == "-h"@ || a == "--help"@ {
            Err(OutcomeModel::Help)
        } else if a == "--version"@ {
            Err(OutcomeModel::Version)
        } else if a == "--files"@ {
            parse_from(args, i + 1, ArgState { files: true, ..st })
        } else if a == "--dirs"@ {
            parse_from(args, i + 1, ArgState { dirs: true, ..st })
        } else if a == "--limit"@ {
            if args.len() <= i + 1 {
                Err(OutcomeModel::Error("--limit requires a positive integer"@))
            } else {
                match positive_outcome("--limit"@, args[i + 1int]) {
                    Ok(n) => parse_from(args, (i + 2) as nat, ArgState { limit: n, ..st }),
                    Err(e) => Err(e),
                }
            }
        } else if a == "--depth"@ {
            if args.len() <= i + 1 {
                Err(OutcomeModel::Error("--depth requires a non-negative integer"@))
            } else {
                match non_negative_outcome("--depth"@, args[i + 1int]) {
                    Ok(n) => parse_from(args, (i + 2) as nat, ArgState { max_depth: Some(n), ..st }),
                    Err(e) => Err(e),
                }
            }
        } else if a.len() > 0 && a[0] == '-' {
            Err(OutcomeModel::Error("unknown option '"@ + a + "'"@))
        } else if st.path is Some {
            Err(OutcomeModel::Error("only one path may be scanned at a time"@))
        } else {
            parse_from(args, i + 1, ArgState { path: Some(a), ..st })
        }
    }
}

/// The arguments as texts.
pub open spec fn arg_texts(args: Seq<String>) -> Seq<Seq<char>> {
    args.map_values(|a: String| a@)
}

/// The mathematical content of an optional path.
pub open spec fn path_text(p: Option<String>) -> Option<Seq<char>> {
    match p {
        Some(s) => Some(s@),
        None => None,
    }
}

/// Whether `arg` is exactly `text`.
fn is_text(arg: &String, text: &str) -> (same: bool)
    ensures
        same == (arg@ == text@),
{
    let t = String::from_str(text);
    *arg == t
}

/// Reads the command line arguments (without the program name).
pub fn parse_args(args: Vec<String>) -> (result: Result<Cli, ParseOutcome>)
    ensures
        outcome_view(result) == parse_from(arg_texts(args@), 0, initial_state()),
{
    let ghost texts = arg_texts(args@);
    let mut path: Option<String> = None;
    let mut limit: usize = DEFAULT_LIMIT;
    let mut max_depth: Option<usize> = None;
    let mut files_flag = false;
    let mut dirs_flag = false;
    let mut i: usize = 0;
    while i < args.len()
        invariant
            i <= args@.len(),
            texts == arg_texts(args@),
            parse_from(texts, 0, initial_state()) == parse_from(
                texts,
                i as nat,
                ArgState {
                    path: path_text(path),
                    limit,
                    max_depth,
                    files: files_flag,
                    dirs: dirs_flag,
                },
            ),
        decreases args@.len() - i,
    {
        let arg = &args[i];
        assert(texts[i as int] == arg@);
        if is_text(arg, "-h") || is_text(arg, "--help") {
            return Err(ParseOutcome::Help);
        } else if is_text(arg, "--version") {
            return Err(ParseOutcome::Version);
        } else if is_text(arg, "--files") {
            files_flag = true;
            i = i + 1;
        } else if is_text(arg, "--dirs") {
            dirs_flag = true;
            i = i + 1;
        } else if is_text(arg, "--limit") {
            if i + 1 >= args.len() {
                return Err(
                    ParseOutcome::Error(String::from_str("--limit requires a positive integer")),
                );
            }
            assert(texts[i + 1] == args@[i + 1]@);
            match parse_positive_usize("--limit", args[i + 1].as_str()) {
                Ok(n) => {
                    limit = n;
                },
                Err(e) => {
                    return Err(e);
                },
            }
            i = i + 2;
        } else if is_text(arg, "--depth") {
            if i + 1 >= args.len() {
                return Err(
                    ParseOutcome::Error(
                        String::from_str("--depth requires a non-negative integer"),
                    ),
                );
            }
            assert(texts[i + 1] == args@[i + 1]@);
            match parse_non_negative_usize("--depth", args[i + 1].as_str()) {
                Ok(n) => {
                    max_depth = Some(n);
                },
                Err(e) => {
                    return Err(e);
                },
            }
            i = i + 2;
        } else if !arg.as_str().is_empty() && arg.as_str().get_char(0) == '-' {
            let mut message = String::from_str("unknown option '");
            message.append(arg.as_str());
            message.append("'");
            return Err(ParseOutcome::Error(message));
        } else if path.is_some() {
            return Err(
                ParseOutcome::Error(String::from_str("only one path may be scanned at a time")),
            );
        } else {
            path = Some(arg.clone());
            i = i + 1;
        }
    }
    let path = match path {
        Some(p) => p,
        None => String::from_str("."),
    };
    Ok(
        Cli {
            path,
            limit,
            include_files: files_flag || !dirs_flag,
            include_dirs: dirs_flag || !files_flag,
            max_depth,
        },
    )
}

} // verus!
