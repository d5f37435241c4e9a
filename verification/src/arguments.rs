//! The command line: options first, then the method with its parameters, then the
//! file.

use crate::text::{parsed_usize, read_usize, str_eq};
use vstd::prelude::*;
use vstd::string::*;

verus! {

/// The analysis to run.
#[derive(PartialEq, Debug)]
pub enum AnalyzeMethod {
    NoMethod,
    MinMax,
    FrequencyAnalysis,
    KasiskiExamination(usize),
}

/// The width of a symbol.
#[derive(PartialEq, Debug)]
pub enum Sizes {
    U8,
    U16,
    U32,
    U64,
    U128,
}

/// What the command line asks for.
#[derive(PartialEq, Debug)]
pub struct Action {
    pub keep_every: usize,
    pub skip_first: usize,
    pub method: AnalyzeMethod,
    pub size: Sizes,
    pub filename: String,
    pub help: bool,
}

/// An `Action` with its file name as text.
pub ghost struct ActionView {
    pub keep_every: usize,
    pub skip_first: usize,
    pub method: AnalyzeMethod,
    pub size: Sizes,
    pub filename: Seq<char>,
    pub help: bool,
}

impl View for Action {
    type V = ActionView;

    open spec fn view(&self) -> ActionView {
        ActionView {
            keep_every: self.keep_every,
            skip_first: self.skip_first,
            method: self.method,
            size: self.size,
            filename: self.filename@,
            help: self.help,
        }
    }
}

/// The minimum word length of the Kasiski examination where none is given.
pub const DEFAULT_KASISKI_LEN: usize = 5;

/// The arguments as texts.
pub open spec fn texts(args: Seq<String>) -> Seq<Seq<char>> {
    Seq::new(args.len(), |i: int| args[i]@)
}

/// The argument at `pos`, if there is one.
pub open spec fn text_at(args: Seq<Seq<char>>, pos: int) -> Option<Seq<char>> {
    if 0 <= pos < args.len() {
        Some(args[pos])
    } else {
        None
    }
}

/// The text of an optional argument.
pub open spec fn text_of(arg: Option<&String>) -> Option<Seq<char>> {
    match arg {
        Some(t) => Some(t@),
        None => None,
    }
}

/// Whether a result holds the value, or the error message, that `expected` names.
pub open spec fn gives<V>(result: Result<V, String>, expected: Result<V, Seq<char>>) -> bool {
    match expected {
        Ok(v) => result == Ok::<V, String>(v),
        Err(m) => result matches Err(e) && e@ == m,
    }
}

/// The symbol width that a number of bytes names: 1, 2, 4, 8 or 16.
pub open spec fn size_of_text(t: Seq<char>) -> Option<Sizes> {
    if t == "1"@ {
        Some(Sizes::U8)
    } else if t == "2"@ {
        Some(Sizes::U16)
    } else if t == "4"@ {
        Some(Sizes::U32)
    } else if t == "8"@ {
        Some(Sizes::U64)
    } else if t == "16"@ {
        Some(Sizes::U128)
    } else {
        None
    }
}

/// The value of `--bytes`, or why there is none.
pub open spec fn sizes_value(arg: Option<Seq<char>>) -> Result<Sizes, Seq<char>> {
    match arg {
        Some(t) => match size_of_text(t) {
            Some(size) => Ok(size),
            None => Err("Bytes parameter is invalid"@),
        },
        None => Err("Bytes parameter is invalid"@),
    }
}

/// The number that an argument stands for, or `error` where it is missing or no
/// number.
pub open spec fn usize_value(arg: Option<Seq<char>>, error: Seq<char>) -> Result<
    usize,
    Seq<char>,
> {
    match arg {
        Some(t) => match parsed_usize(t) {
            Some(n) => Ok(n),
            None => Err(error),
        },
        None => Err(error),
    }
}

/// The Kasiski examination with its minimum word length, and how many arguments
/// from `pos` on said so: `--min-length` with its number, or nothing.
pub open spec fn kasiski_params(args: Seq<Seq<char>>, pos: int) -> Result<
    (AnalyzeMethod, usize),
    Seq<char>,
> {
    if 0 <= pos < args.len() && args[pos] == "--min-length"@ {
        match usize_value(text_at(args, pos + 1), "min-length is invalid"@) {
            Ok(m) => Ok((AnalyzeMethod::KasiskiExamination(m), 2usize)),
            Err(e) => Err(e),
        }
    } else {
        Ok((AnalyzeMethod::KasiskiExamination(DEFAULT_KASISKI_LEN), 0usize))
    }
}

/// The options read from `pos` on, a later one replacing an earlier one of the
/// same name: symbol width, positions to skip, the step between kept positions,
/// and the position of the first argument that is no option.
pub open spec fn optionals_from(
    args: Seq<Seq<char>>,
    pos: int,
    size: Sizes,
    skip_first: usize,
    keep_every: usize,
) -> Result<(Sizes, usize, usize, usize), Seq<char>>
    decreases args.len() - pos,
{
    if pos < 0 || pos >= args.len() {
        Ok((size, skip_first, keep_every, pos as usize))
    } else if args[pos] == "--bytes"@ {
        match sizes_value(text_at(args, pos + 1)) {
            Ok(s) => optionals_from(args, pos + 2, s, skip_first, keep_every),
            Err(e) => Err(e),
        }
    } else if args[pos] == "--keep-every"@ {
        match usize_value(text_at(args, pos + 1), "--keep-every is invalid"@) {
            Ok(k) => optionals_from(args, pos + 2, size, skip_first, k),
            Err(e) => Err(e),
        }
    } else if args[pos] == "--skip-first"@ {
        match usize_value(text_at(args, pos + 1), "--skip-first is invalid"@) {
            Ok(k) => optionals_from(args, pos + 2, size, k, keep_every),
            Err(e) => Err(e),
        }
    } else {
        Ok((size, skip_first, keep_every, pos as usize))
    }
}

/// The options behind the program's name, with one-byte symbols, nothing skipped
/// and every position kept where they do not say otherwise.
pub open spec fn optionals(args: Seq<Seq<char>>) -> Result<
    (Sizes, usize, usize, usize),
    Seq<char>,
> {
    optionals_from(args, 1, Sizes::U8, 0, 1)
}

/// What was read behind the options.
pub ghost struct Scan {
    pub method: AnalyzeMethod,
    pub count: nat,
    pub file: Option<Seq<char>>,
    pub help: bool,
}

/// The message for an argument that is no method and no help flag, and does not
/// stand last.
pub open spec fn unknown_parameter(arg: Seq<char>) -> Seq<char> {
    "Unkown parameter "@ + arg + ", file must be provided last"@
}

/// Reads methods, help flags and the file from `pos` on.
pub open spec fn scan_from(args: Seq<Seq<char>>, pos: int, state: Scan) -> Result<
    Scan,
    Seq<char>,
>
    decreases args.len() - pos,
{
    if pos < 0 || pos >= args.len() {
        Ok(state)
    } else if args[pos] == "min_max"@ {
        scan_from(
            args,
            pos + 1,
            Scan {
                method: AnalyzeMethod::MinMax,
                count: state.count + 1,
                file: state.file,
                help: state.help,
            },
        )
    } else if args[pos] == "frequency_analysis"@ {
        scan_from(
            args,
            pos + 1,
            Scan {
                method: AnalyzeMethod::FrequencyAnalysis,
                count: state.count + 1,
                file: state.file,
                help: state.help,
            },
        )
    } else if args[pos] == "kasiski_examination"@ {
        match kasiski_params(args, pos + 1) {
            Ok((method, used)) => scan_from(
                args,
                pos + 1 + used,
                Scan { method, count: state.count + 1, file: state.file, help: state.help },
            ),
            Err(e) => Err(e),
        }
    } else if args[pos] == "-h"@ || args[pos] == "--help"@ {
        scan_from(
            args,
            pos + 1,
            Scan { method: state.method, count: state.count, file: state.file, help: true },
        )
    } else if pos != args.len() - 1 {
        Err(unknown_parameter(args[pos]))
    } else {
        scan_from(
            args,
            pos + 1,
            Scan {
                method: state.method,
                count: state.count,
                file: Some(args[pos]),
                help: state.help,
            },
        )
    }
}

/// What a command line asks for, or the message that says what is wrong with it.
pub open spec fn parsed_args(args: Seq<Seq<char>>) -> Result<ActionView, Seq<char>> {
    match optionals(args) {
        Err(e) => Err(e),
        Ok((size, skip_first, keep_every, pos)) => match scan_from(
            args,
            pos as int,
            Scan { method: AnalyzeMethod::NoMethod, count: 0, file: None, help: false },
        ) {
            Err(e) => Err(e),
            Ok(state) => if state.count != 1 && !state.help {
                Err("Method needs to be provided once"@)
            } else if state.help {
                Ok(
                    ActionView {
                        keep_every,
                        skip_first,
                        method: state.method,
                        size,
                        filename: ""@,
                        help: true,
                    },
                )
            } else {
                match state.file {
                    Some(f) => Ok(
                        ActionView {
                            keep_every,
                            skip_first,
                            method: state.method,
                            size,
                            filename: f,
                            help: false,
                        },
                    ),
                    None => Err("No file specified"@),
                }
            },
        },
    }
}

/// Reads the value of `--bytes`.
pub fn parse_sizes(arg: Option<&String>) -> (result: Result<Sizes, String>)
    ensures
        gives(result, sizes_value(text_of(arg))),
{
    let s = match arg {
        Some(t) => t,
        None => {
            return Err(String::from_str("Bytes parameter is invalid"));
        },
    };
    if str_eq(s.as_str(), "1") {
        Ok(Sizes::U8)
    } else if str_eq(s.as_str(), "2") {
        Ok(Sizes::U16)
    } else if str_eq(s.as_str(), "4") {
        Ok(Sizes::U32)
    } else if str_eq(s.as_str(), "8") {
        Ok(Sizes::U64)
    } else if str_eq(s.as_str(), "16") {
        Ok(Sizes::U128)
    } else {
        Err(String::from_str("Bytes parameter is invalid"))
    }
}

/// Reads an argument as a number, and gives `error` where it is missing or no
/// number.
pub fn parse_usize(arg: Option<&String>, error: &String) -> (result: Result<usize, String>)
    ensures
        gives(result, usize_value(text_of(arg), error@)),
{
    match arg {
        Some(s) => match read_usize(s.as_str()) {
            Some(l) => Ok(l),
            None => Err(error.clone()),
        },
        None => Err(error.clone()),
    }
}

/// The argument at `pos`, if there is one.
pub fn arg_at(args: &Vec<String>, pos: usize) -> (arg: Option<&String>)
    ensures
        text_of(arg) == text_at(texts(args@), pos as int),
{
    if pos < args.len() {
        Some(&args[pos])
    } else {
        None
    }
}

/// Reads the parameters of the Kasiski examination from `pos` on.
pub fn parse_kasiski_examination_params(args: &Vec<String>, pos: usize) -> (result: Result<
    (AnalyzeMethod, usize),
    String,
>)
    ensures
        gives(result, kasiski_params(texts(args@), pos as int)),
{
    if pos >= args.len() {
        return Ok((AnalyzeMethod::KasiskiExamination(DEFAULT_KASISKI_LEN), 0));
    }
    if str_eq(args[pos].as_str(), "--min-length") {
        let error = String::from_str("min-length is invalid");
        match parse_usize(arg_at(args, pos + 1), &error) {
            Ok(m) => Ok((AnalyzeMethod::KasiskiExamination(m), 2)),
            Err(e) => Err(e),
        }
    } else {
        Ok((AnalyzeMethod::KasiskiExamination(DEFAULT_KASISKI_LEN), 0))
    }
}

/// Reads the options behind the program's name: symbol width, positions to skip,
/// the step between kept positions, and the position of the first argument that
/// is no option.
pub fn parse_optionals(args: &Vec<String>) -> (result: Result<
    (Sizes, usize, usize, usize),
    String,
>)
    ensures
        gives(result, optionals(texts(args@))),
{
    let mut size: Sizes = Sizes::U8;
    let keep_every_error = String::from_str("--keep-every is invalid");
    let mut keep_every: usize = 1;
    let skip_first_error = String::from_str("--skip-first is invalid");
    let mut skip_first: usize = 0;
    let ghost all = texts(args@);

    let mut pos: usize = 1;  // Skip binary
    while pos < args.len()
        invariant
            all == texts(args@),
            keep_every_error@ == "--keep-every is invalid"@,
            skip_first_error@ == "--skip-first is invalid"@,
            1 <= pos,
            optionals(all) == optionals_from(all, pos as int, size, skip_first, keep_every),
        ensures
            optionals(all) == Ok::<(Sizes, usize, usize, usize), Seq<char>>(
                (size, skip_first, keep_every, pos),
            ),
        decreases args.len() - pos,
    {
        let arg = args[pos].as_str();
        if str_eq(arg, "--bytes") {
            match parse_sizes(arg_at(args, pos + 1)) {
                Ok(s) => {
                    size = s;
                },
                Err(e) => {
                    return Err(e);
                },
            }
            pos += 1;
        } else if str_eq(arg, "--keep-every") {
            match parse_usize(arg_at(args, pos + 1), &keep_every_error) {
                Ok(k) => {
                    keep_every = k;
                },
                Err(e) => {
                    return Err(e);
                },
            }
            pos += 1;
        } else if str_eq(arg, "--skip-first") {
            match parse_usize(arg_at(args, pos + 1), &skip_first_error) {
                Ok(k) => {
                    skip_first = k;
                },
                Err(e) => {
                    return Err(e);
                },
            }
            pos += 1;
        } else {
            break ;
        }
        pos += 1;
    }
    Ok((size, skip_first, keep_every, pos))
}

/// The text of an optional file name.
pub open spec fn name_of(file: Option<String>) -> Option<Seq<char>> {
    match file {
        Some(f) => Some(f@),
        None => None,
    }
}

/// Reads the command line: the program's name, the options, then one method with
/// its parameters and the file, which stands last. A help flag makes method and
/// file optional.
pub fn parse_args(args: &Vec<String>) -> (result: Result<Action, String>)
    ensures
        (match parsed_args(texts(args@)) {
            Ok(action) => result matches Ok(a) && a@ == action,
            Err(message) => result matches Err(e) && e@ == message,
        }),
{
    let mut method: AnalyzeMethod = AnalyzeMethod::NoMethod;
    let mut file: Option<String> = None;
    let mut help = false;
    let mut method_set_count: usize = 0;
    let ghost all = texts(args@);

    let (size, skip_first, keep_every, start) = match parse_optionals(args) {
        Ok(found) => found,
        Err(e) => {
            return Err(e);
        },
    };
    let ghost initial = Scan {
        method: AnalyzeMethod::NoMethod,
        count: 0,
        file: None,
        help: false,
    };
    let mut pos: usize = start;
    while pos < args.len()
        invariant
            all == texts(args@),
            optionals(all) == Ok::<(Sizes, usize, usize, usize), Seq<char>>(
                (size, skip_first, keep_every, start),
            ),
            initial == (Scan { method: AnalyzeMethod::NoMethod, count: 0, file: None, help: false }),
            method_set_count <= pos,
            scan_from(all, start as int, initial) == scan_from(
                all,
                pos as int,
                Scan { method, count: method_set_count as nat, file: name_of(file), help },
            ),
        decreases args.len() - pos,
    {
        let arg = args[pos].as_str();
        if str_eq(arg, "min_max") {
            method = AnalyzeMethod::MinMax;
            method_set_count += 1;
        } else if str_eq(arg, "frequency_analysis") {
            method = AnalyzeMethod::FrequencyAnalysis;
            method_set_count += 1;
        } else if str_eq(arg, "kasiski_examination") {
            match parse_kasiski_examination_params(args, pos + 1) {
                Ok((m, a)) => {
                    method = m;
                    pos += a;
                    method_set_count += 1;
                },
                Err(e) => {
                    return Err(e);
                },
            }
        } else if str_eq(arg, "-h") || str_eq(arg, "--help") {
            help = true;
        } else {
            if pos != args.len() - 1 {
                let mut message = String::from_str("Unkown parameter ");
                message.append(arg);
                message.append(", file must be provided last");
                return Err(message);
            }
            file = Some(args[pos].clone());
        }
        pos += 1;
    }
    if method_set_count != 1 && !help {
        return Err(String::from_str("Method needs to be provided once"));
    }
    if help {
        file = Some(String::from_str(""));
    }
    match file {
        Some(f) => Ok(Action { skip_first, keep_every, method, filename: f, size, help }),
        None => Err(String::from_str("No file specified")),
    }
}

/// The help message for the program called `exe`.
pub open spec fn help_text(exe: Seq<char>) -> Seq<char> {
    "Analyze ciphertext with classical cryptanalysis\n\nUsage: "@ + exe
        + " [--bytes BYTES] METHOD [METHOD PARAMETERS] FILE\n\t-h|--help: Print this help message\n\t--bytes:   How many bytes to group together.\n\t           1, 2, 4, 8, 16 (Default: 1\n\nMethods:\n\tmin_max                 Show range of bytes\n\tfrequency_analysis      Count occurence of bytes\n\tkasiski_examination     Show duplicate words\n\t\t--min-length    Minimum word length, Default: 5"@
}

/// The help message for the program called `exe`.
pub fn help(exe: &String) -> (message: String)
    ensures
        message@ == help_text(exe@),
{
    let mut message = String::from_str("Analyze ciphertext with classical cryptanalysis\n\nUsage: ");
    message.append(exe.as_str());
    message.append(
        " [--bytes BYTES] METHOD [METHOD PARAMETERS] FILE\n\t-h|--help: Print this help message\n\t--bytes:   How many bytes to group together.\n\t           1, 2, 4, 8, 16 (Default: 1\n\nMethods:\n\tmin_max                 Show range of bytes\n\tfrequency_analysis      Count occurence of bytes\n\tkasiski_examination     Show duplicate words\n\t\t--min-length    Minimum word length, Default: 5",
    );
    message
}

} // verus!
