//! The command line of the denoiser.
use vstd::prelude::*;
use vstd::string::*;

use crate::text::{from_chars, starts_with, starts_with_spec, to_chars};

verus! {

/// What `--help` prints.
pub const USAGE: &'static str = "\
hush-vani — speech enhancement / background-speaker suppression

USAGE:
    hush-vani <input.wav> <output.wav> [OPTIONS]

OPTIONS:
    -w, --weights <DIR>   directory holding weights.bin and weights.txt
                          [default: $HUSH_WEIGHTS, else the current directory]
    -a, --atten <DB>      limit suppression to this many dB (e.g. 12); default: unlimited
    -h, --help            print this help

Input must be mono 16 kHz. Output lags the input by 160 samples (10 ms).";

/// What is wrong with a command line.
#[derive(Debug)]
pub enum Fault {
    /// `--weights` is the last argument.
    NeedsDirectory,
    /// `--atten` is the last argument.
    NeedsNumber,
    /// The argument at this place, which follows `--atten`, is not a number.
    NotANumber(usize),
    /// An argument starts with a dash and is no flag.
    UnknownFlag(String),
    /// There are not exactly two file names.
    NeedsTwoFiles,
}

/// What is wrong with a command line.
pub enum FaultView {
    NeedsDirectory,
    NeedsNumber,
    NotANumber(nat),
    UnknownFlag(Seq<char>),
    NeedsTwoFiles,
}

impl View for Fault {
    type V = FaultView;

    open spec fn view(&self) -> FaultView {
        match *self {
            Fault::NeedsDirectory => FaultView::NeedsDirectory,
            Fault::NeedsNumber => FaultView::NeedsNumber,
            Fault::NotANumber(i) => FaultView::NotANumber(i as nat),
            Fault::UnknownFlag(a) => FaultView::UnknownFlag(a@),
            Fault::NeedsTwoFiles => FaultView::NeedsTwoFiles,
        }
    }
}

impl Fault {
    /// The message that a user sees. What is wrong with a number is known to who tried to read it.
    pub open spec fn text(self) -> Option<Seq<char>> {
        match self {
            Fault::NeedsDirectory => Some("--weights needs a directory"@),
            Fault::NeedsNumber => Some("--atten needs a number"@),
            Fault::NotANumber(_) => None,
            Fault::UnknownFlag(a) => Some("unknown flag "@ + a@),
            Fault::NeedsTwoFiles => Some("expected <input.wav> <output.wav>; see --help"@),
        }
    }

    /// The message that a user sees, except for a number that cannot be read.
    pub fn message(&self) -> (r: Option<String>)
        ensures
            match r {
                Some(m) => self.text() == Some(m@),
                None => self.text() is None,
            },
    {
        match self {
            Fault::NeedsDirectory => Some("--weights needs a directory".to_owned()),
            Fault::NeedsNumber => Some("--atten needs a number".to_owned()),
            Fault::NotANumber(_) => None,
            Fault::UnknownFlag(a) => {
                let mut m = "unknown flag ".to_owned();
                m.append(a.as_str());
                Some(m)
            },
            Fault::NeedsTwoFiles => Some(
                "expected <input.wav> <output.wav>; see --help".to_owned(),
            ),
        }
    }
}

/// What a command line asks for.
#[derive(Debug)]
pub enum Command {
    /// Print the usage.
    Help,
    /// Denoise `input` into `output`.
    Run {
        /// The file to read.
        input: String,
        /// The file to write.
        output: String,
        /// The directory of the weights, if one was given.
        weights: Option<String>,
        /// The limit of the suppression in dB, if one was given, as it was written.
        atten: Option<String>,
    },
}

/// The options and file names read so far.
pub struct ArgsView {
    pub files: Seq<Seq<char>>,
    pub weights: Option<Seq<char>>,
    pub atten: Option<Seq<char>>,
}

/// Whether the argument asks for help.
pub open spec fn is_help(a: Seq<char>) -> bool {
    a == "-h"@ || a == "--help"@
}

/// Whether the argument names the weight directory next.
pub open spec fn is_weights(a: Seq<char>) -> bool {
    a == "-w"@ || a == "--weights"@
}

/// Whether the argument gives the limit next.
pub open spec fn is_atten(a: Seq<char>) -> bool {
    a == "-a"@ || a == "--atten"@
}

/// The arguments from place `i` on, read into `acc`. An option takes the argument behind it; if
/// an option is given twice, the last one counts.
pub open spec fn read_from(
    args: Seq<Seq<char>>,
    numbers: Seq<bool>,
    i: nat,
    acc: ArgsView,
) -> Result<ArgsView, FaultView>
    decreases args.len() - i,
{
    if i >= args.len() {
        Ok(acc)
    } else {
        let a = args[i as int];
        if is_weights(a) {
            if i + 1 < args.len() {
                read_from(
                    args,
                    numbers,
                    i + 2,
                    ArgsView { weights: Some(args[i as int + 1]), ..acc },
                )
            } else {
                Err(FaultView::NeedsDirectory)
            }
        } else if is_atten(a) {
            if i + 1 >= args.len() {
                Err(FaultView::NeedsNumber)
            } else if !numbers[i as int + 1] {
                Err(FaultView::NotANumber(i + 1))
            } else {
                read_from(args, numbers, i + 2, ArgsView { atten: Some(args[i as int + 1]), ..acc })
            }
        } else if starts_with_spec(a, "-"@) {
            Err(FaultView::UnknownFlag(a))
        } else {
            read_from(args, numbers, i + 1, ArgsView { files: acc.files.push(a), ..acc })
        }
    }
}

/// Whether a command line asks for help: it is empty, or help is among its arguments.
pub open spec fn wants_help(args: Seq<Seq<char>>) -> bool {
    args.len() == 0 || exists|i: int| 0 <= i < args.len() && is_help(#[trigger] args[i])
}

/// What a command line asks for, or what is wrong with it.
pub open spec fn command_of(
    args: Seq<Seq<char>>,
    numbers: Seq<bool>,
) -> Result<Option<ArgsView>, FaultView> {
    if wants_help(args) {
        Ok(None)
    } else {
        match read_from(
            args,
            numbers,
            0,
            ArgsView { files: Seq::empty(), weights: None, atten: None },
        ) {
            Err(e) => Err(e),
            Ok(o) => if o.files.len() == 2 {
                Ok(Some(o))
            } else {
                Err(FaultView::NeedsTwoFiles)
            },
        }
    }
}

/// The texts of a list of arguments.
pub open spec fn args_of(args: Seq<String>) -> Seq<Seq<char>> {
    Seq::new(args.len(), |i: int| args[i]@)
}

/// The text behind an optional string.
pub open spec fn text_of(s: Option<String>) -> Option<Seq<char>> {
    match s {
        None => None,
        Some(s) => Some(s@),
    }
}

impl Command {
    /// The options and file names, unless the usage is asked for.
    pub open spec fn options(self) -> Option<ArgsView> {
        match self {
            Command::Help => None,
            Command::Run { input, output, weights, atten } => Some(
                ArgsView {
                    files: seq![input@, output@],
                    weights: text_of(weights),
                    atten: text_of(atten),
                },
            ),
        }
    }
}

pub(crate) fn is_text(a: &[char], t: &str) -> (r: bool)
    ensures
        r == (a@ == t@),
{
    let c = to_chars(t);
    let n = a.len();
    if c.len() != n {
        return false;
    }
    for i in 0..n
        invariant
            n == a@.len(),
            n == c@.len(),
            c@ == t@,
            forall|k: int| 0 <= k < i ==> a@[k] == c@[k],
    {
        if a[i] != c[i] {
            return false;
        }
    }
    assert(a@ =~= c@);
    true
}

fn copy_of(s: &String) -> (r: String)
    ensures
        r@ == s@,
{
    from_chars(to_chars(s.as_str()).as_slice())
}

fn asks_for_help(args: &[String]) -> (r: bool)
    ensures
        r == wants_help(args_of(args@)),
{
    let n = args.len();
    if n == 0 {
        return true;
    }
    for i in 0..n
        invariant
            n == args@.len(),
            forall|k: int| 0 <= k < i ==> !is_help(#[trigger] args_of(args@)[k]),
    {
        let a = to_chars(args[i].as_str());
        assert(args_of(args@)[i as int] == a@);
        if is_text(a.as_slice(), "-h") || is_text(a.as_slice(), "--help") {
            return true;
        }
    }
    false
}

/// Reads a command line. `numbers` tells of each argument whether it can be read as a number.
pub fn parse_args(args: &[String], numbers: &[bool]) -> (r: Result<Command, Fault>)
    requires
        numbers@.len() == args@.len(),
    ensures
        match r {
            Ok(c) => command_of(args_of(args@), numbers@) == Ok::<Option<ArgsView>, FaultView>(
                c.options(),
            ),
            Err(e) => command_of(args_of(args@), numbers@) == Err::<Option<ArgsView>, FaultView>(
                e@,
            ),
        },
{
    if asks_for_help(args) {
        return Ok(Command::Help);
    }
    let ghost av = args_of(args@);
    let n = args.len();
    let mut files: Vec<String> = Vec::new();
    let mut weights: Option<String> = None;
    let mut atten: Option<String> = None;
    let mut i: usize = 0;
    assert(args_of(files@) =~= Seq::empty());
    while i < n
        invariant
            n == args@.len(),
            n == numbers@.len(),
            av == args_of(args@),
            i <= n,
            !wants_help(av),
            read_from(
                av,
                numbers@,
                0,
                ArgsView { files: Seq::empty(), weights: None, atten: None },
            ) == read_from(
                av,
                numbers@,
                i as nat,
                ArgsView {
                    files: args_of(files@),
                    weights: text_of(weights),
                    atten: text_of(atten),
                },
            ),
        decreases n - i,
    {
        let a = to_chars(args[i].as_str());
        assert(av[i as int] == a@);
        let ghost f0 = args_of(files@);
        if is_text(a.as_slice(), "-w") || is_text(a.as_slice(), "--weights") {
            if i + 1 >= n {
                return Err(Fault::NeedsDirectory);
            }
            assert(av[i + 1] == args@[i + 1]@);
            weights = Some(copy_of(&args[i + 1]));
            i = i + 2;
        } else if is_text(a.as_slice(), "-a") || is_text(a.as_slice(), "--atten") {
            if i + 1 >= n {
                return Err(Fault::NeedsNumber);
            }
            if !numbers[i + 1] {
                return Err(Fault::NotANumber(i + 1));
            }
            assert(av[i + 1] == args@[i + 1]@);
            atten = Some(copy_of(&args[i + 1]));
            i = i + 2;
        } else if starts_with(a.as_slice(), "-") {
            return Err(Fault::UnknownFlag(copy_of(&args[i])));
        } else {
            files.push(copy_of(&args[i]));
            assert(args_of(files@) =~= f0.push(a@));
            i = i + 1;
        }
    }
    if files.len() != 2 {
        return Err(Fault::NeedsTwoFiles);
    }
    let input = copy_of(&files[0]);
    let output = copy_of(&files[1]);
    assert(args_of(files@) =~= seq![input@, output@]);
    Ok(Command::Run { input, output, weights, atten })
}

/// Where the weights are looked for: the directory that the command line names, else the one that
/// the environment names, else the current one.
pub fn weight_dir(flag: Option<String>, env: Option<String>) -> (r: String)
    ensures
        r@ == match (flag, env) {
            (Some(d), _) => d@,
            (None, Some(d)) => d@,
            (None, None) => "."@,
        },
{
    match flag {
        Some(d) => d,
        None => match env {
            Some(d) => d,
            None => ".".to_owned(),
        },
    }
}

/// The weight blob and the manifest in a directory.
pub fn weight_files(dir: &str) -> (r: (String, String))
    ensures
        r.0@ == dir@ + "/weights.bin"@,
        r.1@ == dir@ + "/weights.txt"@,
{
    let mut bin = dir.to_owned();
    bin.append("/weights.bin");
    let mut txt = dir.to_owned();
    txt.append("/weights.txt");
    (bin, txt)
}

} // verus!
