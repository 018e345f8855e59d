//! How command lines are read: argument by argument, from the front.
use vstd::prelude::*;

use crate::cli::{
    command_of, is_atten, is_help, is_weights, read_from, wants_help, ArgsView, FaultView,
};
use crate::manifest::law_numbers_read_back;
use crate::text::{decimal, parse_usize_spec, starts_with_spec};
use crate::tools::{tool_of, Tool};

verus! {

/// Nothing read yet.
pub open spec fn nothing() -> ArgsView {
    ArgsView { files: Seq::empty(), weights: None, atten: None }
}

/// The options and files of a whole command line.
pub open spec fn options(args: Seq<Seq<char>>, numbers: Seq<bool>) -> Result<ArgsView, FaultView> {
    read_from(args, numbers, 0, nothing())
}

/// What is read last, or else what was read before.
pub open spec fn last_of(before: Option<Seq<char>>, then: Option<Seq<char>>) -> Option<Seq<char>> {
    if then is Some {
        then
    } else {
        before
    }
}

/// What was read, and then what was read behind it.
pub open spec fn read_after(before: ArgsView, then: ArgsView) -> ArgsView {
    ArgsView {
        files: before.files + then.files,
        weights: last_of(before.weights, then.weights),
        atten: last_of(before.atten, then.atten),
    }
}

/// The same fault, `n` places further on.
pub open spec fn moved(e: FaultView, n: nat) -> FaultView {
    match e {
        FaultView::NotANumber(i) => FaultView::NotANumber(i + n),
        _ => e,
    }
}

/// A command line behind what was read before it.
pub open spec fn behind(
    before: ArgsView,
    n: nat,
    then: Result<ArgsView, FaultView>,
) -> Result<ArgsView, FaultView> {
    match then {
        Ok(o) => Ok(read_after(before, o)),
        Err(e) => Err(moved(e, n)),
    }
}

/// Reading on from place `n + i` of a line is reading from place `i` of the line without its first `n`
/// arguments, behind what was read before.
proof fn lemma_read_behind(
    args: Seq<Seq<char>>,
    numbers: Seq<bool>,
    n: nat,
    i: nat,
    before: ArgsView,
    acc: ArgsView,
)
    requires
        n + i <= args.len(),
        args.len() == numbers.len(),
    ensures
        read_from(args, numbers, n + i, read_after(before, acc)) == behind(
            before,
            n,
            read_from(args.skip(n as int), numbers.skip(n as int), i, acc),
        ),
    decreases args.len() - i,
{
    let (tail, marks) = (args.skip(n as int), numbers.skip(n as int));
    if n + i < args.len() {
        let a = args[n + i as int];
        assert(tail[i as int] == a);
        if is_weights(a) {
            if n + i + 1 < args.len() {
                let d = args[n + i + 1int];
                assert(tail[i as int + 1] == d);
                let next = ArgsView { weights: Some(d), ..acc };
                lemma_read_behind(args, numbers, n, i + 2, before, next);
                assert(read_after(before, next) == ArgsView {
                    weights: Some(d),
                    ..read_after(before, acc)
                });
            }
        } else if is_atten(a) {
            if n + i + 1 < args.len() {
                let d = args[n + i + 1int];
                assert(tail[i as int + 1] == d);
                assert(marks[i as int + 1] == numbers[n + i + 1int]);
                if numbers[n + i + 1int] {
                    let next = ArgsView { atten: Some(d), ..acc };
                    lemma_read_behind(args, numbers, n, i + 2, before, next);
                    assert(read_after(before, next) == ArgsView {
                        atten: Some(d),
                        ..read_after(before, acc)
                    });
                }
            }
        } else if !starts_with_spec(a, "-"@) {
            let next = ArgsView { files: acc.files.push(a), ..acc };
            lemma_read_behind(args, numbers, n, i + 1, before, next);
            assert(read_after(before, next).files =~= read_after(before, acc).files.push(a));
        }
    }
}

/// An empty line holds nothing.
pub proof fn law_an_empty_line_holds_nothing()
    ensures
        options(Seq::empty(), Seq::empty()) == Ok::<ArgsView, FaultView>(nothing()),
{
}

/// A line that starts with an argument without a dash names that file first, and then what the rest of
/// the line names.
pub proof fn law_files_are_named_in_order(
    f: Seq<char>,
    b: bool,
    args: Seq<Seq<char>>,
    numbers: Seq<bool>,
)
    requires
        args.len() == numbers.len(),
        f.len() == 0 || f[0] != '-',
    ensures
        options(seq![f] + args, seq![b] + numbers) == behind(
            ArgsView { files: seq![f], weights: None, atten: None },
            1,
            options(args, numbers),
        ),
{
    reveal_strlit("-");
    reveal_strlit("-w");
    reveal_strlit("--weights");
    reveal_strlit("-a");
    reveal_strlit("--atten");
    let (line, marks) = (seq![f] + args, seq![b] + numbers);
    assert(line[0] == f);
    assert(line.skip(1) =~= args);
    assert(marks.skip(1) =~= numbers);
    let before = ArgsView { files: seq![f], weights: None, atten: None };
    assert("-"@[0] == '-' && "-w"@[0] == '-' && "--weights"@[0] == '-' && "-a"@[0] == '-' && "--atten"@[0]
        == '-');
    assert(!is_weights(f) && !is_atten(f));
    if starts_with_spec(f, "-"@) {
        assert(f.take(1)[0] == f[0]);
    }
    assert(!starts_with_spec(f, "-"@));
    assert(nothing().files.push(f) =~= seq![f]);
    assert(read_after(before, nothing()) == before) by {
        assert(before.files + Seq::<Seq<char>>::empty() =~= before.files);
    }
    lemma_read_behind(line, marks, 1, 0, before, nothing());
}

/// A line that starts with the option of the weight directory names the directory behind it, unless the
/// rest of the line names another.
pub proof fn law_the_last_directory_counts(
    w: Seq<char>,
    d: Seq<char>,
    b: bool,
    c: bool,
    args: Seq<Seq<char>>,
    numbers: Seq<bool>,
)
    requires
        args.len() == numbers.len(),
        w == "-w"@ || w == "--weights"@,
    ensures
        options(seq![w, d] + args, seq![b, c] + numbers) == behind(
            ArgsView { files: Seq::empty(), weights: Some(d), atten: None },
            2,
            options(args, numbers),
        ),
        options(seq![w], seq![b]) == Err::<ArgsView, FaultView>(FaultView::NeedsDirectory),
{
    let (line, marks) = (seq![w, d] + args, seq![b, c] + numbers);
    assert(line[0] == w && line[1] == d);
    assert(line.skip(2) =~= args);
    assert(marks.skip(2) =~= numbers);
    let before = ArgsView { files: Seq::empty(), weights: Some(d), atten: None };
    assert(read_after(before, nothing()) == before) by {
        assert(before.files + Seq::<Seq<char>>::empty() =~= before.files);
    }
    lemma_read_behind(line, marks, 2, 0, before, nothing());
}

/// A line that starts with the option of the limit gives the number behind it, unless the rest of the
/// line gives another; what is behind it must be a number.
pub proof fn law_the_last_limit_counts(
    o: Seq<char>,
    d: Seq<char>,
    b: bool,
    c: bool,
    args: Seq<Seq<char>>,
    numbers: Seq<bool>,
)
    requires
        args.len() == numbers.len(),
        o == "-a"@ || o == "--atten"@,
    ensures
        c ==> options(seq![o, d] + args, seq![b, c] + numbers) == behind(
            ArgsView { files: Seq::empty(), weights: None, atten: Some(d) },
            2,
            options(args, numbers),
        ),
        !c ==> options(seq![o, d] + args, seq![b, c] + numbers) == Err::<ArgsView, FaultView>(
            FaultView::NotANumber(1),
        ),
        options(seq![o], seq![b]) == Err::<ArgsView, FaultView>(FaultView::NeedsNumber),
{
    reveal_strlit("-w");
    reveal_strlit("--weights");
    reveal_strlit("-a");
    reveal_strlit("--atten");
    let (line, marks) = (seq![o, d] + args, seq![b, c] + numbers);
    assert(line[0] == o && line[1] == d);
    assert(marks[1] == c);
    assert(line.skip(2) =~= args);
    assert(marks.skip(2) =~= numbers);
    assert(!is_weights(o)) by {
        assert("-w"@.len() == 2 && "-a"@.len() == 2 && "--weights"@.len() == 9 && "--atten"@.len() == 7);
        assert("-w"@[1] == 'w' && "-a"@[1] == 'a');
    }
    let before = ArgsView { files: Seq::empty(), weights: None, atten: Some(d) };
    assert(read_after(before, nothing()) == before) by {
        assert(before.files + Seq::<Seq<char>>::empty() =~= before.files);
    }
    lemma_read_behind(line, marks, 2, 0, before, nothing());
}

/// A line that starts with a dash and none of the options is refused for it.
pub proof fn law_unknown_flags_are_refused(
    a: Seq<char>,
    b: bool,
    args: Seq<Seq<char>>,
    numbers: Seq<bool>,
)
    requires
        a.len() > 0,
        a[0] == '-',
        a != "-w"@ && a != "--weights"@ && a != "-a"@ && a != "--atten"@,
    ensures
        options(seq![a] + args, seq![b] + numbers) == Err::<ArgsView, FaultView>(
            FaultView::UnknownFlag(a),
        ),
{
    reveal_strlit("-");
    let line = seq![a] + args;
    assert(line[0] == a);
    assert(starts_with_spec(a, "-"@)) by {
        assert(a.take(1) =~= "-"@);
    }
}

/// The usage is asked for by an empty line, and by `-h` or `--help` in any place, whatever else is wrong
/// with the line; by nothing else.
pub proof fn law_help_comes_first(args: Seq<Seq<char>>, numbers: Seq<bool>, i: int)
    ensures
        args.len() == 0 ==> command_of(args, numbers) == Ok::<Option<ArgsView>, FaultView>(None),
        0 <= i < args.len() && (args[i] == "-h"@ || args[i] == "--help"@) ==> command_of(args, numbers)
            == Ok::<Option<ArgsView>, FaultView>(None),
        command_of(args, numbers) == Ok::<Option<ArgsView>, FaultView>(None) ==> args.len() == 0 || (
        exists|k: int| 0 <= k < args.len() && (#[trigger] args[k] == "-h"@ || args[k] == "--help"@)),
{
    if 0 <= i < args.len() && is_help(args[i]) {
        assert(wants_help(args));
    }
    if wants_help(args) && args.len() > 0 {
        let k = choose|k: int| 0 <= k < args.len() && is_help(#[trigger] args[k]);
        assert(args[k] == "-h"@ || args[k] == "--help"@);
    }
}

/// Without a request for the usage, a line names two files, the one to read and the one to write, or it
/// is refused; a fault in its arguments comes before a wrong number of files.
pub proof fn law_two_files_are_needed(args: Seq<Seq<char>>, numbers: Seq<bool>)
    requires
        args.len() > 0,
        forall|k: int|
            0 <= k < args.len() ==> #[trigger] args[k] != "-h"@ && args[k] != "--help"@,
    ensures
        options(args, numbers) is Err ==> command_of(args, numbers) == Err::<
            Option<ArgsView>,
            FaultView,
        >(options(args, numbers)->Err_0),
        options(args, numbers) is Ok && options(args, numbers)->Ok_0.files.len() != 2 ==> command_of(
            args,
            numbers,
        ) == Err::<Option<ArgsView>, FaultView>(FaultView::NeedsTwoFiles),
        options(args, numbers) is Ok && options(args, numbers)->Ok_0.files.len() == 2 ==> command_of(
            args,
            numbers,
        ) == Ok::<Option<ArgsView>, FaultView>(Some(options(args, numbers)->Ok_0)),
{
    assert(!wants_help(args));
}

// ------------------------------------------------------------------ the development tool

/// The development tool takes its numbers in this order: seconds, repetitions, threads.
pub proof fn law_the_tool_reads_its_numbers(secs: usize, reps: usize, threads: usize, rest: Seq<Seq<char>>)
    ensures
        ({
            let (s, r, t) = (decimal(secs as nat), decimal(reps as nat), decimal(threads as nat));
            &&& tool_of(seq!["bench"@, s] + rest) == (Tool::Bench { secs })
            &&& tool_of(seq!["raw"@, s, r, t]) == (Tool::Raw { secs, reps, threads, nn: false })
            &&& tool_of(seq!["raw"@, s, r, t, "nn"@] + rest) == (Tool::Raw {
                secs,
                reps,
                threads,
                nn: true,
            })
        }),
{
    law_numbers_read_back(secs);
    law_numbers_read_back(reps);
    law_numbers_read_back(threads);
    reveal_strlit("verify");
    reveal_strlit("bench");
    reveal_strlit("raw");
    let (s, r, t) = (decimal(secs as nat), decimal(reps as nat), decimal(threads as nat));
    let x = seq!["bench"@, s] + rest;
    assert(x[0] == "bench"@ && x[1] == s);
    assert("bench"@.len() == 5 && "verify"@.len() == 6 && "raw"@.len() == 3);
    let y = seq!["raw"@, s, r, t, "nn"@] + rest;
    assert(y[0] == "raw"@ && y[1] == s && y[2] == r && y[3] == t && y[4] == "nn"@);
}

/// What is missing, or cannot be read, is five seconds, fifty repetitions and one thread.
pub proof fn law_the_tool_has_defaults(s: Seq<char>, r: Seq<char>, t: Seq<char>, n: Seq<char>)
    requires
        parse_usize_spec(s) is None,
        parse_usize_spec(r) is None,
        parse_usize_spec(t) is None,
        n != "nn"@,
    ensures
        ({
            let five = Tool::Raw { secs: 5, reps: 50, threads: 1, nn: false };
            &&& tool_of(seq!["bench"@]) == (Tool::Bench { secs: 5 })
            &&& tool_of(seq!["bench"@, s]) == (Tool::Bench { secs: 5 })
            &&& tool_of(seq!["raw"@]) == five
            &&& tool_of(seq!["raw"@, s]) == five
            &&& tool_of(seq!["raw"@, s, r]) == five
            &&& tool_of(seq!["raw"@, s, r, t]) == five
            &&& tool_of(seq!["raw"@, s, r, t, n]) == five
        }),
{
    reveal_strlit("verify");
    reveal_strlit("bench");
    reveal_strlit("raw");
    assert("bench"@.len() == 5 && "verify"@.len() == 6 && "raw"@.len() == 3);
}

/// Whatever is no word of the tool asks for its usage.
pub proof fn law_other_words_ask_for_the_usage(word: Seq<char>, rest: Seq<Seq<char>>)
    ensures
        tool_of(Seq::empty()) == Tool::Usage,
        word == "verify"@ ==> tool_of(seq![word] + rest) == Tool::Verify,
        word != "verify"@ && word != "bench"@ && word != "raw"@ ==> tool_of(seq![word] + rest)
            == Tool::Usage,
{
    assert((seq![word] + rest)[0] == word);
}

} // verus!
