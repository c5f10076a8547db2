//! The decisions of the command-line tool: which inputs it reads, which
//! combinations of options it refuses, and what it does with each converted
//! file.

use vstd::prelude::*;

verus! {

/// The path that stands for the standard input.
pub open spec fn stdin_path() -> Seq<char> {
    "-"@
}

/// The path names the standard input.
pub fn is_stdin(path: &str) -> (res: bool)
    ensures
        res == (path@ == stdin_path()),
{
    proof {
        reveal_strlit("-");
    }
    let n = path.unicode_len();
    if n != 1 {
        return false;
    }
    let c = path.get_char(0);
    proof {
        if c == '-' {
            assert(path@ =~= "-"@);
        }
    }
    c == '-'
}

/// A combination of options that the tool refuses.
#[derive(Clone, Copy, Debug, PartialEq, Eq, Structural)]
pub enum UsageError {
    /// `--inplace` with the standard input among the inputs.
    InplaceWithStdin,
    /// `--check` with the standard input among the inputs.
    CheckWithStdin,
}

impl UsageError {
    /// The message that reports the error.
    pub fn message(&self) -> (text: &'static str)
        ensures
            text@ == usage_message(*self),
    {
        match self {
            UsageError::InplaceWithStdin => "--inplace cannot be used with stdin",
            UsageError::CheckWithStdin => "--check cannot be used with stdin",
        }
    }
}

/// The message of a usage error.
pub open spec fn usage_message(e: UsageError) -> Seq<char> {
    match e {
        UsageError::InplaceWithStdin => "--inplace cannot be used with stdin"@,
        UsageError::CheckWithStdin => "--check cannot be used with stdin"@,
    }
}

/// Checks the combination of options: `--inplace` and `--check` cannot read
/// the standard input; `--inplace` is reported first.
pub fn check_usage(inplace: bool, check: bool, has_stdin: bool) -> (res: Result<(), UsageError>)
    ensures
        inplace && has_stdin ==> res == Err::<(), UsageError>(UsageError::InplaceWithStdin),
        !(inplace && has_stdin) && check && has_stdin ==> res == Err::<(), UsageError>(UsageError::CheckWithStdin),
        !(has_stdin && (inplace || check)) ==> res is Ok,
{
    if inplace && has_stdin {
        Err(UsageError::InplaceWithStdin)
    } else if check && has_stdin {
        Err(UsageError::CheckWithStdin)
    } else {
        Ok(())
    }
}

/// Keys are sorted when `--sort` is given and `--no-sort` is not in force.
pub fn sort_requested(sort: bool, no_sort: bool) -> (res: bool)
    ensures
        res == (sort && !no_sort),
{
    sort && !no_sort
}

/// What the tool does with each converted file.
#[derive(Clone, Copy, Debug, PartialEq, Eq, Structural)]
pub enum Mode {
    /// Reports the files whose text would change, and writes nothing.
    Check,
    /// Writes the output back to the file.
    InPlace,
    /// Prints the output.
    Print,
}

/// The mode that the options select: `--check` wins over `--inplace`.
pub fn select_mode(check: bool, inplace: bool) -> (mode: Mode)
    ensures
        check ==> mode == Mode::Check,
        !check && inplace ==> mode == Mode::InPlace,
        !check && !inplace ==> mode == Mode::Print,
{
    if check {
        Mode::Check
    } else if inplace {
        Mode::InPlace
    } else {
        Mode::Print
    }
}

/// What to do with one converted file.
#[derive(Debug, PartialEq, Eq)]
pub enum Action {
    /// Name the file as one that would change.
    Report,
    /// Nothing to do.
    Keep,
    /// Write this text to the file.
    Write(String),
    /// Print this text.
    Print(String),
}

/// The output of a file as written or printed: the JSON text and a newline.
pub open spec fn output_text(output: Seq<char>) -> Seq<char> {
    output + "\n"@
}

/// A file would change: its text differs from its output and a newline.
pub open spec fn would_change(input: Seq<char>, output: Seq<char>) -> bool {
    input != output_text(output)
}

/// What the tool does with a file, as a mathematical value.
pub enum Deed {
    Report,
    Keep,
    Write(Seq<char>),
    Print(Seq<char>),
}

/// The deed that an action stands for.
pub open spec fn deed_of(action: Action) -> Deed {
    match action {
        Action::Report => Deed::Report,
        Action::Keep => Deed::Keep,
        Action::Write(text) => Deed::Write(text@),
        Action::Print(text) => Deed::Print(text@),
    }
}

/// What the tool does with a file whose text was `input` and whose
/// conversion is `output`: in check mode it reports the file if it would
/// change and keeps it otherwise; in place it writes the output and a
/// newline to the file; otherwise it prints them.
pub open spec fn file_deed(mode: Mode, input: Seq<char>, output: Seq<char>) -> Deed {
    match mode {
        Mode::Check => if would_change(input, output) {
            Deed::Report
        } else {
            Deed::Keep
        },
        Mode::InPlace => Deed::Write(output_text(output)),
        Mode::Print => Deed::Print(output_text(output)),
    }
}

/// The tool's steps over files in order (`inputs[i]` the text of file `i`,
/// `outputs[i]` its conversion), from `changed`: whether some file would
/// change in the end, and what it does with each file.
pub open spec fn run_steps(changed: bool, mode: Mode, inputs: Seq<Seq<char>>, outputs: Seq<Seq<char>>) -> (bool, Seq<Deed>)
    decreases inputs.len(),
{
    if inputs.len() == 0 || outputs.len() == 0 {
        (changed, Seq::empty())
    } else {
        let now = changed || (mode == Mode::Check && would_change(inputs[0], outputs[0]));
        let rest = run_steps(now, mode, inputs.drop_first(), outputs.drop_first());
        (rest.0, seq![file_deed(mode, inputs[0], outputs[0])] + rest.1)
    }
}

/// Over all files, in order: the tool does with file `i` what `file_deed`
/// says, and in the end some file would change exactly when one did so
/// before, or the mode is check mode and some file's text differs from its
/// output and a newline. So check mode reports exactly the files that would
/// change, in order, and writes and prints nothing; the other modes write or
/// print each output and a newline, in order, and report nothing.
pub proof fn lemma_run_steps(changed: bool, mode: Mode, inputs: Seq<Seq<char>>, outputs: Seq<Seq<char>>)
    requires
        inputs.len() == outputs.len(),
    ensures
        run_steps(changed, mode, inputs, outputs).1.len() == inputs.len(),
        forall|i: int| 0 <= i < inputs.len() ==> #[trigger] run_steps(changed, mode, inputs, outputs).1[i]
            == file_deed(mode, inputs[i], outputs[i]),
        run_steps(changed, mode, inputs, outputs).0 == (changed || (mode == Mode::Check && exists|i: int|
            0 <= i < inputs.len() && #[trigger] would_change(inputs[i], outputs[i]))),
    decreases inputs.len(),
{
    if inputs.len() > 0 {
        let now = changed || (mode == Mode::Check && would_change(inputs[0], outputs[0]));
        let ins = inputs.drop_first();
        let outs = outputs.drop_first();
        lemma_run_steps(now, mode, ins, outs);
        let r = run_steps(changed, mode, inputs, outputs);
        assert forall|i: int| 0 <= i < inputs.len() implies #[trigger] r.1[i] == file_deed(mode, inputs[i], outputs[i]) by {
            if i > 0 {
                assert(r.1[i] == run_steps(now, mode, ins, outs).1[i - 1]);
                assert(ins[i - 1] == inputs[i] && outs[i - 1] == outputs[i]);
            }
        }
        if mode == Mode::Check {
            if exists|i: int| 0 <= i < inputs.len() && #[trigger] would_change(inputs[i], outputs[i]) {
                let i = choose|i: int| 0 <= i < inputs.len() && #[trigger] would_change(inputs[i], outputs[i]);
                if i > 0 {
                    assert(would_change(ins[i - 1], outs[i - 1]));
                }
            }
            if exists|i: int| 0 <= i < ins.len() && #[trigger] would_change(ins[i], outs[i]) {
                let i = choose|i: int| 0 <= i < ins.len() && #[trigger] would_change(ins[i], outs[i]);
                assert(would_change(inputs[i + 1], outputs[i + 1]));
            }
        }
    }
}

/// The step of the tool for one file, whose text was `input` and whose
/// conversion is `output`: what to do with it, and whether some file so far
/// would change. A file would change when its text differs from its output
/// followed by a newline.
pub fn file_step(changed_so_far: bool, mode: Mode, input: &str, output: &str) -> (res: (bool, Action))
    ensures
        res.0 == (changed_so_far || (mode == Mode::Check && input@ != output_text(output@))),
        mode == Mode::Check ==> (res.1 == Action::Report <==> input@ != output_text(output@)),
        mode == Mode::Check && input@ == output_text(output@) ==> res.1 == Action::Keep,
        mode == Mode::InPlace ==> (res.1 matches Action::Write(text) && text@ == output_text(output@)),
        mode == Mode::Print ==> (res.1 matches Action::Print(text) && text@ == output_text(output@)),
        deed_of(res.1) == file_deed(mode, input@, output@),
{
    let mut text = output.to_owned();
    text.append("\n");
    match mode {
        Mode::Check => {
            let original = input.to_owned();
            if original == text {
                (changed_so_far, Action::Keep)
            } else {
                (true, Action::Report)
            }
        },
        Mode::InPlace => (changed_so_far, Action::Write(text)),
        Mode::Print => (changed_so_far, Action::Print(text)),
    }
}

} // verus!
