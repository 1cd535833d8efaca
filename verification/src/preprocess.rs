//! Preprocessor plugin protocol.
//!
//! A preprocessor is any executable that:
//! 1. Reads UTF-8 lines from stdin
//! 2. Writes 0 or 1 UTF-8 lines to stdout per input line (0 if all tokens filtered)
//! 3. Flushes stdout after each line (or after producing no output for a line)
//! 4. Passes ASCII-only single-word lines through unchanged (required for sentinel protocol)
//! 5. Stays alive between lines (no exit-per-line)
//!
//! After each content line the sentinel (ASCII-only) is sent too, and the subprocess echoes it
//! unchanged. Output is read until the sentinel comes, so a dropped content line does not
//! deadlock.
//!
//! Here is decided what to send, what an answer means and what comes next. The caller runs the
//! subprocesses.

use vstd::prelude::*;
use vstd::utf8::*;

use crate::text;
use crate::text::lines;
use crate::text::words;

verus! {

broadcast use vstd::utf8::encode_utf8_valid_utf8;

/// ASCII-only: passes through all language filters unchanged.
pub const SENTINEL: &'static str = "IRSENTINEL";

/// The program and the arguments that a command names.
pub open spec fn command_words(command: Seq<char>) -> Option<(Seq<char>, Seq<Seq<char>>)> {
    let parts = words::words(command);
    if parts.len() == 0 {
        None
    } else {
        Some((parts[0], parts.skip(1)))
    }
}

/// Takes a command (e.g. "mecab -Owakati") apart: the program and its arguments. Paths with
/// spaces are not supported. `None` for a command without a word.
pub fn parse_command(command: &str) -> (r: Option<(String, Vec<String>)>)
    ensures
        r is None <==> command_words(command@) is None,
        r matches Some((program, args)) ==> command_words(command@) == Some(
            (program@, lines::texts(args@)),
        ),
{
    let parts = words::split_words(command);
    let ghost ps = lines::views(parts@);
    if parts.len() == 0 {
        return None;
    }
    let program = parts[0].to_owned();
    let mut args: Vec<String> = Vec::new();
    let mut i: usize = 1;
    while i < parts.len()
        invariant
            1 <= i <= parts@.len(),
            ps == lines::views(parts@),
            args@.len() == i - 1,
            forall|j: int| 0 <= j < args@.len() ==> (#[trigger] args@[j])@ == ps[j + 1],
        decreases parts.len() - i,
    {
        args.push(parts[i].to_owned());
        i += 1;
    }
    proof {
        assert(lines::texts(args@) =~= ps.skip(1));
    }
    Some((program, args))
}

/// `s` without the line feeds at its end.
pub open spec fn strip_line_feeds(s: Seq<char>) -> Seq<char>
    decreases s.len(),
{
    if s.len() > 0 && s.last() == '\n' {
        strip_line_feeds(s.drop_last())
    } else {
        s
    }
}

/// What is sent for a line: the line and the sentinel.
pub open spec fn message(line: Seq<char>) -> Seq<char> {
    line + seq!['\n'] + SENTINEL@ + seq!['\n']
}

/// What to do next.
#[derive(Debug, Clone)]
pub enum Action {
    /// Send the message to a subprocess, then read a line from it.
    Ask { handle: usize, message: String },
    /// Read one more line from the subprocess.
    Read { handle: usize },
    /// All subprocesses have had the text: this is the result.
    Finish { text: String },
}

/// What to do next, as a mathematical value.
pub ghost enum Next {
    Ask(int, Seq<char>),
    Read(int),
    Finish(Seq<char>),
}

impl View for Action {
    type V = Next;

    open spec fn view(&self) -> Next {
        match *self {
            Action::Ask { handle, message } => Next::Ask(handle as int, message@),
            Action::Read { handle } => Next::Read(handle as int),
            Action::Finish { text } => Next::Finish(text@),
        }
    }
}

/// A text on its way through a chain of subprocesses, each of which gets it line by line.
#[derive(Debug, Clone)]
pub struct Run {
    /// Number of subprocesses.
    pub handles: usize,
    /// The one that has the text now.
    pub handle: usize,
    /// The lines that it gets.
    pub lines: Vec<String>,
    /// What it answered to the lines so far.
    pub answers: Vec<String>,
    /// What came so far of the answer to the line at hand.
    pub parts: Vec<String>,
}

/// The state of a run, as a mathematical value.
#[verifier::ext_equal]
pub ghost struct RunState {
    pub handles: int,
    pub handle: int,
    pub lines: Seq<Seq<char>>,
    pub answers: Seq<Seq<char>>,
    pub parts: Seq<Seq<char>>,
}

impl View for Run {
    type V = RunState;

    open spec fn view(&self) -> RunState {
        RunState {
            handles: self.handles as int,
            handle: self.handle as int,
            lines: lines::texts(self.lines@),
            answers: lines::texts(self.answers@),
            parts: lines::texts(self.parts@),
        }
    }
}

impl RunState {
    /// A subprocess has the text, and not all of its lines are answered.
    pub open spec fn is_open(self) -> bool {
        &&& 0 <= self.handle < self.handles
        &&& self.answers.len() < self.lines.len()
    }
}

/// The step of a run between two answers: blank lines are answered at once, a line that is not
/// blank is sent, and a text that is answered whole goes on to the next subprocess.
pub open spec fn go_on(run: RunState) -> (RunState, Next)
    decreases run.handles - run.handle, run.lines.len() - run.answers.len(),
{
    if run.answers.len() >= run.lines.len() {
        let text = lines::join(run.answers, seq!['\n']);
        if run.handle + 1 >= run.handles {
            (run, Next::Finish(text))
        } else {
            go_on(
                RunState {
                    handle: run.handle + 1,
                    lines: lines::split(text, '\n'),
                    answers: Seq::empty(),
                    ..run
                },
            )
        }
    } else {
        let line = run.lines[run.answers.len() as int];
        if words::all_blank(line) {
            go_on(RunState { answers: run.answers.push(Seq::empty()), ..run })
        } else {
            (run, Next::Ask(run.handle, message(line)))
        }
    }
}

/// The state at the start of a run.
pub open spec fn first_state(text: Seq<char>, handles: int) -> RunState {
    RunState {
        handles,
        handle: 0,
        lines: lines::split(text, '\n'),
        answers: Seq::empty(),
        parts: Seq::empty(),
    }
}

/// The start of a run: without a subprocess the text is the result.
pub open spec fn begun(text: Seq<char>, handles: int) -> (RunState, Next) {
    if handles <= 0 {
        (first_state(text, handles), Next::Finish(text))
    } else {
        go_on(first_state(text, handles))
    }
}

/// The step of a run when the answer to a line is complete: its parts, with blanks between.
pub open spec fn line_answered(run: RunState) -> (RunState, Next) {
    go_on(
        RunState {
            answers: run.answers.push(lines::join(run.parts, seq![' '])),
            parts: Seq::empty(),
            ..run
        },
    )
}

/// The step of a run when a line was read, or the subprocess has ended its output.
pub open spec fn after_read(run: RunState, read: Option<Seq<char>>) -> (RunState, Next) {
    match read {
        Some(raw) => {
            let s = strip_line_feeds(raw);
            if s == SENTINEL@ {
                line_answered(run)
            } else {
                (RunState { parts: run.parts.push(s), ..run }, Next::Read(run.handle))
            }
        },
        None => line_answered(run),
    }
}

/// A text without the line feeds at its end.
fn without_line_feeds(s: &str) -> (r: &str)
    ensures
        r@ == strip_line_feeds(s@),
{
    let mut rest: &str = s;
    loop
        invariant_except_break
            strip_line_feeds(rest@) == strip_line_feeds(s@),
        ensures
            rest@ == strip_line_feeds(s@),
        decreases rest@.len(),
    {
        let bytes = rest.as_bytes();
        let n: usize = bytes.len();
        if n == 0 || bytes[n - 1] != 10 {
            proof {
                if rest@.len() > 0 && rest@.last() == '\n' {
                    let i = rest@.len() - 1;
                    lines::lemma_ascii_byte(rest@, i);
                    assert(rest@.take(i + 1) =~= rest@);
                }
            }
            break;
        }
        let ghost i = lines::lemma_ascii_at(rest@, n - 1);
        proof {
            lines::lemma_ascii_byte(rest@, i);
            let tail = rest@.skip(i + 1);
            assert(rest@ =~= rest@.take(i + 1) + tail);
            text::lemma_encode_concat(rest@.take(i + 1), tail);
            if tail.len() > 0 {
                encode_utf8_first_scalar(tail);
            }
            assert(i == rest@.len() - 1);
            assert(rest@.take(i) =~= rest@.drop_last());
        }
        let (front, back) = text::split_str(rest, n - 1);
        proof {
            text::lemma_same_prefix(rest@, front@, back@, i);
        }
        rest = front;
    }
    rest
}

fn owned_lines(text: &str) -> (r: Vec<String>)
    ensures
        lines::texts(r@) == lines::split(text@, '\n'),
{
    let parts = lines::split_on(text, '\n');
    let mut r: Vec<String> = Vec::new();
    let mut i: usize = 0;
    while i < parts.len()
        invariant
            i <= parts@.len(),
            r@.len() == i,
            forall|j: int| 0 <= j < i ==> (#[trigger] r@[j])@ == parts@[j]@,
        decreases parts.len() - i,
    {
        r.push(parts[i].to_owned());
        i += 1;
    }
    proof {
        assert(lines::texts(r@) =~= lines::views(parts@));
    }
    r
}

fn message_for(line: &str) -> (r: String)
    ensures
        r@ == message(line@),
{
    proof {
        reveal_strlit("\n");
        assert("\n"@ =~= seq!['\n']);
    }
    let mut r = line.to_owned();
    r.append("\n");
    r.append(SENTINEL);
    r.append("\n");
    r
}

/// Takes a run to the next line that has to be sent, or to its end.
fn proceed(run: &mut Run) -> (action: Action)
    requires
        0 <= old(run)@.handle < old(run)@.handles,
        old(run)@.answers.len() <= old(run)@.lines.len(),
    ensures
        (final(run)@, action@) == go_on(old(run)@),
        action@ is Ask ==> final(run)@.is_open(),
        action@ !is Read,
{
    let ghost start = run@;
    proof {
        reveal_strlit("\n");
        assert("\n"@ =~= seq!['\n']);
        reveal_strlit("");
        assert(""@ =~= Seq::<char>::empty());
    }
    loop
        invariant
            0 <= run@.handle < run@.handles,
            run@.answers.len() <= run@.lines.len(),
            start == old(run)@,
            go_on(run@) == go_on(start),
            "\n"@ == seq!['\n'],
            ""@ == Seq::<char>::empty(),
        decreases run@.handles - run@.handle, run@.lines.len() - run@.answers.len(),
    {
        if run.answers.len() < run.lines.len() {
            let line = run.lines[run.answers.len()].as_str();
            proof {
                assert(run@.lines[run@.answers.len() as int] == line@);
            }
            if words::is_all_blank(line) {
                let ghost before = run@;
                run.answers.push("".to_owned());
                proof {
                    assert(run@ =~= RunState {
                        answers: before.answers.push(Seq::empty()),
                        ..before
                    });
                }
            } else {
                let message = message_for(line);
                return Action::Ask { handle: run.handle, message };
            }
        } else {
            let text = lines::join_with(&run.answers, "\n");
            if run.handle + 1 >= run.handles {
                return Action::Finish { text };
            }
            let ghost before = run@;
            run.handle = run.handle + 1;
            run.lines = owned_lines(text.as_str());
            run.answers = Vec::new();
            proof {
                assert(run@ =~= RunState {
                    handle: before.handle + 1,
                    lines: lines::split(text@, '\n'),
                    answers: Seq::empty(),
                    ..before
                });
            }
        }
    }
}

/// Starts to take a text through a chain of subprocesses.
pub fn start(text: &str, handles: usize) -> (r: (Run, Action))
    ensures
        (r.0@, r.1@) == begun(text@, handles as int),
        r.1@ is Ask ==> r.0@.is_open(),
        r.1@ !is Read,
{
    let mut run = Run {
        handles,
        handle: 0,
        lines: owned_lines(text),
        answers: Vec::new(),
        parts: Vec::new(),
    };
    proof {
        assert(run@ =~= first_state(text@, handles as int));
    }
    if handles == 0 {
        return (run, Action::Finish { text: text.to_owned() });
    }
    let action = proceed(&mut run);
    (run, action)
}

/// Starts to take a single line through one subprocess.
pub fn start_line(line: &str) -> (r: (Run, Action))
    ensures
        (r.0@, r.1@) == go_on(
            RunState {
                handles: 1,
                handle: 0,
                lines: seq![line@],
                answers: Seq::empty(),
                parts: Seq::empty(),
            },
        ),
        r.1@ is Ask ==> r.0@.is_open(),
        r.1@ !is Read,
{
    let mut one: Vec<String> = Vec::new();
    one.push(line.to_owned());
    let mut run = Run { handles: 1, handle: 0, lines: one, answers: Vec::new(), parts: Vec::new() };
    proof {
        assert(run@ =~= RunState {
            handles: 1,
            handle: 0,
            lines: seq![line@],
            answers: Seq::empty(),
            parts: Seq::empty(),
        });
    }
    let action = proceed(&mut run);
    (run, action)
}

/// Takes in a line that was read from the subprocess at hand; `None` when it has ended its output
/// (it exited unexpectedly, which ends the answer).
pub fn accept(run: &mut Run, read: Option<&str>) -> (action: Action)
    requires
        old(run)@.is_open(),
    ensures
        (final(run)@, action@) == after_read(
            old(run)@,
            match read {
                Some(raw) => Some(raw@),
                None => None,
            },
        ),
        action@ !is Finish ==> final(run)@.is_open(),
{
    let ghost before = run@;
    if let Some(raw) = read {
        let s = without_line_feeds(raw);
        if !words::same(s, SENTINEL) {
            run.parts.push(s.to_owned());
            proof {
                assert(run@ =~= RunState { parts: before.parts.push(s@), ..before });
            }
            return Action::Read { handle: run.handle };
        }
    }
    proof {
        reveal_strlit(" ");
        assert(" "@ =~= seq![' ']);
    }
    let answer = lines::join_with(&run.parts, " ");
    run.answers.push(answer);
    run.parts = Vec::new();
    proof {
        assert(run@ =~= RunState {
            answers: before.answers.push(lines::join(before.parts, seq![' '])),
            parts: Seq::empty(),
            ..before
        });
    }
    proceed(run)
}

/// The query to search with: what the chain made of it, or the raw query if there is no command,
/// no subprocess started, or the chain failed.
pub fn chosen_query(query: &str, commands: usize, started: usize, outcome: Option<String>) -> (r:
    String)
    ensures
        r@ == (match outcome {
            Some(text) if commands > 0 && started > 0 => text@,
            _ => query@,
        }),
        commands == 0 || started == 0 || outcome is None ==> r@ == query@,
        commands != 0 && started != 0 ==> (outcome matches Some(text) ==> r@ == text@),
{
    match outcome {
        Some(text) if commands > 0 && started > 0 => text,
        _ => query.to_owned(),
    }
}

} // verus!
