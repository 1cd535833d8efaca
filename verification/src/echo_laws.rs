//! What is sent to a preprocessor, and what a chain gives back that echoes all it is sent.

use vstd::prelude::*;

use crate::preprocess;
use crate::preprocess::{Next, RunState};
use crate::preprocess_laws;
use crate::text::laws;
use crate::text::lines;
use crate::text::words;

verus! {

/// The sentinel is one word of ASCII letters, so that preprocessors pass it through.
pub proof fn law_sentinel_is_one_word()
    ensures
        preprocess::SENTINEL@.len() > 0,
        forall|i: int|
            0 <= i < preprocess::SENTINEL@.len() ==> 'A' <= (#[trigger] preprocess::SENTINEL@[i])
                <= 'Z',
        words::words(preprocess::SENTINEL@) == seq![preprocess::SENTINEL@],
{
    reveal_strlit("IRSENTINEL");
    let s = preprocess::SENTINEL@;
    assert(s =~= seq!['I', 'R', 'S', 'E', 'N', 'T', 'I', 'N', 'E', 'L']);
    let none = Seq::<char>::empty();
    assert(none + s + none =~= s);
    laws::law_first_word(none, s, none);
    laws::law_blanks_have_no_words(none);
    assert(seq![s] + words::words(none) =~= seq![s]);
}

/// Only the line feeds at the end of what was read are cut off, and all of them.
pub proof fn law_line_feeds_are_stripped(s: Seq<char>, n: nat)
    requires
        s.len() > 0 ==> s.last() != '\n',
    ensures
        preprocess::strip_line_feeds(s + Seq::new(n, |i: int| '\n')) == s,
    decreases n,
{
    let feeds = Seq::new(n, |i: int| '\n');
    if n == 0 {
        assert(s + feeds =~= s);
    } else {
        law_line_feeds_are_stripped(s, (n - 1) as nat);
        let fewer = Seq::new((n - 1) as nat, |i: int| '\n');
        assert((s + feeds).drop_last() =~= s + fewer);
        assert((s + feeds).last() == '\n');
    }
}

/// A command names its first word as the program, and the others as the arguments, in order; one
/// of blanks names none.
pub proof fn law_command_is_program_and_arguments(
    front: Seq<char>,
    program: Seq<char>,
    rest: Seq<char>,
)
    requires
        forall|i: int| 0 <= i < front.len() ==> words::is_blank(#[trigger] front[i]),
        program.len() > 0,
        forall|i: int| 0 <= i < program.len() ==> !words::is_blank(#[trigger] program[i]),
        rest.len() > 0 ==> words::is_blank(rest[0]),
    ensures
        preprocess::command_words(front) is None,
        preprocess::command_words(front + program + rest) == Some(
            (program, words::words(rest)),
        ),
{
    laws::law_blanks_have_no_words(front);
    laws::law_first_word(front, program, rest);
    assert((seq![program] + words::words(rest)).skip(1) =~= words::words(rest));
}

/// What is sent is the line at hand as it is, whatever blanks it has, then a line feed, the
/// sentinel and a line feed. It goes to the subprocess at hand, and only if the line is not blank.
pub proof fn law_line_is_sent_as_it_is(run: RunState)
    requires
        0 <= run.handle < run.handles,
        run.answers.len() <= run.lines.len(),
    ensures
        ({
            let (after, next) = preprocess::go_on(run);
            next matches Next::Ask(handle, message) ==> {
                &&& handle == after.handle
                &&& after.answers.len() < after.lines.len()
                &&& message == after.lines[after.answers.len() as int] + seq!['\n']
                    + preprocess::SENTINEL@ + seq!['\n']
                &&& exists|i: int|
                    0 <= i < after.lines[after.answers.len() as int].len() && !words::is_blank(
                        #[trigger] after.lines[after.answers.len() as int][i],
                    )
            }
        }),
    decreases run.handles - run.handle, run.lines.len() - run.answers.len(),
{
    let n = run.answers.len() as int;
    if n == run.lines.len() {
        let text = lines::join(run.answers, seq!['\n']);
        if run.handle + 1 < run.handles {
            law_line_is_sent_as_it_is(
                RunState {
                    handle: run.handle + 1,
                    lines: lines::split(text, '\n'),
                    answers: Seq::empty(),
                    ..run
                },
            );
        }
    } else if words::all_blank(run.lines[n]) {
        law_line_is_sent_as_it_is(RunState { answers: run.answers.push(Seq::empty()), ..run });
    } else {
        let line = run.lines[n];
        let i = choose|i: int| 0 <= i < line.len() && !words::is_blank(#[trigger] line[i]);
        assert(!words::is_blank(run.lines[n][i]));
    }
}

/// A single line is sent as it is, or, if it is blank, answered at once by an empty text.
pub proof fn law_single_line(line: Seq<char>)
    ensures
        ({
            let run = RunState {
                handles: 1,
                handle: 0,
                lines: seq![line],
                answers: Seq::empty(),
                parts: Seq::empty(),
            };
            let next = preprocess::go_on(run).1;
            &&& (forall|i: int| 0 <= i < line.len() ==> words::is_blank(#[trigger] line[i]))
                ==> next == Next::Finish(Seq::empty())
            &&& (exists|i: int| 0 <= i < line.len() && !words::is_blank(#[trigger] line[i]))
                ==> next == Next::Ask(
                0,
                line + seq!['\n'] + preprocess::SENTINEL@ + seq!['\n'],
            )
        }),
{
    reveal_with_fuel(preprocess::go_on, 2);
    let none = Seq::<char>::empty();
    lines::lemma_join_one(none, seq!['\n']);
    assert(Seq::<Seq<char>>::empty().push(none) =~= seq![none]);
}

/// What a subprocess writes that echoes each line of a message: the lines, each with its end.
pub open spec fn echoed(message: Seq<char>) -> Seq<Seq<char>> {
    let parts = lines::split(message, '\n');
    Seq::new((parts.len() - 1) as nat, |i: int| parts[i] + seq!['\n'])
}

/// A run after at most `n` messages to subprocesses that echo each line of what they are sent.
pub open spec fn echo_run(at: (RunState, Next), n: nat) -> (RunState, Next)
    decreases n,
{
    match at.1 {
        Next::Ask(_, message) if n > 0 => echo_run(
            preprocess_laws::after_reads(at.0, echoed(message)),
            (n - 1) as nat,
        ),
        _ => at,
    }
}

/// The lines up to the one at hand were answered by themselves.
spec fn is_echoing(run: RunState, ls: Seq<Seq<char>>) -> bool {
    &&& 0 <= run.handle < run.handles
    &&& run.lines == ls
    &&& run.answers.len() <= ls.len()
    &&& run.answers == ls.take(run.answers.len() as int)
    &&& run.parts.len() == 0
}

/// How many messages a run has still to send at most.
spec fn to_send(run: RunState) -> int {
    (run.handles - run.handle) * run.lines.len() - run.answers.len()
}

/// The lines of a text whose blank lines are empty, and of which none is the sentinel.
pub open spec fn passes_unchanged(ls: Seq<Seq<char>>) -> bool {
    forall|i: int|
        0 <= i < ls.len() ==> #[trigger] ls[i] != preprocess::SENTINEL@ && (words::all_blank(ls[i])
            ==> ls[i].len() == 0)
}

proof fn lemma_go_on_echoing(run: RunState, text: Seq<char>)
    requires
        is_echoing(run, lines::split(text, '\n')),
        passes_unchanged(lines::split(text, '\n')),
    ensures
        ({
            let (after, next) = preprocess::go_on(run);
            match next {
                Next::Finish(t) => t == text,
                Next::Ask(_, message) => {
                    &&& is_echoing(after, lines::split(text, '\n'))
                    &&& after.answers.len() < after.lines.len()
                    &&& message == after.lines[after.answers.len() as int] + seq!['\n']
                        + preprocess::SENTINEL@ + seq!['\n']
                    &&& to_send(after) <= to_send(run)
                    &&& after.handles == run.handles
                },
                Next::Read(_) => false,
            }
        }),
    decreases run.handles - run.handle, run.lines.len() - run.answers.len(),
{
    let ls = lines::split(text, '\n');
    let n = run.answers.len() as int;
    let len = ls.len() as int;
    if n == ls.len() {
        assert(ls.take(n) =~= ls);
        lines::law_join_of_split(text, '\n');
        if run.handle + 1 < run.handles {
            let next = RunState {
                handle: run.handle + 1,
                lines: ls,
                answers: Seq::empty(),
                ..run
            };
            assert(next.answers =~= ls.take(0));
            assert((run.handles - run.handle) * len - len == (run.handles - (run.handle + 1)) * len)
                by (nonlinear_arith);
            lemma_go_on_echoing(next, text);
        }
    } else if words::all_blank(ls[n]) {
        let next = RunState { answers: run.answers.push(Seq::empty()), ..run };
        assert(ls[n] =~= Seq::<char>::empty());
        assert(next.answers =~= ls.take(n + 1));
        lemma_go_on_echoing(next, text);
    }
}

proof fn lemma_pieces_hold_no_separator(s: Seq<char>, c: char)
    ensures
        forall|i: int, j: int|
            0 <= i < lines::split(s, c).len() && 0 <= j < lines::split(s, c)[i].len() ==> (
            #[trigger] lines::split(s, c)[i][j]) != c,
    decreases s.len(),
{
    lines::lemma_find(s, c);
    let k = lines::find(s, c);
    if k < s.len() {
        let rest = s.skip(k + 1);
        lemma_pieces_hold_no_separator(rest, c);
        let parts = lines::split(s, c);
        assert forall|i: int, j: int|
            0 <= i < parts.len() && 0 <= j < parts[i].len() implies (#[trigger] parts[i][j])
            != c by {
            if i == 0 {
                assert(parts[i][j] == s[j]);
            } else {
                assert(parts[i] == lines::split(rest, c)[i - 1]);
            }
        }
    }
}

proof fn lemma_echo_step(run: RunState, text: Seq<char>, line: Seq<char>)
    requires
        is_echoing(run, lines::split(text, '\n')),
        passes_unchanged(lines::split(text, '\n')),
        run.answers.len() < run.lines.len(),
        line == run.lines[run.answers.len() as int],
    ensures
        preprocess_laws::after_reads(
            run,
            echoed(line + seq!['\n'] + preprocess::SENTINEL@ + seq!['\n']),
        ) == preprocess::go_on(RunState { answers: run.answers.push(line), ..run }),
{
    let ls = lines::split(text, '\n');
    let n = run.answers.len() as int;
    let end = preprocess::SENTINEL@;
    let none = Seq::<char>::empty();
    law_sentinel_is_one_word();
    lemma_pieces_hold_no_separator(text, '\n');
    assert forall|j: int| 0 <= j < line.len() implies #[trigger] line[j] != '\n' by {
        assert(ls[n][j] != '\n');
    }
    let message = line + seq!['\n'] + end + seq!['\n'];
    let back = end + seq!['\n'] + none;
    assert(message =~= line + seq!['\n'] + back);
    laws::law_first_piece(line, '\n', back);
    laws::law_first_piece(end, '\n', none);
    laws::law_first_piece(none, '\n', none);
    let parts = lines::split(message, '\n');
    assert(parts =~= seq![line, end, none]);
    let first = line + seq!['\n'];
    let last = end + seq!['\n'];
    assert(echoed(message) =~= seq![first].push(last));
    assert(seq!['\n'] =~= Seq::new(1, |i: int| '\n'));
    law_line_feeds_are_stripped(line, 1);
    law_line_feeds_are_stripped(end, 1);
    let reads = seq![first];
    assert(reads[0] == first);
    preprocess_laws::law_answer_ends_at_sentinel(run, reads, last);
    assert(run.parts + preprocess_laws::stripped(reads) =~= seq![line]);
    lines::lemma_join_one(line, seq![' ']);
    assert(run.parts =~= Seq::<Seq<char>>::empty());
}

proof fn lemma_echo_run(at: (RunState, Next), text: Seq<char>, n: nat)
    requires
        passes_unchanged(lines::split(text, '\n')),
        match at.1 {
            Next::Finish(t) => t == text,
            Next::Ask(_, message) => {
                let run = at.0;
                &&& is_echoing(run, lines::split(text, '\n'))
                &&& run.answers.len() < run.lines.len()
                &&& message == run.lines[run.answers.len() as int] + seq!['\n']
                    + preprocess::SENTINEL@ + seq!['\n']
                &&& to_send(run) <= n
            },
            Next::Read(_) => false,
        },
    ensures
        echo_run(at, n).1 == Next::Finish(text),
    decreases n,
{
    if at.1 is Ask {
        let run = at.0;
        let k = run.answers.len() as int;
        let ls = lines::split(text, '\n');
        let len = ls.len() as int;
        let left = run.handles - run.handle;
        assert(left * len >= len) by (nonlinear_arith)
            requires
                left >= 1,
                len >= 0,
        ;
        assert(to_send(run) > 0);
        lemma_echo_step(run, text, ls[k]);
        let next = RunState { answers: run.answers.push(ls[k]), ..run };
        assert(next.answers =~= ls.take(k + 1));
        assert(to_send(next) == to_send(run) - 1);
        lemma_go_on_echoing(next, text);
        lemma_echo_run(preprocess::go_on(next), text, (n - 1) as nat);
    }
}

/// A chain of subprocesses that echo each line of the messages they are sent gives back the text,
/// after no more messages than each of them has lines to answer, provided that the blank lines of
/// the text are empty and none of its lines is the sentinel.
pub proof fn law_echo_gives_text_back(text: Seq<char>, handles: int, n: nat)
    requires
        handles >= 0,
        passes_unchanged(lines::split(text, '\n')),
        n >= handles * lines::split(text, '\n').len(),
    ensures
        echo_run(preprocess::begun(text, handles), n).1 == Next::Finish(text),
{
    let ls = lines::split(text, '\n');
    if handles > 0 {
        let run = preprocess::first_state(text, handles);
        assert(run.answers =~= ls.take(0));
        lemma_go_on_echoing(run, text);
        assert(to_send(run) == handles * ls.len()) by (nonlinear_arith)
            requires
                to_send(run) == (handles - 0) * ls.len() - 0,
        ;
        lemma_echo_run(preprocess::go_on(run), text, n);
    }
}

} // verus!
