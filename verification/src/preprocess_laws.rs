//! What holds of a run of a text through a chain of preprocessors.

use vstd::prelude::*;

use crate::preprocess;
use crate::preprocess::{Next, RunState};
use crate::text::lines;
use crate::text::words;

verus! {

/// The state of a run after some lines were read one after the other.
pub open spec fn after_reads(run: RunState, reads: Seq<Seq<char>>) -> (RunState, Next)
    decreases reads.len(),
{
    if reads.len() == 0 {
        (run, Next::Read(run.handle))
    } else {
        preprocess::after_read(after_reads(run, reads.drop_last()).0, Some(reads.last()))
    }
}

/// The lines without the line feeds at their ends.
pub open spec fn stripped(reads: Seq<Seq<char>>) -> Seq<Seq<char>> {
    reads.map_values(|r: Seq<char>| preprocess::strip_line_feeds(r))
}

/// All lines up to the sentinel make up the answer to a line; the run goes on when the sentinel
/// comes and not before. Where the sentinel comes first, the line was dropped and its answer is
/// empty.
pub proof fn law_answer_ends_at_sentinel(run: RunState, reads: Seq<Seq<char>>, last: Seq<char>)
    requires
        forall|i: int|
            0 <= i < reads.len() ==> preprocess::strip_line_feeds(#[trigger] reads[i])
                != preprocess::SENTINEL@,
        preprocess::strip_line_feeds(last) == preprocess::SENTINEL@,
    ensures
        after_reads(run, reads) == (
            RunState { parts: run.parts + stripped(reads), ..run },
            Next::Read(run.handle),
        ),
        after_reads(run, reads.push(last)) == preprocess::line_answered(
            RunState { parts: run.parts + stripped(reads), ..run },
        ),
        preprocess::after_read(RunState { parts: Seq::empty(), ..run }, Some(last))
            == preprocess::go_on(
            RunState { answers: run.answers.push(Seq::empty()), parts: Seq::empty(), ..run },
        ),
    decreases reads.len(),
{
    if reads.len() == 0 {
        assert(run.parts + stripped(reads) =~= run.parts);
    } else {
        let front = reads.drop_last();
        assert forall|i: int| 0 <= i < front.len() implies preprocess::strip_line_feeds(
            #[trigger] front[i],
        ) != preprocess::SENTINEL@ by {
            assert(front[i] == reads[i]);
        }
        law_answer_ends_at_sentinel(run, front, last);
        assert(reads[reads.len() - 1] == reads.last());
        assert((run.parts + stripped(front)).push(preprocess::strip_line_feeds(reads.last()))
            =~= run.parts + stripped(reads));
    }
    let all = reads.push(last);
    assert(all.drop_last() =~= reads);
    assert(all.last() == last);
    let read = RunState { parts: run.parts + stripped(reads), ..run };
    assert(after_reads(run, reads).0 =~= read);
    assert(after_reads(run, all) == preprocess::after_read(read, Some(last)));
    assert(lines::join(Seq::<Seq<char>>::empty(), seq![' ']) =~= Seq::<char>::empty());
}

/// What the subprocesses of a chain answer: the parts of the answer, for each subprocess, the
/// number of a line in the text that it gets, and the line. Every line of a text is sent once, so
/// this covers subprocesses whose answers depend on anything that happened before.
pub type Reply = spec_fn(int, int, Seq<char>) -> Seq<Seq<char>>;

/// The answer to a line.
pub open spec fn answer_to(line: Seq<char>, handle: int, number: int, reply: Reply) -> Seq<char> {
    if words::all_blank(line) {
        Seq::empty()
    } else {
        lines::join(reply(handle, number, line), seq![' '])
    }
}

/// The answers to some lines, of which the first has the given number.
pub open spec fn answers_to(ls: Seq<Seq<char>>, handle: int, number: int, reply: Reply) -> Seq<
    Seq<char>,
> {
    Seq::new(ls.len(), |i: int| answer_to(ls[i], handle, number + i, reply))
}

/// What one subprocess makes of a text: its answers to the lines, put together again.
pub open spec fn processed(
    text: Seq<char>,
    handle: int,
    reply: Reply,
) -> Seq<char> {
    lines::join(answers_to(lines::split(text, '\n'), handle, 0, reply), seq!['\n'])
}

/// What the subprocesses from `handle` on make of a text: the output of one feeds into the next.
pub open spec fn piped(
    text: Seq<char>,
    handle: int,
    handles: int,
    reply: Reply,
) -> Seq<char>
    decreases handles - handle,
{
    if handle >= handles {
        text
    } else {
        piped(processed(text, handle, reply), handle + 1, handles, reply)
    }
}

/// The text that a run will end with.
pub open spec fn outcome(run: RunState, reply: Reply) -> Seq<
    char,
> {
    piped(
        lines::join(
            run.answers + answers_to(
                run.lines.skip(run.answers.len() as int),
                run.handle,
                run.answers.len() as int,
                reply,
            ),
            seq!['\n'],
        ),
        run.handle + 1,
        run.handles,
        reply,
    )
}

proof fn lemma_next_answer(
    run: RunState,
    answer: Seq<char>,
    reply: Reply,
)
    requires
        run.answers.len() < run.lines.len(),
        answer == answer_to(
            run.lines[run.answers.len() as int],
            run.handle,
            run.answers.len() as int,
            reply,
        ),
    ensures
        outcome(RunState { answers: run.answers.push(answer), ..run }, reply) == outcome(
            run,
            reply,
        ),
{
    let n = run.answers.len() as int;
    let rest = run.lines.skip(n);
    assert(rest[0] == run.lines[n]);
    assert(run.lines.skip(n + 1) =~= rest.skip(1));
    assert(run.answers.push(answer) + answers_to(run.lines.skip(n + 1), run.handle, n + 1, reply)
        =~= run.answers + answers_to(rest, run.handle, n, reply));
}

/// Between two answers a run keeps its outcome. It ends with that outcome, or goes on to a line
/// that is not blank, which is sent to the subprocess at hand.
pub proof fn law_run_keeps_outcome(
    run: RunState,
    reply: Reply,
)
    requires
        0 <= run.handle < run.handles,
        run.answers.len() <= run.lines.len(),
    ensures
        ({
            let (after, next) = preprocess::go_on(run);
            &&& outcome(after, reply) == outcome(run, reply)
            &&& match next {
                Next::Finish(text) => text == outcome(run, reply),
                Next::Ask(handle, message) => after.is_open() && handle == after.handle && ({
                    let line = after.lines[after.answers.len() as int];
                    !words::all_blank(line) && message == line + seq!['\n']
                        + preprocess::SENTINEL@ + seq!['\n']
                }),
                Next::Read(_) => false,
            }
        }),
    decreases run.handles - run.handle, run.lines.len() - run.answers.len(),
{
    let n = run.answers.len() as int;
    if n == run.lines.len() {
        let text = lines::join(run.answers, seq!['\n']);
        assert(run.answers + answers_to(run.lines.skip(n), run.handle, n, reply) =~= run.answers);
        if run.handle + 1 < run.handles {
            let next = RunState {
                handle: run.handle + 1,
                lines: lines::split(text, '\n'),
                answers: Seq::empty(),
                ..run
            };
            assert(next.answers + answers_to(next.lines.skip(0), next.handle, 0, reply)
                =~= answers_to(next.lines, next.handle, 0, reply));
            law_run_keeps_outcome(next, reply);
        }
    } else if words::all_blank(run.lines[n]) {
        lemma_next_answer(run, Seq::empty(), reply);
        law_run_keeps_outcome(RunState { answers: run.answers.push(Seq::empty()), ..run }, reply);
    }
}

/// An answer keeps the outcome of a run, and the run ends with that outcome where it was the last
/// answer.
pub proof fn law_answer_keeps_outcome(
    run: RunState,
    reply: Reply,
)
    requires
        run.is_open(),
        !words::all_blank(run.lines[run.answers.len() as int]),
        run.parts == reply(
            run.handle,
            run.answers.len() as int,
            run.lines[run.answers.len() as int],
        ),
    ensures
        ({
            let (after, next) = preprocess::line_answered(run);
            &&& outcome(after, reply) == outcome(run, reply)
            &&& next matches Next::Finish(text) ==> text == outcome(run, reply)
        }),
{
    let answer = lines::join(run.parts, seq![' ']);
    let cleared = RunState { parts: Seq::empty(), ..run };
    lemma_next_answer(cleared, answer, reply);
    assert(outcome(cleared, reply) == outcome(run, reply));
    law_run_keeps_outcome(RunState { answers: run.answers.push(answer), ..cleared }, reply);
}

/// A run starts out for what the whole chain makes of the text.
pub proof fn law_run_starts_for_chain(
    text: Seq<char>,
    handles: int,
    reply: Reply,
)
    requires
        handles >= 0,
    ensures
        ({
            let (run, next) = preprocess::begun(text, handles);
            &&& handles > 0 ==> outcome(run, reply) == piped(text, 0, handles, reply)
            &&& next matches Next::Finish(t) ==> t == piped(text, 0, handles, reply)
        }),
{
    if handles > 0 {
        let run = preprocess::first_state(text, handles);
        assert(run.answers + answers_to(run.lines.skip(0), 0, 0, reply) =~= answers_to(
            run.lines,
            0,
            0,
            reply,
        ));
        law_run_keeps_outcome(run, reply);
    }
}

/// A preprocessor that answers every line with the line itself.
pub open spec fn echoes(reply: Reply) -> bool {
    forall|handle: int, number: int, line: Seq<char>| #[trigger]
        reply(handle, number, line) == seq![line]
}

/// Text goes unchanged through preprocessors that pass every line on, provided that its blank
/// lines are empty.
pub proof fn law_identity_chain_changes_nothing(
    text: Seq<char>,
    handle: int,
    handles: int,
    reply: Reply,
)
    requires
        echoes(reply),
        forall|i: int|
            0 <= i < lines::split(text, '\n').len() && words::all_blank(
                #[trigger] lines::split(text, '\n')[i],
            ) ==> lines::split(text, '\n')[i].len() == 0,
    ensures
        piped(text, handle, handles, reply) == text,
    decreases handles - handle,
{
    if handle < handles {
        let ls = lines::split(text, '\n');
        assert forall|i: int| 0 <= i < ls.len() implies #[trigger] answers_to(
            ls,
            handle,
            0,
            reply,
        )[i] == ls[i] by {
            if words::all_blank(ls[i]) {
                assert(ls[i] =~= Seq::<char>::empty());
            } else {
                assert(reply(handle, i, ls[i]) == seq![ls[i]]);
                lines::lemma_join_one(ls[i], seq![' ']);
            }
        }
        assert(answers_to(ls, handle, 0, reply) =~= ls);
        lines::law_join_of_split(text, '\n');
        law_identity_chain_changes_nothing(text, handle + 1, handles, reply);
    }
}

/// A run after some reads, whatever the subprocesses wrote: each is a line, or `None` for the end
/// of the output. Reads after the end of the run do not count.
pub open spec fn played(text: Seq<char>, handles: int, reads: Seq<Option<Seq<char>>>) -> (
    RunState,
    Next,
)
    decreases reads.len(),
{
    if reads.len() == 0 {
        preprocess::begun(text, handles)
    } else {
        let (run, next) = played(text, handles, reads.drop_last());
        if next is Finish {
            (run, next)
        } else {
            preprocess::after_read(run, reads.last())
        }
    }
}

/// A read ends the answer to a line.
pub open spec fn ends_answer(read: Option<Seq<char>>) -> bool {
    read matches Some(raw) ==> preprocess::strip_line_feeds(raw) == preprocess::SENTINEL@
}

/// The answers that were read in a run: the parts, for each subprocess and number of a line.
pub open spec fn recorded(text: Seq<char>, handles: int, reads: Seq<Option<Seq<char>>>) -> Map<
    (int, int),
    Seq<Seq<char>>,
>
    decreases reads.len(),
{
    if reads.len() == 0 {
        Map::empty()
    } else {
        let before = recorded(text, handles, reads.drop_last());
        let (run, next) = played(text, handles, reads.drop_last());
        if next is Finish || !ends_answer(reads.last()) {
            before
        } else {
            before.insert((run.handle, run.answers.len() as int), run.parts)
        }
    }
}

/// `reply` gives the answers that were read.
pub open spec fn agrees(reply: Reply, record: Map<(int, int), Seq<Seq<char>>>) -> bool {
    forall|handle: int, number: int, line: Seq<char>|
        #![trigger reply(handle, number, line)]
        record.contains_key((handle, number)) ==> reply(handle, number, line) == record[(
            handle,
            number,
        )]
}

/// A subprocess has the text, and the line at hand is not blank.
spec fn is_asking(run: RunState) -> bool {
    run.is_open() && !words::all_blank(run.lines[run.answers.len() as int])
}

/// Lines are answered in order: what comes later in a run has not been answered yet.
spec fn answered_before(record: Map<(int, int), Seq<Seq<char>>>, run: RunState) -> bool {
    forall|handle: int, number: int| #[trigger]
        record.contains_key((handle, number)) ==> handle < run.handle || handle == run.handle
            && number < run.answers.len()
}

proof fn lemma_go_on_advances(run: RunState)
    requires
        0 <= run.handle < run.handles,
        run.answers.len() <= run.lines.len(),
    ensures
        ({
            let after = preprocess::go_on(run).0;
            after.handle > run.handle || after.handle == run.handle && after.answers.len()
                >= run.answers.len()
        }),
    decreases run.handles - run.handle, run.lines.len() - run.answers.len(),
{
    let n = run.answers.len() as int;
    if n == run.lines.len() {
        if run.handle + 1 < run.handles {
            let text = lines::join(run.answers, seq!['\n']);
            lemma_go_on_advances(
                RunState {
                    handle: run.handle + 1,
                    lines: lines::split(text, '\n'),
                    answers: Seq::empty(),
                    ..run
                },
            );
        }
    } else if words::all_blank(run.lines[n]) {
        lemma_go_on_advances(RunState { answers: run.answers.push(Seq::empty()), ..run });
    }
}

/// However the subprocesses answer, a run is on its way to what the chain makes of the text with
/// these answers, and ends with that.
pub proof fn law_run_ends_with_what_was_answered(
    text: Seq<char>,
    handles: int,
    reads: Seq<Option<Seq<char>>>,
    reply: Reply,
)
    requires
        handles >= 0,
        agrees(reply, recorded(text, handles, reads)),
    ensures
        ({
            let (run, next) = played(text, handles, reads);
            match next {
                Next::Finish(t) => t == piped(text, 0, handles, reply),
                _ => run.is_open() && outcome(run, reply) == piped(text, 0, handles, reply),
            }
        }),
{
    lemma_played(text, handles, reads, reply);
}

proof fn lemma_played(
    text: Seq<char>,
    handles: int,
    reads: Seq<Option<Seq<char>>>,
    reply: Reply,
)
    requires
        handles >= 0,
        agrees(reply, recorded(text, handles, reads)),
    ensures
        ({
            let (run, next) = played(text, handles, reads);
            match next {
                Next::Finish(t) => t == piped(text, 0, handles, reply),
                _ => is_asking(run) && answered_before(recorded(text, handles, reads), run)
                    && outcome(run, reply) == piped(text, 0, handles, reply),
            }
        }),
    decreases reads.len(),
{
    if reads.len() == 0 {
        law_run_starts_for_chain(text, handles, reply);
        if handles > 0 {
            law_run_keeps_outcome(preprocess::first_state(text, handles), reply);
        }
    } else {
        let less = reads.drop_last();
        let read = reads.last();
        let (run, next) = played(text, handles, less);
        let before = recorded(text, handles, less);
        let after = recorded(text, handles, reads);
        lemma_recorded_is_fresh(text, handles, less);
        assert(agrees(reply, before)) by {
            assert forall|handle: int, number: int, line: Seq<char>|
                #![trigger reply(handle, number, line)]
                before.contains_key((handle, number)) implies reply(handle, number, line)
                == before[(handle, number)] by {
                assert(after.contains_key((handle, number)));
                assert(after[(handle, number)] == before[(handle, number)]);
            }
        }
        lemma_played(text, handles, less, reply);
        if !(next is Finish) {
            if ends_answer(read) {
                let n = run.answers.len() as int;
                assert(after.contains_key((run.handle, n)));
                assert(reply(run.handle, n, run.lines[n]) == run.parts);
                law_answer_keeps_outcome(run, reply);
                lemma_line_answered(run, reply);
                let answered = RunState {
                    answers: run.answers.push(lines::join(run.parts, seq![' '])),
                    parts: Seq::empty(),
                    ..run
                };
                lemma_go_on_advances(answered);
            } else {
                let raw = read->0;
                let taken = RunState {
                    parts: run.parts.push(preprocess::strip_line_feeds(raw)),
                    ..run
                };
                assert(outcome(taken, reply) == outcome(run, reply));
            }
        }
    }
}

/// After an answer a run asks for a line that is not blank, or is at its end.
proof fn lemma_line_answered(run: RunState, reply: Reply)
    requires
        run.is_open(),
    ensures
        ({
            let (after, next) = preprocess::line_answered(run);
            next is Finish || is_asking(after)
        }),
{
    law_run_keeps_outcome(
        RunState {
            answers: run.answers.push(lines::join(run.parts, seq![' '])),
            parts: Seq::empty(),
            ..run
        },
        reply,
    );
}

/// The line at hand has not been answered.
proof fn lemma_recorded_is_fresh(text: Seq<char>, handles: int, reads: Seq<Option<Seq<char>>>)
    requires
        handles >= 0,
    ensures
        ({
            let (run, next) = played(text, handles, reads);
            next is Finish || is_asking(run) && answered_before(
                recorded(text, handles, reads),
                run,
            )
        }),
    decreases reads.len(),
{
    let any: Reply = |handle: int, number: int, line: Seq<char>| Seq::empty();
    if reads.len() == 0 {
        if handles > 0 {
            law_run_keeps_outcome(preprocess::first_state(text, handles), any);
        }
    } else {
        let less = reads.drop_last();
        let (run, next) = played(text, handles, less);
        lemma_recorded_is_fresh(text, handles, less);
        if !(next is Finish) && ends_answer(reads.last()) {
            lemma_line_answered(run, any);
            lemma_go_on_advances(
                RunState {
                    answers: run.answers.push(lines::join(run.parts, seq![' '])),
                    parts: Seq::empty(),
                    ..run
                },
            );
        }
    }
}

/// A text holds no line feed.
pub open spec fn is_one_line(s: Seq<char>) -> bool {
    forall|i: int| 0 <= i < s.len() ==> (#[trigger] s[i]) != '\n'
}

proof fn lemma_join_is_one_line(parts: Seq<Seq<char>>)
    requires
        forall|i: int| 0 <= i < parts.len() ==> is_one_line(#[trigger] parts[i]),
    ensures
        is_one_line(lines::join(parts, seq![' '])),
    decreases parts.len(),
{
    if parts.len() > 0 {
        let rest = parts.skip(1);
        assert forall|i: int| 0 <= i < rest.len() implies is_one_line(#[trigger] rest[i]) by {
            assert(rest[i] == parts[i + 1]);
        }
        lemma_join_is_one_line(rest);
        assert(is_one_line(parts[0]));
    }
}

/// Every part of every answer is one line.
pub open spec fn answers_in_lines(reply: Reply) -> bool {
    forall|handle: int, number: int, line: Seq<char>, i: int|
        0 <= i < reply(handle, number, line).len() ==> is_one_line(
            #[trigger] reply(handle, number, line)[i],
        )
}

/// What comes out of a chain has as many lines as what went in.
pub proof fn law_chain_keeps_number_of_lines(
    text: Seq<char>,
    handle: int,
    handles: int,
    reply: Reply,
)
    requires
        answers_in_lines(reply),
    ensures
        lines::split(piped(text, handle, handles, reply), '\n').len() == lines::split(
            text,
            '\n',
        ).len(),
    decreases handles - handle,
{
    if handle < handles {
        let ls = lines::split(text, '\n');
        let answers = answers_to(ls, handle, 0, reply);
        lines::lemma_split_not_empty(text, '\n');
        assert forall|i: int| 0 <= i < answers.len() implies is_one_line(#[trigger] answers[i]) by {
            if !words::all_blank(ls[i]) {
                lemma_join_is_one_line(reply(handle, 0 + i, ls[i]));
            }
        }
        lines::law_split_of_join(answers, '\n');
        law_chain_keeps_number_of_lines(
            processed(text, handle, reply),
            handle + 1,
            handles,
            reply,
        );
    }
}

/// The answers that were read, for lines that were answered; nothing for others.
pub open spec fn reply_of(record: Map<(int, int), Seq<Seq<char>>>) -> Reply {
    |handle: int, number: int, line: Seq<char>|
        if record.contains_key((handle, number)) {
            record[(handle, number)]
        } else {
            Seq::empty()
        }
}

/// Reads are lines: they hold no line feed but at the end.
pub open spec fn are_lines(reads: Seq<Option<Seq<char>>>) -> bool {
    forall|i: int|
        0 <= i < reads.len() && (#[trigger] reads[i]) is Some ==> is_one_line(
            preprocess::strip_line_feeds(reads[i]->0),
        )
}

proof fn lemma_recorded_lines(text: Seq<char>, handles: int, reads: Seq<Option<Seq<char>>>)
    requires
        handles >= 0,
        are_lines(reads),
    ensures
        forall|i: int|
            0 <= i < played(text, handles, reads).0.parts.len() ==> is_one_line(
                #[trigger] played(text, handles, reads).0.parts[i],
            ),
        forall|key: (int, int), i: int|
            recorded(text, handles, reads).contains_key(key) && 0 <= i < recorded(
                text,
                handles,
                reads,
            )[key].len() ==> is_one_line(#[trigger] recorded(text, handles, reads)[key][i]),
    decreases reads.len(),
{
    if reads.len() == 0 {
        if handles > 0 {
            lemma_go_on_keeps_parts(preprocess::first_state(text, handles));
        }
    } else {
        let less = reads.drop_last();
        assert forall|i: int| 0 <= i < less.len() && (#[trigger] less[i]) is Some implies is_one_line(
            preprocess::strip_line_feeds(less[i]->0),
        ) by {
            assert(less[i] == reads[i]);
        }
        lemma_recorded_lines(text, handles, less);
        let (run, next) = played(text, handles, less);
        let before = recorded(text, handles, less);
        let after = recorded(text, handles, reads);
        if !(next is Finish) {
            if ends_answer(reads.last()) {
                lemma_go_on_keeps_parts(
                    RunState {
                        answers: run.answers.push(lines::join(run.parts, seq![' '])),
                        parts: Seq::empty(),
                        ..run
                    },
                );
            } else {
                assert(reads[reads.len() - 1] == reads.last());
            }
        }
        assert forall|key: (int, int), i: int|
            after.contains_key(key) && 0 <= i < after[key].len() implies is_one_line(
            #[trigger] after[key][i],
        ) by {
            if before.contains_key(key) && after[key] == before[key] {
                assert(is_one_line(before[key][i]));
            } else {
                assert(after[key] == run.parts);
                assert(is_one_line(run.parts[i]));
            }
        }
    }
}

proof fn lemma_go_on_keeps_parts(run: RunState)
    ensures
        preprocess::go_on(run).0.parts == run.parts,
    decreases run.handles - run.handle, run.lines.len() - run.answers.len(),
{
    let n = run.answers.len() as int;
    if n >= run.lines.len() {
        if run.handle + 1 < run.handles {
            let text = lines::join(run.answers, seq!['\n']);
            lemma_go_on_keeps_parts(
                RunState {
                    handle: run.handle + 1,
                    lines: lines::split(text, '\n'),
                    answers: Seq::empty(),
                    ..run
                },
            );
        }
    } else if words::all_blank(run.lines[n]) {
        lemma_go_on_keeps_parts(RunState { answers: run.answers.push(Seq::empty()), ..run });
    }
}

/// Whatever lines the subprocesses write, a run that ends gives a text of as many lines as the one
/// it started with.
pub proof fn law_run_keeps_number_of_lines(
    text: Seq<char>,
    handles: int,
    reads: Seq<Option<Seq<char>>>,
)
    requires
        handles >= 0,
        are_lines(reads),
    ensures
        played(text, handles, reads).1 matches Next::Finish(t) ==> lines::split(t, '\n').len()
            == lines::split(text, '\n').len(),
{
    let record = recorded(text, handles, reads);
    let reply = reply_of(record);
    lemma_recorded_lines(text, handles, reads);
    assert forall|handle: int, number: int, line: Seq<char>, i: int|
        0 <= i < reply(handle, number, line).len() implies is_one_line(
        #[trigger] reply(handle, number, line)[i],
    ) by {
        assert(record.contains_key((handle, number)));
        assert(is_one_line(record[(handle, number)][i]));
    }
    lemma_played(text, handles, reads, reply);
    law_chain_keeps_number_of_lines(text, 0, handles, reply);
}

} // verus!
