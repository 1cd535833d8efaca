use ir::preprocess::{accept, chosen_query, parse_command, start, start_line, Action, Run, SENTINEL};

/// A stand-in for a subprocess: what it writes for one line, or nothing.
type Filter = fn(&str) -> Option<String>;

fn cat(line: &str) -> Option<String> {
    Some(line.to_string())
}

fn dot_filter(line: &str) -> Option<String> {
    if line == "." {
        None
    } else {
        Some(line.to_string())
    }
}

fn upper(line: &str) -> Option<String> {
    if line == SENTINEL {
        Some(line.to_string())
    } else {
        Some(line.to_uppercase())
    }
}

/// Performs the actions of a run on stand-ins.
fn drive(chain: &[Filter], mut run: Run, mut action: Action) -> String {
    let mut pipes: Vec<Vec<String>> = chain.iter().map(|_| Vec::new()).collect();
    loop {
        let handle = match action {
            Action::Finish { text } => return text,
            Action::Ask { handle, message } => {
                assert!(pipes[handle].is_empty(), "an answer was left unread");
                for line in message.lines() {
                    if let Some(answer) = chain[handle](line) {
                        pipes[handle].push(answer + "\n");
                    }
                }
                handle
            }
            Action::Read { handle } => handle,
        };
        let read = if pipes[handle].is_empty() {
            None
        } else {
            Some(pipes[handle].remove(0))
        };
        action = accept(&mut run, read.as_deref());
    }
}

/// Takes a text through a chain of stand-ins, line by line.
fn process_text(chain: &[Filter], text: &str) -> String {
    let (run, action) = start(text, chain.len());
    drive(chain, run, action)
}

/// Takes one line through a stand-in.
fn process_line(filter: Filter, line: &str) -> String {
    let (run, action) = start_line(line);
    drive(&[filter], run, action)
}

/// The stand-ins for the commands that can be started.
fn spawn(commands: &[String]) -> Vec<Filter> {
    commands
        .iter()
        .filter_map(|command| parse_command(command))
        .filter(|(program, _)| program == "cat")
        .map(|_| cat as Filter)
        .collect()
}

fn preprocess_query(query: &str, commands: &[String]) -> String {
    let chain = spawn(commands);
    let outcome = if chain.is_empty() {
        None
    } else {
        Some(process_text(&chain, query))
    };
    chosen_query(query, commands.len(), chain.len(), outcome)
}

#[test]
fn identity_preprocessor_with_cat() {
    let chain = spawn(&["cat".to_string()]);
    assert!(!chain.is_empty(), "cat should spawn successfully");
    assert_eq!(process_text(&chain, "hello world"), "hello world");
}

#[test]
fn chain_with_invalid_command_falls_back() {
    let command = "__nonexistent_command_xyz__";
    assert_eq!(parse_command(command), Some((command.to_string(), vec![])));
    let chain = spawn(&[command.to_string()]);
    assert!(chain.is_empty(), "invalid command should not spawn");
    // Without a subprocess a run finishes at once, with the text as it is.
    assert!(matches!(start("a\n \nb", chain.len()).1, Action::Finish { text } if text == "a\n \nb"));
    assert_eq!(chosen_query("raw", 1, chain.len(), Some("other".to_string())), "raw");
}

#[test]
fn multiline_text_preserved() {
    let chain = spawn(&["cat".to_string()]);
    assert!(!chain.is_empty());
    let input = "line one\nline two\nline three";
    assert_eq!(process_text(&chain, input), input);
}

#[test]
fn subprocess_is_invoked() {
    let chain = spawn(&["cat".to_string()]);
    assert!(!chain.is_empty());
    assert_eq!(process_text(&chain, "hello world"), "hello world");
    assert_eq!(process_text(&[upper], "hello world"), "HELLO WORLD");
}

#[test]
fn chain_pipes_through_multiple() {
    let chain = spawn(&["cat".to_string(), "cat".to_string()]);
    assert!(!chain.is_empty());
    assert_eq!(process_text(&chain, "hello world"), "hello world");
}

#[test]
fn preprocess_query_applies_chain() {
    assert_eq!(preprocess_query("hello world", &["cat".to_string()]), "hello world");
}

#[test]
fn preprocess_query_empty_commands_returns_raw() {
    assert_eq!(preprocess_query("HELLO WORLD", &[]), "HELLO WORLD");
}

#[test]
fn preprocess_query_invalid_command_returns_raw() {
    let commands = vec!["__nonexistent_command_xyz__".to_string()];
    assert_eq!(preprocess_query("HELLO WORLD", &commands), "HELLO WORLD");
}

#[test]
fn chain_skips_invalid_handles() {
    let chain = spawn(&["__nonexistent_command_xyz__".to_string(), "cat".to_string()]);
    assert!(!chain.is_empty());
    assert_eq!(process_text(&chain, "hello world"), "hello world");
}

#[test]
fn multiline_passes_through() {
    let chain = spawn(&["cat".to_string()]);
    assert!(!chain.is_empty());
    assert_eq!(process_text(&chain, "hello\nworld"), "hello\nworld");
}

#[test]
fn sentinel_handles_dropped_line() {
    assert_eq!(
        process_line(dot_filter, "."),
        "",
        "filtered line should return empty string, not deadlock"
    );
    assert_eq!(process_line(dot_filter, "hello"), "hello");
}

#[test]
fn sentinel_handles_mixed_document() {
    let text = "first line\n.\nsecond line\n.\nthird line";
    assert_eq!(
        process_text(&[dot_filter], text),
        "first line\n\nsecond line\n\nthird line"
    );
}

#[test]
fn blank_lines_are_not_sent() {
    let (_, action) = start(" \n\t\n", 1);
    match action {
        Action::Finish { text } => assert_eq!(text, "\n\n"),
        other => panic!("{other:?}"),
    }
    assert_eq!(process_text(&[cat], "a\n  \n\nb"), "a\n\n\nb");
}

#[test]
fn line_is_sent_with_the_sentinel() {
    let (_, action) = start("\none\ntwo", 2);
    match action {
        Action::Ask { handle, message } => {
            assert_eq!(handle, 0);
            assert_eq!(message, "one\nIRSENTINEL\n");
        }
        other => panic!("{other:?}"),
    }
}

#[test]
fn single_line_is_sent_as_it_is() {
    let (mut run, action) = start_line("one\ntwo");
    assert!(matches!(
        action,
        Action::Ask { handle: 0, message } if message == "one\ntwo\nIRSENTINEL\n"
    ));
    assert!(matches!(accept(&mut run, Some("1\n")), Action::Read { handle: 0 }));
    assert!(matches!(accept(&mut run, Some("2\n")), Action::Read { handle: 0 }));
    assert!(matches!(accept(&mut run, Some("IRSENTINEL\n")), Action::Finish { text } if text == "1 2"));
    assert!(matches!(start_line(" ").1, Action::Finish { text } if text.is_empty()));
}

#[test]
fn several_lines_of_answer_are_joined() {
    let (mut run, _) = start("x", 1);
    assert!(matches!(accept(&mut run, Some("a b\n")), Action::Read { handle: 0 }));
    assert!(matches!(accept(&mut run, Some("\n")), Action::Read { handle: 0 }));
    assert!(matches!(accept(&mut run, Some("c")), Action::Read { handle: 0 }));
    match accept(&mut run, Some("IRSENTINEL\n")) {
        Action::Finish { text } => assert_eq!(text, "a b  c"),
        other => panic!("{other:?}"),
    }
}

#[test]
fn end_of_output_ends_the_answer() {
    let (mut run, _) = start("x\ny", 1);
    assert!(matches!(accept(&mut run, Some("ex\n")), Action::Read { .. }));
    assert!(matches!(accept(&mut run, None), Action::Ask { .. }));
    match accept(&mut run, None) {
        Action::Finish { text } => assert_eq!(text, "ex\n"),
        other => panic!("{other:?}"),
    }
}

#[test]
fn output_of_one_feeds_the_next() {
    assert_eq!(process_text(&[upper, dot_filter], "a\n.\nb"), "A\n\nB");
    assert_eq!(process_text(&[], "as\nit is "), "as\nit is ");
}

#[test]
fn commands_are_split_at_blanks() {
    assert_eq!(
        parse_command("  mecab\t-Owakati  -x "),
        Some(("mecab".to_string(), vec!["-Owakati".to_string(), "-x".to_string()]))
    );
    assert_eq!(parse_command("cat"), Some(("cat".to_string(), vec![])));
    assert_eq!(parse_command(" \n"), None);
    assert_eq!(parse_command(""), None);
}

#[test]
fn failed_chain_leaves_the_query() {
    assert_eq!(chosen_query("q", 1, 1, None), "q");
    assert_eq!(chosen_query("q", 1, 1, Some("p".to_string())), "p");
    assert_eq!(chosen_query("q", 1, 0, Some("p".to_string())), "q");
    assert_eq!(chosen_query("q", 0, 1, Some("p".to_string())), "q");
}

#[test]
fn number_of_lines_stays() {
    for text in ["", "a", ".\n\n a\n.", "\n\n", "x\n"] {
        for chain in [&[cat as Filter][..], &[dot_filter, upper][..], &[][..]] {
            let out = process_text(chain, text);
            assert_eq!(out.split('\n').count(), text.split('\n').count(), "{text:?}");
        }
    }
}

#[test]
fn answers_may_depend_on_what_came_before() {
    // The second of two equal lines gets another answer.
    let (mut run, _) = start("x\nx", 1);
    assert!(matches!(accept(&mut run, Some("1\n")), Action::Read { .. }));
    assert!(matches!(accept(&mut run, Some("IRSENTINEL\n")), Action::Ask { .. }));
    assert!(matches!(accept(&mut run, Some("2\n")), Action::Read { .. }));
    assert!(matches!(
        accept(&mut run, Some("IRSENTINEL\n")),
        Action::Finish { text } if text == "1\n2"
    ));
}
