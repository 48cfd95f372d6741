use shell::editor::{
    classify_key, completer_output_lines, CandidateSource, EditorEvent, KeyCode, KeyOutcome,
    KeyPress, LineEditor, SubmitResult, TabOutcome, CONTROL, SHIFT,
};
use shell::state::{register_completion, ShellState};

fn key(code: KeyCode, modifiers: u8) -> KeyPress {
    KeyPress { code, modifiers }
}

fn type_text(ed: &mut LineEditor, shell: &ShellState, text: &str) {
    for c in text.chars() {
        match ed.handle_key(key(KeyCode::Char(c), 0), shell) {
            KeyOutcome::Echo(e) => assert_eq!(e, c.to_string()),
            _ => panic!("typing should echo"),
        }
    }
}

fn words(v: &[&str]) -> Vec<String> {
    v.iter().map(|s| s.to_string()).collect()
}

#[test]
fn key_classification() {
    assert_eq!(classify_key(key(KeyCode::Enter, 0)), EditorEvent::Submit);
    assert_eq!(classify_key(key(KeyCode::Char('j'), CONTROL)), EditorEvent::Submit);
    assert_eq!(classify_key(key(KeyCode::Char('j'), 0)), EditorEvent::Insert('j'));
    assert_eq!(classify_key(key(KeyCode::Char('A'), SHIFT)), EditorEvent::Insert('A'));
    assert_eq!(classify_key(key(KeyCode::Char('a'), 4)), EditorEvent::Ignore);
    assert_eq!(classify_key(key(KeyCode::Tab, 0)), EditorEvent::Complete);
    assert_eq!(classify_key(key(KeyCode::Tab, SHIFT)), EditorEvent::Ignore);
    assert_eq!(classify_key(key(KeyCode::Backspace, 0)), EditorEvent::Erase);
    assert_eq!(classify_key(key(KeyCode::Up, 0)), EditorEvent::HistoryUp);
    assert_eq!(classify_key(key(KeyCode::Down, 0)), EditorEvent::HistoryDown);
    assert_eq!(classify_key(key(KeyCode::Enter, CONTROL)), EditorEvent::Ignore);
    assert_eq!(classify_key(key(KeyCode::Other, 0)), EditorEvent::Ignore);
}

#[test]
fn typing_erasing_and_submitting() {
    let shell = ShellState::new();
    let mut ed = LineEditor::new();
    assert!(matches!(ed.handle_key(key(KeyCode::Backspace, 0), &shell), KeyOutcome::Nothing));
    type_text(&mut ed, &shell, "lsx");
    match ed.handle_key(key(KeyCode::Backspace, 0), &shell) {
        KeyOutcome::Echo(e) => assert_eq!(e, "\x08 \x08"),
        _ => panic!("backspace should echo"),
    }
    assert_eq!(ed.line(), "ls");
    type_text(&mut ed, &shell, " -l");
    match ed.handle_key(key(KeyCode::Enter, 0), &shell) {
        KeyOutcome::Submitted { history_entry, run: SubmitResult::Single(c) } => {
            assert_eq!(history_entry, "ls -l");
            assert_eq!(c.cmd, "ls");
            assert_eq!(c.args, words(&["-l"]));
        },
        _ => panic!("enter should submit"),
    }
    assert_eq!(ed.line(), "");
    assert!(!ed.should_exit());
}

#[test]
fn submitting_nothing_and_exit() {
    let shell = ShellState::new();
    let mut ed = LineEditor::new();
    assert!(matches!(
        ed.handle_key(key(KeyCode::Enter, 0), &shell),
        KeyOutcome::Submitted { run: SubmitResult::Nothing, .. }
    ));
    type_text(&mut ed, &shell, "exit");
    assert!(matches!(
        ed.handle_key(key(KeyCode::Char('j'), CONTROL), &shell),
        KeyOutcome::Submitted { run: SubmitResult::Exit, .. }
    ));
    assert!(ed.should_exit());
    assert_eq!(ed.line(), "exit\n");
}

#[test]
fn exit_is_set_only_by_exit_and_stays_set() {
    let shell = ShellState::new();
    let mut ed = LineEditor::new();
    type_text(&mut ed, &shell, "echo exit");
    ed.handle_key(key(KeyCode::Enter, 0), &shell);
    assert!(!ed.should_exit());
    type_text(&mut ed, &shell, "exit 3");
    ed.handle_key(key(KeyCode::Enter, 0), &shell);
    assert!(ed.should_exit());
    ed.handle_key(key(KeyCode::Backspace, 0), &shell);
    type_text(&mut ed, &shell, "ls");
    ed.handle_key(key(KeyCode::Enter, 0), &shell);
    assert!(ed.should_exit());
}

#[test]
fn history_keys_and_replace() {
    let shell = ShellState::new();
    let mut ed = LineEditor::new();
    assert!(matches!(ed.handle_key(key(KeyCode::Up, 0), &shell), KeyOutcome::HistoryUp));
    assert!(matches!(ed.handle_key(key(KeyCode::Down, 0), &shell), KeyOutcome::HistoryDown));
    ed.replace_line("echo again");
    assert_eq!(ed.line(), "echo again");
}

fn request(ed: &mut LineEditor, shell: &ShellState) -> (CandidateSource, usize) {
    match ed.handle_key(key(KeyCode::Tab, 0), shell) {
        KeyOutcome::Complete(r) => (r.source, r.start),
        _ => panic!("tab should ask for completion"),
    }
}

#[test]
fn tab_completes_a_single_command() {
    let shell = ShellState::new();
    let mut ed = LineEditor::new();
    type_text(&mut ed, &shell, "ec");
    let (src, start) = request(&mut ed, &shell);
    assert!(matches!(src, CandidateSource::Commands));
    assert_eq!(start, 0);
    let cands = words(&["exit", "echo", "env", "echo"]);
    assert!(ed.completion_defined(&cands, start));
    match ed.complete(&cands, start) {
        TabOutcome::Insert(t) => assert_eq!(t, "ho "),
        _ => panic!("one match should be inserted"),
    }
    assert_eq!(ed.line(), "echo ");
}

#[test]
fn tab_twice_lists_ambiguous_candidates() {
    let shell = ShellState::new();
    let mut ed = LineEditor::new();
    type_text(&mut ed, &shell, "e");
    let cands = words(&["exit", "echo", "env"]);
    assert!(matches!(ed.complete(&cands, 0), TabOutcome::Bell));
    match ed.complete(&cands, 0) {
        TabOutcome::ShowList(l) => assert_eq!(l, "echo env exit"),
        _ => panic!("second tab should list"),
    }
    assert_eq!(ed.line(), "e");
    assert!(matches!(ed.complete(&cands, 0), TabOutcome::Bell));
}

#[test]
fn tab_adds_common_prefix_and_rings_without_match() {
    let shell = ShellState::new();
    let mut ed = LineEditor::new();
    type_text(&mut ed, &shell, "ca");
    match ed.complete(&words(&["carp", "cargo", "ls"]), 0) {
        TabOutcome::Insert(t) => assert_eq!(t, "r"),
        _ => panic!("common prefix should be inserted"),
    }
    assert_eq!(ed.line(), "car");
    assert!(matches!(ed.complete(&words(&["ls"]), 0), TabOutcome::Bell));
}

#[test]
fn tab_on_empty_line_does_nothing() {
    let shell = ShellState::new();
    let mut ed = LineEditor::new();
    assert!(matches!(ed.complete(&words(&["ls"]), 0), TabOutcome::Nothing));
}

#[test]
fn tab_completes_files_in_directory() {
    let shell = ShellState::new();
    let mut ed = LineEditor::new();
    type_text(&mut ed, &shell, "cat src/ma");
    let (src, start) = request(&mut ed, &shell);
    match src {
        CandidateSource::Directory(d) => assert_eq!(d, "src"),
        _ => panic!("a file argument completes from a directory"),
    }
    assert_eq!(start, 8);
    match ed.complete(&words(&["main.rs", "mod.rs"]), start) {
        TabOutcome::Insert(t) => assert_eq!(t, "in.rs "),
        _ => panic!("one match"),
    }
    assert_eq!(ed.line(), "cat src/main.rs ");
}

#[test]
fn tab_completes_directory_without_space() {
    let shell = ShellState::new();
    let mut ed = LineEditor::new();
    type_text(&mut ed, &shell, "cd sr");
    let (src, start) = request(&mut ed, &shell);
    match src {
        CandidateSource::Directory(d) => assert_eq!(d, "."),
        _ => panic!("current directory"),
    }
    assert_eq!(start, 3);
    match ed.complete(&words(&["src/", "README"]), start) {
        TabOutcome::Insert(t) => assert_eq!(t, "c/"),
        _ => panic!("one match"),
    }
    assert_eq!(ed.line(), "cd src/");
}

#[test]
fn tab_asks_registered_script() {
    let mut shell = ShellState::new();
    register_completion(&mut shell, "git".to_string(), "/bin/gitcomp".to_string());
    let mut ed = LineEditor::new();
    type_text(&mut ed, &shell, "git ch");
    let (src, start) = request(&mut ed, &shell);
    assert_eq!(start, 4);
    match src {
        CandidateSource::Script { script, args, line, point } => {
            assert_eq!(script, "/bin/gitcomp");
            assert_eq!(args, words(&["git", "ch", "git"]));
            assert_eq!(line, "git ch");
            assert_eq!(point, "6");
        },
        _ => panic!("registered script"),
    }
}

#[test]
fn tab_start_inside_a_character_is_undefined() {
    let shell = ShellState::new();
    let mut ed = LineEditor::new();
    type_text(&mut ed, &shell, "é");
    assert!(!ed.completion_defined(&words(&["éa"]), 1));
    assert!(ed.completion_defined(&words(&["éa"]), 2));
    assert!(!ed.completion_defined(&words(&["éa"]), 3));
}

#[test]
fn common_prefix_ending_inside_a_character_is_undefined() {
    let shell = ShellState::new();
    let mut ed = LineEditor::new();
    type_text(&mut ed, &shell, "x");
    // The common prefix "é" is one character but two bytes.
    assert!(!ed.completion_defined(&words(&["xéa", "xéb"]), 0));
    // "éé" is two characters and four bytes: the first two bytes are "é".
    assert!(ed.completion_defined(&words(&["xééa", "xééb"]), 0));
    match ed.complete(&words(&["xééa", "xééb"]), 0) {
        TabOutcome::Insert(t) => assert_eq!(t, "é"),
        _ => panic!("byte prefix"),
    }
}

#[test]
fn completer_output_is_trimmed_lines() {
    assert_eq!(completer_output_lines("  main\r\n\n  feat \n"), words(&["main", "feat"]));
    assert_eq!(completer_output_lines("a\nb"), words(&["a", "b"]));
    assert_eq!(completer_output_lines(""), Vec::<String>::new());
}

#[test]
fn completion_point_counts_bytes() {
    let mut shell = ShellState::new();
    register_completion(&mut shell, "git".to_string(), "/c".to_string());
    let mut ed = LineEditor::new();
    type_text(&mut ed, &shell, "git é");
    let (src, start) = request(&mut ed, &shell);
    assert_eq!(start, 4);
    match src {
        CandidateSource::Script { args, point, .. } => {
            assert_eq!(args, words(&["git", "é", "git"]));
            assert_eq!(point, "6");
        },
        _ => panic!("registered script"),
    }
}

#[test]
fn submitting_a_pipeline() {
    let shell = ShellState::new();
    let mut ed = LineEditor::new();
    type_text(&mut ed, &shell, "ls | wc");
    match ed.handle_key(key(KeyCode::Enter, 0), &shell) {
        KeyOutcome::Submitted { run: SubmitResult::Pipeline(c), .. } => {
            assert_eq!(c.len(), 2);
            assert_eq!(c[1].cmd, "wc");
        },
        _ => panic!("two stages make a pipeline"),
    }
}
