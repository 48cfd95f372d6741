use shell::executor::{
    cd_error, cd_target, complete_builtin, echo_output, execute_pipeline, execute_single,
    history_request, not_found_message, pipeline_is_valid, start_background_job, type_report,
    Builtin, Execution, HistoryRequest, Stage, Stream,
};
use shell::parser::CommandArgs;
use shell::state::{
    add_to_job_table, alloc_id, dealloc_id, find_completion, print_job_table,
    register_completion, unregister_completion, IDAllocator, JobDetail, JobState, JobTable,
    ShellState,
};
use shell::strmap::StringMap;

fn words(v: &[&str]) -> Vec<String> {
    v.iter().map(|s| s.to_string()).collect()
}

fn cmd(name: &str, args: &[&str]) -> CommandArgs {
    CommandArgs::new(name.to_string(), words(args))
}

#[test]
fn ids_count_up_and_recycle_last_first() {
    let mut a = IDAllocator::new();
    assert_eq!(a.alloc_id(), 1);
    assert_eq!(a.alloc_id(), 2);
    assert_eq!(a.alloc_id(), 3);
    a.dealloc_id(1);
    a.dealloc_id(2);
    assert_eq!(a.alloc_id(), 2);
    assert_eq!(a.alloc_id(), 1);
    assert_eq!(a.alloc_id(), 4);
}

#[test]
fn shell_ids_dealloc_then_alloc() {
    let mut s = ShellState::new();
    let a = alloc_id(&mut s);
    let b = alloc_id(&mut s);
    assert_eq!((a, b), (1, 2));
    dealloc_id(&mut s, a);
    assert_eq!(alloc_id(&mut s), 1);
}

#[test]
fn registry_register_find_unregister() {
    let mut s = ShellState::new();
    assert_eq!(find_completion(&s, "git"), None);
    register_completion(&mut s, "git".to_string(), "/bin/gitcomp".to_string());
    register_completion(&mut s, "cargo".to_string(), "/bin/cc".to_string());
    assert_eq!(find_completion(&s, "git"), Some("/bin/gitcomp".to_string()));
    register_completion(&mut s, "git".to_string(), "/other".to_string());
    assert_eq!(find_completion(&s, "git"), Some("/other".to_string()));
    unregister_completion(&mut s, "git");
    assert_eq!(find_completion(&s, "git"), None);
    assert_eq!(find_completion(&s, "cargo"), Some("/bin/cc".to_string()));
}

#[test]
fn string_map_operations() {
    let mut m = StringMap::new();
    assert!(!m.contains("a"));
    m.insert("a".to_string(), "1".to_string());
    m.insert("b".to_string(), "2".to_string());
    assert_eq!(m.get("a"), Some("1".to_string()));
    assert!(m.contains("b"));
    m.remove("a");
    assert_eq!(m.get("a"), None);
    assert_eq!(m.get("b"), Some("2".to_string()));
    m.remove("zzz");
    assert_eq!(m.get("b"), Some("2".to_string()));
}

#[test]
fn job_state_column_is_padded() {
    assert_eq!(JobState::Running.column(), format!("{:<24}", "Running"));
    assert_eq!(JobState::Done.column(), format!("{:<24}", "Done"));
    assert_eq!(JobState::Done.column().len(), 24);
}

#[test]
fn job_table_lines_mark_most_recent() {
    let mut t = JobTable::new();
    assert_eq!(t.recent, 0);
    t.add(JobDetail::new(1, 4242, "sleep 10 &".to_string()));
    assert_eq!(t.lines(), vec![format!("[1]+  {:<24}sleep 10 &", "Running")]);
    let mut d = JobDetail::new(2, 77, "yes &".to_string());
    d.state = JobState::Done;
    t.add(d);
    assert_eq!(t.recent, 2);
    assert_eq!(
        t.lines(),
        vec![
            format!("[1]   {:<24}sleep 10 &", "Running"),
            format!("[2]+  {:<24}yes &", "Done"),
        ]
    );
}

#[test]
fn background_job_is_announced_and_recorded() {
    let mut s = ShellState::new();
    let line = start_background_job(&mut s, 4242, "sleep 10 &".to_string());
    assert_eq!(line, "[1] 4242");
    let line = start_background_job(&mut s, 5, "b &".to_string());
    assert_eq!(line, "[2] 5");
    assert_eq!(s.jobs.jobs.len(), 2);
    assert_eq!(s.jobs.recent, 2);
    assert_eq!(print_job_table(&s)[1], format!("[2]+  {:<24}b &", "Running"));
    add_to_job_table(&mut s, JobDetail::new(9, 1, "x".to_string()));
    assert_eq!(s.jobs.recent, 9);
}

#[test]
fn builtin_names() {
    assert_eq!(Builtin::new("exit"), Some(Builtin::Exit));
    assert_eq!(Builtin::new("echo"), Some(Builtin::Echo));
    assert_eq!(Builtin::new("type"), Some(Builtin::Type));
    assert_eq!(Builtin::new("pwd"), Some(Builtin::Pwd));
    assert_eq!(Builtin::new("cd"), Some(Builtin::Cd));
    assert_eq!(Builtin::new("complete"), Some(Builtin::Complete));
    assert_eq!(Builtin::new("jobs"), Some(Builtin::Jobs));
    assert_eq!(Builtin::new("history"), Some(Builtin::History));
    assert_eq!(Builtin::new("ls"), None);
    assert_eq!(Builtin::new("Echo"), None);
}

#[test]
fn single_command_dispatch() {
    assert!(matches!(execute_single(cmd("cd", &["/"])), Execution::Builtin(Builtin::Cd, _)));
    match execute_single(cmd("ls", &["-l"])) {
        Execution::External(c) => assert_eq!(c.args, words(&["-l"])),
        _ => panic!("ls is not a builtin"),
    }
}

#[test]
fn echo_joins_with_spaces() {
    assert_eq!(echo_output(&words(&["a", "b c"])), "a b c\n");
    assert_eq!(echo_output(&words(&[])), "\n");
}

#[test]
fn pipeline_stages() {
    let cs = vec![cmd("echo", &["hi"]), cmd("grep", &["h"]), cmd("wc", &["-c"])];
    assert!(pipeline_is_valid(&cs));
    let st = execute_pipeline(cs);
    assert_eq!(st.len(), 3);
    assert!(matches!(&st[0], Stage::Feed(t) if t == "hi\n"));
    assert!(matches!(&st[1], Stage::Spawn { cmd, pipe_in: true, pipe_out: true, .. } if cmd == "grep"));
    assert!(matches!(&st[2], Stage::Spawn { cmd, args, pipe_in: true, pipe_out: false } if cmd == "wc" && args == &words(&["-c"])));
}

#[test]
fn pipeline_builtin_last() {
    let cs = vec![cmd("ls", &[]), cmd("type", &["exit"])];
    assert!(pipeline_is_valid(&cs));
    let st = execute_pipeline(cs);
    assert!(matches!(&st[0], Stage::Spawn { pipe_in: false, pipe_out: true, .. }));
    assert!(matches!(&st[1], Stage::RunBuiltin(Builtin::Type, _)));
}

#[test]
fn pipeline_refusals() {
    assert!(!pipeline_is_valid(&vec![cmd("ls", &[]), cmd("cd", &["x"]), cmd("wc", &[])]));
    assert!(!pipeline_is_valid(&vec![cmd("ls", &[]), cmd("echo", &["x"]), cmd("wc", &[])]));
    let mut c = cmd("ls", &[]);
    c.stdout = Some(("f".to_string(), shell::parser::RedirectMode::Overwrite));
    assert!(!pipeline_is_valid(&vec![c, cmd("wc", &[])]));
}

#[test]
fn type_reports() {
    assert_eq!(type_report("echo", None), (Stream::Stdout, "echo is a shell builtin".to_string()));
    assert_eq!(type_report("ls", Some("/bin/ls".to_string())), (Stream::Stdout, "ls is /bin/ls".to_string()));
    assert_eq!(type_report("nope", None), (Stream::Stderr, "nope: not found".to_string()));
}

#[test]
fn cd_targets() {
    assert_eq!(cd_target(&words(&[]), Some("/h".to_string())), None);
    assert_eq!(cd_target(&words(&["~"]), Some("/home/u".to_string())), Some("/home/u".to_string()));
    assert_eq!(cd_target(&words(&["~"]), None), Some("/".to_string()));
    assert_eq!(cd_target(&words(&["/tmp", "x"]), None), Some("/tmp".to_string()));
    assert_eq!(cd_error("/nope"), "cd: /nope: No such file or directory");
    assert_eq!(not_found_message("foo"), "foo: command not found");
}

#[test]
fn complete_builtin_cycle() {
    let mut s = ShellState::new();
    assert_eq!(complete_builtin(&mut s, &words(&["-C", "/bin/comp", "git"])), None);
    assert_eq!(
        complete_builtin(&mut s, &words(&["-p", "git"])),
        Some((Stream::Stdout, "complete -C '/bin/comp' git".to_string()))
    );
    assert_eq!(complete_builtin(&mut s, &words(&["-r", "git"])), None);
    assert_eq!(
        complete_builtin(&mut s, &words(&["-p", "git"])),
        Some((Stream::Stderr, "complete: git: no completion specification".to_string()))
    );
    assert_eq!(complete_builtin(&mut s, &words(&["-x"])), None);
}

#[test]
fn history_requests() {
    assert!(matches!(history_request(&words(&["-r", "f"])), HistoryRequest::Read(p) if p == "f"));
    assert!(matches!(history_request(&words(&["-w", "f"])), HistoryRequest::Write(p) if p == "f"));
    assert!(matches!(history_request(&words(&["-a", "f"])), HistoryRequest::Append(p) if p == "f"));
    assert!(matches!(history_request(&words(&["-x", "f"])), HistoryRequest::Ignore));
    assert!(matches!(history_request(&words(&["5"])), HistoryRequest::Show(Some(5))));
    assert!(matches!(history_request(&words(&["+7"])), HistoryRequest::Show(Some(7))));
    assert!(matches!(history_request(&words(&["abc"])), HistoryRequest::Show(None)));
    assert!(matches!(history_request(&words(&[])), HistoryRequest::Show(None)));
    assert!(matches!(history_request(&words(&["1", "2", "3"])), HistoryRequest::Show(Some(1))));
}
