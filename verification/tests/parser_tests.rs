use shell::parser::{parse, parse_redirect, parse_vars, split, CommandArgs, RedirectMode};
use shell::strmap::StringMap;

fn words(v: &[&str]) -> Vec<String> {
    v.iter().map(|s| s.to_string()).collect()
}

fn no_vars() -> StringMap {
    StringMap::new()
}

#[test]
fn split_words_and_newline() {
    let (groups, start, pending) = split("echo hi\n");
    assert_eq!(groups, vec![words(&["echo", "hi"])]);
    assert_eq!(start, 8);
    assert_eq!(pending, "");
}

#[test]
fn split_keeps_unfinished_word_apart() {
    let (groups, start, pending) = split("echo hi");
    assert_eq!(groups, vec![words(&["echo"])]);
    assert_eq!(start, 5);
    assert_eq!(pending, "hi");
}

#[test]
fn split_pipeline_stages() {
    let (groups, start, pending) = split("ls | grep x");
    assert_eq!(groups, vec![words(&["ls"]), words(&["grep"])]);
    assert_eq!(start, 10);
    assert_eq!(pending, "x");
}

#[test]
fn split_quotes_and_escapes() {
    let (groups, _, pending) = split("'a b' \"c\\\"d\" e\\ f\n");
    assert_eq!(groups, vec![words(&["a b", "c\"d", "e f"])]);
    assert_eq!(pending, "");
}

#[test]
fn split_single_quotes_keep_backslash() {
    let (groups, _, _) = split("echo 'a\\b' \"x'y\"\n");
    assert_eq!(groups, vec![words(&["echo", "a\\b", "x'y"])]);
}

#[test]
fn split_empty_line() {
    let (groups, start, pending) = split("");
    assert_eq!(groups, vec![Vec::<String>::new()]);
    assert_eq!(start, 0);
    assert_eq!(pending, "");
}

#[test]
fn split_empty_quotes_make_no_word() {
    let (groups, _, _) = split("a '' b\n");
    assert_eq!(groups, vec![words(&["a", "b"])]);
}

#[test]
fn split_counts_bytes_for_completion_start() {
    // 'é' takes two bytes, so the blank after it is at byte 2.
    let (groups, start, pending) = split("é x");
    assert_eq!(groups, vec![words(&["é"])]);
    assert_eq!(start, 3);
    assert_eq!(pending, "x");
}

#[test]
fn split_trailing_pipe_gives_empty_stage() {
    let (groups, start, _) = split("ls |");
    assert_eq!(groups, vec![words(&["ls"]), Vec::<String>::new()]);
    assert_eq!(start, 4);
}

fn redirect(v: &[&str]) -> Option<CommandArgs> {
    parse_redirect(words(v))
}

#[test]
fn redirect_stdout_overwrite() {
    let c = redirect(&["echo", "hi", ">", "out.txt"]).unwrap();
    assert_eq!(c.cmd, "echo");
    assert_eq!(c.args, words(&["hi"]));
    assert_eq!(c.stdout, Some(("out.txt".to_string(), RedirectMode::Overwrite)));
    assert_eq!(c.stderr, None);
    assert_eq!(c.backup_the_whole_cmd, None);
}

#[test]
fn redirect_both_streams_append() {
    let c = redirect(&["cat", "2>>", "err", "1>>", "o"]).unwrap();
    assert_eq!(c.cmd, "cat");
    assert!(c.args.is_empty());
    assert_eq!(c.stderr, Some(("err".to_string(), RedirectMode::Append)));
    assert_eq!(c.stdout, Some(("o".to_string(), RedirectMode::Append)));
}

#[test]
fn redirect_stderr_overwrite_and_stdout_one() {
    let c = redirect(&["ls", "x", "2>", "e", "1>", "o"]).unwrap();
    assert_eq!(c.args, words(&["x"]));
    assert_eq!(c.stderr, Some(("e".to_string(), RedirectMode::Overwrite)));
    assert_eq!(c.stdout, Some(("o".to_string(), RedirectMode::Overwrite)));
}

#[test]
fn redirect_only_last_operator_taken() {
    let c = redirect(&["a", ">", "x", ">", "y"]).unwrap();
    assert_eq!(c.cmd, "a");
    assert_eq!(c.args, words(&[">", "x"]));
    assert_eq!(c.stdout, Some(("y".to_string(), RedirectMode::Overwrite)));
}

#[test]
fn background_keeps_whole_stage() {
    let c = redirect(&["sleep", "10", "&"]).unwrap();
    assert_eq!(c.cmd, "sleep");
    assert_eq!(c.args, words(&["10"]));
    assert_eq!(c.backup_the_whole_cmd, Some("sleep 10 &".to_string()));
}

#[test]
fn redirect_refusals() {
    assert!(redirect(&[]).is_none());
    assert!(redirect(&["&"]).is_none());
    assert!(redirect(&["echo", ">"]).is_none());
    assert!(redirect(&["echo", "2>"]).is_none());
    assert!(redirect(&[">", "f"]).is_none());
}

#[test]
fn parse_expands_variables() {
    let mut vars = StringMap::new();
    vars.insert("HOME".to_string(), "/home/u".to_string());
    let c = parse("echo $HOME ${HOME}x $NOPE\n", &vars).unwrap();
    assert_eq!(c.len(), 1);
    assert_eq!(c[0].cmd, "echo");
    assert_eq!(c[0].args, words(&["/home/u", "/home/ux", "$NOPE"]));
}

#[test]
fn parse_vars_replaces_and_keeps() {
    let mut vars = StringMap::new();
    vars.insert("A".to_string(), "1".to_string());
    vars.insert("b_2".to_string(), "two".to_string());
    assert_eq!(parse_vars("x$A-${b_2}$1$", &vars), "x1-two$1$".to_string());
    assert_eq!(parse_vars("plain", &vars), "plain".to_string());
    assert_eq!(parse_vars("é$A é", &vars), "é1 é".to_string());
}

#[test]
fn parse_vars_without_variables_keeps_line() {
    let vars = StringMap::new();
    assert_eq!(parse_vars("echo $HOME ${X} $", &vars), "echo $HOME ${X} $".to_string());
}

#[test]
fn parse_pipeline() {
    let c = parse("ls -l | wc -l\n", &no_vars()).unwrap();
    assert_eq!(c.len(), 2);
    assert_eq!(c[0].cmd, "ls");
    assert_eq!(c[0].args, words(&["-l"]));
    assert_eq!(c[1].cmd, "wc");
    assert_eq!(c[1].args, words(&["-l"]));
}

#[test]
fn parse_refuses_dangling_redirect() {
    assert!(parse("echo a >\n", &no_vars()).is_none());
    assert!(parse("\n", &no_vars()).is_none());
    assert!(parse("ls | \n", &no_vars()).is_none());
}

#[test]
fn parse_without_newline_drops_last_word() {
    let c = parse("echo hi", &no_vars()).unwrap();
    assert_eq!(c[0].cmd, "echo");
    assert!(c[0].args.is_empty());
}

#[test]
fn default_command_is_empty() {
    let c = CommandArgs::default();
    assert_eq!(c.cmd, "");
    assert!(c.args.is_empty());
    assert!(c.stdout.is_none() && c.stderr.is_none() && c.backup_the_whole_cmd.is_none());
}

#[test]
fn single_quotes_keep_specials_in_one_word() {
    let (groups, _, _) = split("'a | b\\c \"d'\n");
    assert_eq!(groups, vec![words(&["a | b\\c \"d"])]);
}
