//! What running a command means: builtins and their arguments, pipelines,
//! and background jobs. The processes themselves are started by the caller.
use vstd::prelude::*;
use crate::parser::{CommandArgs, CommandView};
use crate::state::{
    alloc_spec, add_to_job_table, alloc_id, find_completion, register_completion,
    unregister_completion, JobDetail, ShellState,
};
use crate::text::{
    concat, decimal, decimal_string, is_lit, join, opt_view, parse_usize, parse_usize_spec,
    push_char, seq_join, str_is,
};

verus! {

/// The commands that the shell runs itself.
#[derive(Clone, Copy, PartialEq, Eq, Structural, Debug)]
pub enum Builtin {
    Exit,
    Echo,
    Type,
    Pwd,
    Cd,
    Complete,
    Jobs,
    History,
}

/// The builtin named `s`, if any.
pub open spec fn builtin_of(s: Seq<char>) -> Option<Builtin> {
    if s == "exit"@ {
        Some(Builtin::Exit)
    } else if s == "echo"@ {
        Some(Builtin::Echo)
    } else if s == "type"@ {
        Some(Builtin::Type)
    } else if s == "pwd"@ {
        Some(Builtin::Pwd)
    } else if s == "cd"@ {
        Some(Builtin::Cd)
    } else if s == "complete"@ {
        Some(Builtin::Complete)
    } else if s == "jobs"@ {
        Some(Builtin::Jobs)
    } else if s == "history"@ {
        Some(Builtin::History)
    } else {
        None
    }
}

impl Builtin {
    /// The builtin named `s`, if any.
    pub fn new(s: &str) -> (res: Option<Builtin>)
        ensures
            res == builtin_of(s@),
    {
        if str_is(s, "exit") {
            Some(Builtin::Exit)
        } else if str_is(s, "echo") {
            Some(Builtin::Echo)
        } else if str_is(s, "type") {
            Some(Builtin::Type)
        } else if str_is(s, "pwd") {
            Some(Builtin::Pwd)
        } else if str_is(s, "cd") {
            Some(Builtin::Cd)
        } else if str_is(s, "complete") {
            Some(Builtin::Complete)
        } else if str_is(s, "jobs") {
            Some(Builtin::Jobs)
        } else if str_is(s, "history") {
            Some(Builtin::History)
        } else {
            None
        }
    }
}

/// How one command runs.
pub enum Execution {
    /// The shell runs the builtin itself.
    Builtin(Builtin, CommandArgs),
    /// The shell starts a program.
    External(CommandArgs),
}

/// Decides how a single command runs: as a builtin when its name is one,
/// else as a program.
pub fn execute_single(c: CommandArgs) -> (res: Execution)
    ensures
        match builtin_of(c.cmd@) {
            Some(b) => res matches Execution::Builtin(b2, c2) && b2 == b && c2 == c,
            None => res matches Execution::External(c2) && c2 == c,
        },
{
    match Builtin::new(c.cmd.as_str()) {
        Some(b) => Execution::Builtin(b, c),
        None => Execution::External(c),
    }
}

/// What `echo` prints: its arguments joined by spaces, and a newline.
pub open spec fn echo_text(args: Seq<Seq<char>>) -> Seq<char> {
    seq_join(args, " "@).push('\n')
}

/// The text that `echo` prints for `args`.
pub fn echo_output(args: &Vec<String>) -> (res: String)
    ensures
        res@ == echo_text(args.deep_view()),
{
    let mut s = join(args, " ");
    push_char(&mut s, '\n');
    s
}

/// One stage of a pipeline, ready to start.
pub enum Stage {
    /// A leading `echo`: its text is written into the pipe to the next stage.
    Feed(String),
    /// A builtin in the last position: the shell runs it; it reads nothing.
    RunBuiltin(Builtin, CommandArgs),
    /// A program; `pipe_in` when it reads the previous stage's output,
    /// `pipe_out` when its output goes to the next stage.
    Spawn { cmd: String, args: Vec<String>, pipe_in: bool, pipe_out: bool },
}

/// A command that can stand in a pipeline: no redirection and not in the
/// background.
pub open spec fn plain_command(c: CommandView) -> bool {
    c.background is None && c.stderr is None && c.stdout is None
}

/// The pipeline can run (the shell aborts on any other): every command is
/// plain, and a builtin stands either first as `echo` or last.
pub open spec fn pipeline_ok(cs: Seq<CommandView>) -> bool {
    forall|i: int|
        0 <= i < cs.len() ==> {
            &&& plain_command(#[trigger] cs[i])
            &&& match builtin_of(cs[i].cmd) {
                Some(b) => (b == Builtin::Echo && i == 0) || i == cs.len() - 1,
                None => true,
            }
        }
}

/// The stage that command `c`, at position `i` of `n`, becomes.
pub open spec fn stage_spec(c: CommandView, i: int, n: int) -> StageView {
    match builtin_of(c.cmd) {
        Some(b) => if b == Builtin::Echo && i == 0 {
            StageView::Feed(echo_text(c.args))
        } else {
            StageView::RunBuiltin(b, c)
        },
        None => StageView::Spawn { cmd: c.cmd, args: c.args, pipe_in: i > 0, pipe_out: i < n - 1 },
    }
}

/// The value of a [`Stage`].
pub enum StageView {
    Feed(Seq<char>),
    RunBuiltin(Builtin, CommandView),
    Spawn { cmd: Seq<char>, args: Seq<Seq<char>>, pipe_in: bool, pipe_out: bool },
}

impl View for Stage {
    type V = StageView;

    open spec fn view(&self) -> StageView {
        match self {
            Stage::Feed(t) => StageView::Feed(t@),
            Stage::RunBuiltin(b, c) => StageView::RunBuiltin(*b, c@),
            Stage::Spawn { cmd, args, pipe_in, pipe_out } => StageView::Spawn {
                cmd: cmd@,
                args: args.deep_view(),
                pipe_in: *pipe_in,
                pipe_out: *pipe_out,
            },
        }
    }
}

/// Whether the pipeline can run; see [`pipeline_ok`].
pub fn pipeline_is_valid(commands: &Vec<CommandArgs>) -> (res: bool)
    ensures
        res == pipeline_ok(commands@.map_values(|c: CommandArgs| c@)),
{
    let ghost cv = commands@.map_values(|c: CommandArgs| c@);
    let n = commands.len();
    let mut i: usize = 0;
    while i < n
        invariant
            n == commands.len(),
            cv == commands@.map_values(|c: CommandArgs| c@),
            i <= n,
            forall|k: int|
                0 <= k < i ==> {
                    &&& plain_command(#[trigger] cv[k])
                    &&& match builtin_of(cv[k].cmd) {
                        Some(b) => (b == Builtin::Echo && k == 0) || k == cv.len() - 1,
                        None => true,
                    }
                },
        decreases n - i,
    {
        let c = &commands[i];
        assert(cv[i as int] == c@);
        if c.backup_the_whole_cmd.is_some() || c.stderr.is_some() || c.stdout.is_some() {
            assert(!plain_command(cv[i as int]));
            return false;
        }
        match Builtin::new(c.cmd.as_str()) {
            Some(b) => {
                if !((b == Builtin::Echo && i == 0) || i == n - 1) {
                    return false;
                }
            },
            None => {},
        }
        i += 1;
    }
    true
}

/// The stages of a pipeline, in order; see [`stage_spec`]. The caller starts
/// them and waits for the programs.
pub fn execute_pipeline(commands: Vec<CommandArgs>) -> (res: Vec<Stage>)
    requires
        pipeline_ok(commands@.map_values(|c: CommandArgs| c@)),
    ensures
        res.len() == commands.len(),
        forall|i: int|
            0 <= i < commands.len() ==> (#[trigger] res@[i])@ == stage_spec(
                commands@[i]@,
                i,
                commands.len() as int,
            ),
{
    let ghost cs = commands@;
    let n = commands.len();
    let mut out: Vec<Stage> = Vec::new();
    for c in it: commands.into_iter()
        invariant
            it.seq() == cs,
            n == cs.len(),
            out.len() == it.index(),
            forall|k: int| 0 <= k < it.index() ==> (#[trigger] out@[k])@ == stage_spec(cs[k]@, k, n as int),
    {
        let i = out.len();
        proof {
            assert(cs[i as int] == c);
        }
        let stage = match Builtin::new(c.cmd.as_str()) {
            Some(b) => {
                if b == Builtin::Echo && i == 0 {
                    Stage::Feed(echo_output(&c.args))
                } else {
                    Stage::RunBuiltin(b, c)
                }
            },
            None => {
                let pipe_in = i > 0;
                let pipe_out = i + 1 < n;
                Stage::Spawn { cmd: c.cmd, args: c.args, pipe_in, pipe_out }
            },
        };
        out.push(stage);
    }
    out
}

/// Where a line of output goes.
#[derive(Clone, Copy, PartialEq, Eq, Structural, Debug)]
pub enum Stream {
    Stdout,
    Stderr,
}

/// What `type NAME` reports, given where `PATH` lookup found `NAME` (the
/// lookup is only made for names that are not builtins).
pub open spec fn type_report_spec(name: Seq<char>, found: Option<Seq<char>>) -> (Stream, Seq<char>) {
    if builtin_of(name) is Some {
        (Stream::Stdout, name + " is a shell builtin"@)
    } else {
        match found {
            Some(p) => (Stream::Stdout, name + " is "@ + p),
            None => (Stream::Stderr, name + ": not found"@),
        }
    }
}

/// The line that `type` prints for `name`.
pub fn type_report(name: &str, found: Option<String>) -> (res: (Stream, String))
    ensures
        res.0 == type_report_spec(name@, opt_view(found)).0,
        res.1@ == type_report_spec(name@, opt_view(found)).1,
{
    if Builtin::new(name).is_some() {
        (Stream::Stdout, concat(name, " is a shell builtin"))
    } else {
        match found {
            Some(p) => {
                let mut s = concat(name, " is ");
                s.append(p.as_str());
                (Stream::Stdout, s)
            },
            None => (Stream::Stderr, concat(name, ": not found")),
        }
    }
}

/// The directory that `cd` changes to: nothing without arguments; for `~`
/// the home directory, or `/` when it is unknown; else the first argument.
pub open spec fn cd_target_spec(args: Seq<Seq<char>>, home: Option<Seq<char>>) -> Option<Seq<char>> {
    if args.len() == 0 {
        None
    } else if args[0] == "~"@ {
        match home {
            Some(h) => Some(h),
            None => Some("/"@),
        }
    } else {
        Some(args[0])
    }
}

/// The directory that `cd` changes to; see [`cd_target_spec`].
pub fn cd_target(args: &Vec<String>, home: Option<String>) -> (res: Option<String>)
    ensures
        opt_view(res) == cd_target_spec(args.deep_view(), opt_view(home)),
{
    if args.len() == 0 {
        return None;
    }
    assert(args.deep_view()[0] == args@[0]@);
    if is_lit(&args[0], "~") {
        match home {
            Some(h) => Some(h),
            None => Some("/".to_owned()),
        }
    } else {
        Some(args[0].clone())
    }
}

/// What `cd` prints when it cannot change to `target`.
pub fn cd_error(target: &str) -> (res: String)
    ensures
        res@ == "cd: "@ + target@ + ": No such file or directory"@,
{
    let mut s = concat("cd: ", target);
    s.append(": No such file or directory");
    s
}

/// What the shell prints when a program cannot be found.
pub fn not_found_message(cmd: &str) -> (res: String)
    ensures
        res@ == cmd@ + ": command not found"@,
{
    concat(cmd, ": command not found")
}

pub open spec fn line_view(l: Option<(Stream, String)>) -> Option<(Stream, Seq<char>)> {
    match l {
        Some((st, t)) => Some((st, t@)),
        None => None,
    }
}

/// The effect of `complete` with arguments `args` on the registry `reg`,
/// and the line it prints: `-p CMD` shows the script of `CMD` (or complains
/// on standard error); `-C SCRIPT CMD` registers; `-r CMD` unregisters;
/// anything else does nothing.
pub open spec fn complete_spec(reg: Map<Seq<char>, Seq<char>>, args: Seq<Seq<char>>) -> (
    Map<Seq<char>, Seq<char>>,
    Option<(Stream, Seq<char>)>,
) {
    if args.len() == 2 && args[0] == "-p"@ {
        if reg.contains_key(args[1]) {
            (reg, Some((Stream::Stdout, "complete -C '"@ + reg[args[1]] + "' "@ + args[1])))
        } else {
            (
                reg,
                Some((Stream::Stderr, "complete: "@ + args[1] + ": no completion specification"@)),
            )
        }
    } else if args.len() == 3 && args[0] == "-C"@ {
        (reg.insert(args[2], args[1]), None)
    } else if args.len() == 2 && args[0] == "-r"@ {
        (reg.remove(args[1]), None)
    } else {
        (reg, None)
    }
}

/// Runs the `complete` builtin on the shell's registry; returns the line to
/// print, if any. See [`complete_spec`].
pub fn complete_builtin(shell: &mut ShellState, args: &Vec<String>) -> (res: Option<
    (Stream, String),
>)
    ensures
        final(shell).completions@ == complete_spec(old(shell).completions@, args.deep_view()).0,
        line_view(res) == complete_spec(old(shell).completions@, args.deep_view()).1,
        final(shell).ids == old(shell).ids,
        final(shell).jobs == old(shell).jobs,
        final(shell).vars == old(shell).vars,
{
    let ghost av = args.deep_view();
    if args.len() == 2 && is_lit(&args[0], "-p") {
        assert(av[0] == args@[0]@ && av[1] == args@[1]@);
        match find_completion(shell, args[1].as_str()) {
            Some(s) => {
                let mut line = concat("complete -C '", s.as_str());
                line.append("' ");
                line.append(args[1].as_str());
                Some((Stream::Stdout, line))
            },
            None => {
                let mut line = concat("complete: ", args[1].as_str());
                line.append(": no completion specification");
                Some((Stream::Stderr, line))
            },
        }
    } else if args.len() == 3 && is_lit(&args[0], "-C") {
        assert(av[0] == args@[0]@ && av[1] == args@[1]@ && av[2] == args@[2]@);
        register_completion(shell, args[2].clone(), args[1].clone());
        None
    } else if args.len() == 2 && is_lit(&args[0], "-r") {
        assert(av[0] == args@[0]@ && av[1] == args@[1]@);
        unregister_completion(shell, args[1].as_str());
        None
    } else {
        proof {
            if args.len() == 2 || args.len() == 3 {
                assert(av[0] == args@[0]@);
            }
        }
        None
    }
}

/// Whether the shell's allocator can give another job id.
pub fn can_start_job(shell: &ShellState) -> (res: bool)
    ensures
        res == (shell.ids.recycle_stack.len() > 0 || shell.ids.current_id < usize::MAX),
{
    shell.ids.recycle_stack.len() > 0 || shell.ids.current_id < usize::MAX
}

/// Records a program started in the background with process id `pid`:
/// gives it a job id, adds it to the job table, and returns the line that
/// announces it, `[ID] PID`.
pub fn start_background_job(shell: &mut ShellState, pid: u32, command: String) -> (res: String)
    requires
        old(shell).ids.recycle_stack.len() > 0 || old(shell).ids.current_id < usize::MAX,
    ensures
        ({
            let (id, ids) = alloc_spec(old(shell).ids@);
            &&& final(shell).ids@ == ids
            &&& final(shell).jobs.recent == id
            &&& final(shell).jobs.jobs@ == old(shell).jobs.jobs@.push(
                JobDetail { id, pid, command_string: command, state: crate::state::JobState::Running },
            )
            &&& res@ == "["@ + decimal(id as nat) + "] "@ + decimal(pid as nat)
        }),
        final(shell).completions == old(shell).completions,
        final(shell).vars == old(shell).vars,
{
    let id = alloc_id(shell);
    let mut line = "[".to_owned();
    let id_text = decimal_string(id as u64);
    line.append(id_text.as_str());
    line.append("] ");
    let pid_text = decimal_string(pid as u64);
    line.append(pid_text.as_str());
    add_to_job_table(shell, JobDetail::new(id, pid, command));
    line
}

/// What the `history` builtin is asked to do.
pub enum HistoryRequest {
    /// `-r FILE`: read the history from a file.
    Read(String),
    /// `-w FILE`: write the history to a file.
    Write(String),
    /// `-a FILE`: append the history to a file.
    Append(String),
    /// Show the history: the last `n` entries, or all.
    Show(Option<usize>),
    /// Two arguments with an unknown option: nothing.
    Ignore,
}

/// The value of a [`HistoryRequest`].
pub enum HistoryRequestView {
    Read(Seq<char>),
    Write(Seq<char>),
    Append(Seq<char>),
    Show(Option<usize>),
    Ignore,
}

impl View for HistoryRequest {
    type V = HistoryRequestView;

    open spec fn view(&self) -> HistoryRequestView {
        match self {
            HistoryRequest::Read(p) => HistoryRequestView::Read(p@),
            HistoryRequest::Write(p) => HistoryRequestView::Write(p@),
            HistoryRequest::Append(p) => HistoryRequestView::Append(p@),
            HistoryRequest::Show(n) => HistoryRequestView::Show(*n),
            HistoryRequest::Ignore => HistoryRequestView::Ignore,
        }
    }
}

/// What `history ARGS` asks for: with two arguments, `-r`, `-w` or `-a` and
/// a file; otherwise showing the entries, as many as the first argument says
/// when it is a number.
pub open spec fn history_request_spec(args: Seq<Seq<char>>) -> HistoryRequestView {
    if args.len() == 2 {
        if args[0] == "-r"@ {
            HistoryRequestView::Read(args[1])
        } else if args[0] == "-w"@ {
            HistoryRequestView::Write(args[1])
        } else if args[0] == "-a"@ {
            HistoryRequestView::Append(args[1])
        } else {
            HistoryRequestView::Ignore
        }
    } else {
        HistoryRequestView::Show(
            if args.len() > 0 {
                parse_usize_spec(args[0])
            } else {
                None
            },
        )
    }
}

/// What `history` is asked to do; see [`history_request_spec`].
pub fn history_request(args: &Vec<String>) -> (res: HistoryRequest)
    ensures
        res@ == history_request_spec(args.deep_view()),
{
    let ghost av = args.deep_view();
    if args.len() == 2 {
        assert(av[0] == args@[0]@ && av[1] == args@[1]@);
        if is_lit(&args[0], "-r") {
            HistoryRequest::Read(args[1].clone())
        } else if is_lit(&args[0], "-w") {
            HistoryRequest::Write(args[1].clone())
        } else if is_lit(&args[0], "-a") {
            HistoryRequest::Append(args[1].clone())
        } else {
            HistoryRequest::Ignore
        }
    } else if args.len() > 0 {
        assert(av[0] == args@[0]@);
        HistoryRequest::Show(parse_usize(args[0].as_str()))
    } else {
        HistoryRequest::Show(None)
    }
}

/// After `complete -C SCRIPT CMD`, `complete -p CMD` shows that script.
pub proof fn law_complete_register_then_show(
    reg: Map<Seq<char>, Seq<char>>,
    script: Seq<char>,
    cmd: Seq<char>,
)
    ensures
        ({
            let r1 = complete_spec(reg, seq!["-C"@, script, cmd]).0;
            &&& r1 == reg.insert(cmd, script)
            &&& complete_spec(r1, seq!["-p"@, cmd]) == (
                r1,
                Some((Stream::Stdout, "complete -C '"@ + script + "' "@ + cmd)),
            )
        }),
{
    reveal_strlit("-C");
    reveal_strlit("-p");
    let a1 = seq!["-C"@, script, cmd];
    assert(a1.len() == 3 && a1[0] == "-C"@);
    let a2 = seq!["-p"@, cmd];
    assert(a2.len() == 2 && a2[0] == "-p"@ && a2[1] == cmd);
}

/// After `complete -r CMD`, `complete -p CMD` reports that there is no
/// completion specification.
pub proof fn law_complete_unregister_then_show(reg: Map<Seq<char>, Seq<char>>, cmd: Seq<char>)
    ensures
        ({
            let r1 = complete_spec(reg, seq!["-r"@, cmd]).0;
            &&& r1 == reg.remove(cmd)
            &&& complete_spec(r1, seq!["-p"@, cmd]) == (
                r1,
                Some((Stream::Stderr, "complete: "@ + cmd + ": no completion specification"@)),
            )
        }),
{
    reveal_strlit("-r");
    reveal_strlit("-p");
    let a1 = seq!["-r"@, cmd];
    assert(("-r"@)[1] != ("-p"@)[1]);
    assert(a1.len() == 2 && a1[0] == "-r"@ && a1[0] != "-p"@ && a1[1] == cmd);
    let a2 = seq!["-p"@, cmd];
    assert(a2.len() == 2 && a2[0] == "-p"@ && a2[1] == cmd);
}

/// In a pipeline the first program reads no pipe and the last writes none;
/// every other program reads from and writes to a pipe.
pub proof fn law_pipeline_ends(c: CommandView, i: int, n: int)
    requires
        0 <= i < n,
        builtin_of(c.cmd) is None,
    ensures
        stage_spec(c, i, n) matches StageView::Spawn { pipe_in, pipe_out, .. } && pipe_in == (i
            > 0) && pipe_out == (i < n - 1),
{
}

} // verus!
