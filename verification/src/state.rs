//! The shell's state: job ids, completion scripts, background jobs and
//! shell variables.
use vstd::prelude::*;
use crate::strmap::StringMap;
use crate::text::{decimal, decimal_string, push_char};

verus! {

/// The completion script registered for a command.
pub struct CompletionSpec {
    pub completer_path: String,
}

/// Hands out job ids: the most recently returned id first, else a new one.
pub struct IDAllocator {
    pub current_id: usize,
    pub recycle_stack: Vec<usize>,
}

/// The value of an [`IDAllocator`]: the next new id and the returned ids,
/// the most recent last.
pub struct IdsView {
    pub next: nat,
    pub free: Seq<usize>,
}

impl View for IDAllocator {
    type V = IdsView;

    open spec fn view(&self) -> IdsView {
        IdsView { next: self.current_id as nat, free: self.recycle_stack@ }
    }
}

/// Ids start at 1, and every returned id is below the next new one.
pub open spec fn ids_wf(v: IdsView) -> bool {
    &&& v.next >= 1
    &&& forall|i: int| 0 <= i < v.free.len() ==> (#[trigger] v.free[i]) < v.next
}

/// The id that an allocation gives, and the allocator after it.
pub open spec fn alloc_spec(v: IdsView) -> (usize, IdsView) {
    if v.free.len() > 0 {
        (v.free.last(), IdsView { next: v.next, free: v.free.drop_last() })
    } else {
        (v.next as usize, IdsView { next: v.next + 1, free: v.free })
    }
}

/// The allocator after `id` is given back.
pub open spec fn dealloc_spec(v: IdsView, id: usize) -> IdsView {
    IdsView { next: v.next, free: v.free.push(id) }
}

impl IDAllocator {
    /// A fresh allocator: the first id it gives is 1.
    pub fn new() -> (res: IDAllocator)
        ensures
            res@.next == 1,
            res@.free == Seq::<usize>::empty(),
            ids_wf(res@),
    {
        IDAllocator { current_id: 1, recycle_stack: Vec::new() }
    }

    /// Gives an id: the one given back last, else a new one.
    pub fn alloc_id(&mut self) -> (id: usize)
        requires
            old(self).recycle_stack.len() > 0 || old(self).current_id < usize::MAX,
        ensures
            (id, final(self)@) == alloc_spec(old(self)@),
    {
        if let Some(id) = self.recycle_stack.pop() {
            return id;
        }
        self.current_id += 1;
        self.current_id - 1
    }

    /// Takes an id back; it must be below the next new id (the shell
    /// aborts otherwise).
    pub fn dealloc_id(&mut self, id: usize)
        requires
            id < old(self).current_id,
        ensures
            final(self)@ == dealloc_spec(old(self)@, id),
    {
        self.recycle_stack.push(id);
    }
}

/// Giving an id back and allocating again gives that id, and leaves the
/// allocator as it was.
pub proof fn law_dealloc_then_alloc(v: IdsView, id: usize)
    requires
        id < v.next,
    ensures
        alloc_spec(dealloc_spec(v, id)) == (id, v),
{
    assert(dealloc_spec(v, id).free.drop_last() =~= v.free);
}

/// Allocation and giving back keep the allocator well formed, and an
/// allocated id can always be given back.
pub proof fn law_ids_wf_kept(v: IdsView, id: usize)
    requires
        ids_wf(v),
    ensures
        ids_wf(alloc_spec(v).1),
        alloc_spec(v).0 < alloc_spec(v).1.next,
        id < v.next ==> ids_wf(dealloc_spec(v, id)),
{
    if v.free.len() > 0 {
        assert(v.free[v.free.len() - 1] < v.next);
        let f = alloc_spec(v).1.free;
        assert forall|i: int| 0 <= i < f.len() implies (#[trigger] f[i]) < v.next by {
            assert(f[i] == v.free[i]);
        }
    }
    if id < v.next {
        let f = dealloc_spec(v, id).free;
        assert forall|i: int| 0 <= i < f.len() implies (#[trigger] f[i]) < v.next by {
            if i < v.free.len() {
                assert(f[i] == v.free[i]);
            }
        }
    }
}

/// From a fresh allocator with no id given back, allocations give 1, 2, 3
/// and so on.
pub proof fn law_fresh_ids_count_up(v: IdsView)
    requires
        v.free.len() == 0,
    ensures
        alloc_spec(v).0 == v.next as usize,
        alloc_spec(alloc_spec(v).1).0 == (v.next + 1) as usize,
        alloc_spec(v).1.free.len() == 0,
{
}

/// The completion scripts, by command name.
pub struct CompletionRegistry {
    pub entries: StringMap,
}

impl View for CompletionRegistry {
    type V = Map<Seq<char>, Seq<char>>;

    open spec fn view(&self) -> Map<Seq<char>, Seq<char>> {
        self.entries@
    }
}

impl CompletionRegistry {
    /// No command has a completion script.
    pub fn new() -> (res: CompletionRegistry)
        ensures
            res@ == Map::<Seq<char>, Seq<char>>::empty(),
    {
        CompletionRegistry { entries: StringMap::new() }
    }

    /// The completion script of `cmd`, if it has one.
    pub fn lookup(&self, cmd: &str) -> (res: Option<CompletionSpec>)
        ensures
            match res {
                Some(s) => self@.contains_key(cmd@) && s.completer_path@ == self@[cmd@],
                None => !self@.contains_key(cmd@),
            },
    {
        match self.entries.get(cmd) {
            Some(p) => Some(CompletionSpec { completer_path: p }),
            None => None,
        }
    }
}

/// The state of a job.
#[derive(Clone, Copy, PartialEq, Eq, Structural, Debug)]
pub enum JobState {
    Running,
    Done,
}

/// `s` followed by spaces up to `width` characters, as `{:<width}` prints it.
pub open spec fn pad_right(s: Seq<char>, width: nat) -> Seq<char> {
    if s.len() >= width {
        s
    } else {
        s + Seq::new((width - s.len()) as nat, |i: int| ' ')
    }
}

pub open spec fn job_state_name(s: JobState) -> Seq<char> {
    match s {
        JobState::Running => "Running"@,
        JobState::Done => "Done"@,
    }
}

/// The column in which a job listing shows a state.
pub open spec fn job_state_column(s: JobState) -> Seq<char> {
    pad_right(job_state_name(s), 24)
}

impl JobState {
    /// The state's name, padded with spaces to 24 characters.
    pub fn column(&self) -> (res: String)
        ensures
            res@ == job_state_column(*self),
    {
        let mut s = match self {
            JobState::Running => "Running".to_owned(),
            JobState::Done => "Done".to_owned(),
        };
        proof {
            reveal_strlit("Running");
            reveal_strlit("Done");
        }
        let ghost name = s@;
        let mut n: usize = match self {
            JobState::Running => 7,
            JobState::Done => 4,
        };
        while n < 24
            invariant
                name == job_state_name(*self),
                name.len() <= n <= 24,
                s@ == name + Seq::new((n - name.len()) as nat, |i: int| ' '),
            decreases 24 - n,
        {
            push_char(&mut s, ' ');
            n += 1;
            assert(s@ =~= name + Seq::new((n - name.len()) as nat, |i: int| ' '));
        }
        s
    }
}

/// A job started in the background.
pub struct JobDetail {
    pub id: usize,
    pub pid: u32,
    pub command_string: String,
    pub state: JobState,
}

impl JobDetail {
    /// A running job.
    pub fn new(id: usize, pid: u32, command_string: String) -> (res: JobDetail)
        ensures
            res.id == id,
            res.pid == pid,
            res.command_string == command_string,
            res.state == JobState::Running,
    {
        JobDetail { id, pid, command_string, state: JobState::Running }
    }
}

/// The background jobs, in the order they started, and the id of the most
/// recent one.
pub struct JobTable {
    pub recent: usize,
    pub jobs: Vec<JobDetail>,
}

/// The line that lists job `j`: `[id]` then `+` for the most recent job (a
/// space otherwise), two spaces, the state column and the command.
pub open spec fn job_line(j: JobDetail, recent: usize) -> Seq<char> {
    "["@ + decimal(j.id as nat) + "]"@ + (if j.id == recent {
        "+"@
    } else {
        " "@
    }) + "  "@ + job_state_column(j.state) + j.command_string@
}

impl JobTable {
    /// No jobs.
    pub fn new() -> (res: JobTable)
        ensures
            res.recent == 0,
            res.jobs@ == Seq::<JobDetail>::empty(),
    {
        JobTable { recent: 0, jobs: Vec::new() }
    }

    /// Adds a job, which becomes the most recent.
    pub fn add(&mut self, detail: JobDetail)
        ensures
            final(self).recent == detail.id,
            final(self).jobs@ == old(self).jobs@.push(detail),
    {
        self.recent = detail.id;
        self.jobs.push(detail);
    }

    /// The lines that list the jobs, one per job, in order.
    pub fn lines(&self) -> (res: Vec<String>)
        ensures
            res.len() == self.jobs.len(),
            forall|i: int|
                0 <= i < self.jobs.len() ==> (#[trigger] res@[i])@ == job_line(
                    self.jobs@[i],
                    self.recent,
                ),
    {
        let mut res: Vec<String> = Vec::new();
        let mut i: usize = 0;
        while i < self.jobs.len()
            invariant
                i <= self.jobs.len(),
                res.len() == i,
                forall|k: int| 0 <= k < i ==> (#[trigger] res@[k])@ == job_line(self.jobs@[k], self.recent),
            decreases self.jobs.len() - i,
        {
            let job = &self.jobs[i];
            let mut line = "[".to_owned();
            let id_text = decimal_string(job.id as u64);
            line.append(id_text.as_str());
            line.append("]");
            if job.id == self.recent {
                line.append("+");
            } else {
                line.append(" ");
            }
            line.append("  ");
            let col = job.state.column();
            line.append(col.as_str());
            line.append(job.command_string.as_str());
            proof {
                assert(line@ =~= job_line(self.jobs@[i as int], self.recent));
            }
            res.push(line);
            i += 1;
        }
        res
    }
}

/// Everything the shell keeps between commands.
pub struct ShellState {
    pub ids: IDAllocator,
    pub jobs: JobTable,
    pub completions: CompletionRegistry,
    /// Shell variables, for `$NAME` expansion.
    pub vars: StringMap,
}

impl ShellState {
    /// The state at start-up.
    pub fn new() -> (res: ShellState)
        ensures
            res.ids@.next == 1,
            res.ids@.free.len() == 0,
            res.jobs.recent == 0,
            res.jobs.jobs@.len() == 0,
            res.completions@ == Map::<Seq<char>, Seq<char>>::empty(),
            res.vars@ == Map::<Seq<char>, Seq<char>>::empty(),
    {
        ShellState {
            ids: IDAllocator::new(),
            jobs: JobTable::new(),
            completions: CompletionRegistry::new(),
            vars: StringMap::new(),
        }
    }
}

/// Registers `path` as the completion script of `cmd`.
pub fn register_completion(shell: &mut ShellState, cmd: String, path: String)
    ensures
        final(shell).completions@ == old(shell).completions@.insert(cmd@, path@),
        final(shell).ids == old(shell).ids,
        final(shell).jobs == old(shell).jobs,
        final(shell).vars == old(shell).vars,
{
    shell.completions.entries.insert(cmd, path);
}

/// Removes the completion script of `cmd`.
pub fn unregister_completion(shell: &mut ShellState, cmd: &str)
    ensures
        final(shell).completions@ == old(shell).completions@.remove(cmd@),
        final(shell).ids == old(shell).ids,
        final(shell).jobs == old(shell).jobs,
        final(shell).vars == old(shell).vars,
{
    shell.completions.entries.remove(cmd);
}

/// The completion script of `cmd`, if one is registered.
pub fn find_completion(shell: &ShellState, cmd: &str) -> (res: Option<String>)
    ensures
        match res {
            Some(p) => shell.completions@.contains_key(cmd@) && p@ == shell.completions@[cmd@],
            None => !shell.completions@.contains_key(cmd@),
        },
{
    match shell.completions.lookup(cmd) {
        Some(spec) => Some(spec.completer_path),
        None => None,
    }
}

/// Gives a job id from the shell's allocator.
pub fn alloc_id(shell: &mut ShellState) -> (id: usize)
    requires
        old(shell).ids.recycle_stack.len() > 0 || old(shell).ids.current_id < usize::MAX,
    ensures
        (id, final(shell).ids@) == alloc_spec(old(shell).ids@),
        final(shell).jobs == old(shell).jobs,
        final(shell).completions == old(shell).completions,
        final(shell).vars == old(shell).vars,
{
    shell.ids.alloc_id()
}

/// Gives a job id back to the shell's allocator.
pub fn dealloc_id(shell: &mut ShellState, id: usize)
    requires
        id < old(shell).ids.current_id,
    ensures
        final(shell).ids@ == dealloc_spec(old(shell).ids@, id),
        final(shell).jobs == old(shell).jobs,
        final(shell).completions == old(shell).completions,
        final(shell).vars == old(shell).vars,
{
    shell.ids.dealloc_id(id);
}

/// Adds a job to the shell's job table.
pub fn add_to_job_table(shell: &mut ShellState, detail: JobDetail)
    ensures
        final(shell).jobs.recent == detail.id,
        final(shell).jobs.jobs@ == old(shell).jobs.jobs@.push(detail),
        final(shell).ids == old(shell).ids,
        final(shell).completions == old(shell).completions,
        final(shell).vars == old(shell).vars,
{
    shell.jobs.add(detail);
}

/// The lines that list the shell's jobs (the caller prints them).
pub fn print_job_table(shell: &ShellState) -> (res: Vec<String>)
    ensures
        res.len() == shell.jobs.jobs.len(),
        forall|i: int|
            0 <= i < shell.jobs.jobs.len() ==> (#[trigger] res@[i])@ == job_line(
                shell.jobs.jobs@[i],
                shell.jobs.recent,
            ),
{
    shell.jobs.lines()
}

/// A registered completion script is found again; other commands keep
/// theirs.
pub proof fn law_register_then_find(
    reg: Map<Seq<char>, Seq<char>>,
    cmd: Seq<char>,
    path: Seq<char>,
    other: Seq<char>,
)
    ensures
        reg.insert(cmd, path).contains_key(cmd),
        reg.insert(cmd, path)[cmd] == path,
        other != cmd ==> (reg.insert(cmd, path).contains_key(other) == reg.contains_key(other)),
        other != cmd && reg.contains_key(other) ==> reg.insert(cmd, path)[other] == reg[other],
{
}

/// An unregistered command has no completion script; other commands keep
/// theirs.
pub proof fn law_unregister_then_find(
    reg: Map<Seq<char>, Seq<char>>,
    cmd: Seq<char>,
    other: Seq<char>,
)
    ensures
        !reg.remove(cmd).contains_key(cmd),
        other != cmd ==> (reg.remove(cmd).contains_key(other) == reg.contains_key(other)),
        other != cmd && reg.contains_key(other) ==> reg.remove(cmd)[other] == reg[other],
{
}

} // verus!
