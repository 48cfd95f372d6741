//! The line editor: what each key press does to the line being typed, and
//! tab completion. The terminal itself is driven by the caller, which prints
//! what the editor returns.
use vstd::prelude::*;
use crate::order::{
    lemma_between_shares_prefix, lemma_sorted_set_of_props, lex_lt, sorted_set_of, sorted_unique,
    strictly_sorted,
};
use crate::parser::{
    char_index, char_index_checked, commands_view, is_boundary, lemma_scan_bound, parse,
    parse_spec, pending_word, completion_start, regex_captures_of, split, split_groups,
    CommandArgs, CommandView, Span, VAR_PATTERN,
};
use crate::state::{find_completion, ShellState};
use crate::text::{
    char_width, chars_of, chars_skip, decimal, decimal_string, is_lit, join, lemma_utf8_len_mono,
    lemma_utf8_len_step, push_char, seq_join, string_of, string_of_range, trim, trim_chars,
    utf8_byte_len, utf8_len,
};

verus! {

/// The keys that the editor tells apart.
#[derive(Clone, Copy, PartialEq, Eq, Structural, Debug)]
pub enum KeyCode {
    Enter,
    Tab,
    Backspace,
    Up,
    Down,
    Char(char),
    Other,
}

/// The modifier bit of the Shift key.
pub const SHIFT: u8 = 1;

/// The modifier bit of the Control key.
pub const CONTROL: u8 = 2;

/// A key press: the key and the bits of the modifiers held with it (Shift 1,
/// Control 2, Alt 4, Super 8, Hyper 16, Meta 32).
#[derive(Clone, Copy, PartialEq, Eq, Structural, Debug)]
pub struct KeyPress {
    pub code: KeyCode,
    pub modifiers: u8,
}

/// What a key press asks the editor to do.
#[derive(Clone, Copy, PartialEq, Eq, Structural, Debug)]
pub enum EditorEvent {
    Submit,
    Complete,
    Erase,
    Insert(char),
    HistoryUp,
    HistoryDown,
    Ignore,
}

/// Enter, or Control-J, submits the line; Tab completes; Backspace erases;
/// a character, alone or with Shift, is typed; Up and Down walk the
/// history. Any other key, or other modifiers, does nothing.
pub open spec fn classify_spec(k: KeyPress) -> EditorEvent {
    if (k.code == KeyCode::Enter && k.modifiers == 0) || (k.code == KeyCode::Char('j')
        && k.modifiers == CONTROL) {
        EditorEvent::Submit
    } else if k.code == KeyCode::Tab && k.modifiers == 0 {
        EditorEvent::Complete
    } else if k.code == KeyCode::Backspace && k.modifiers == 0 {
        EditorEvent::Erase
    } else if k.code is Char && (k.modifiers == 0 || k.modifiers == SHIFT) {
        EditorEvent::Insert(k.code->Char_0)
    } else if k.code == KeyCode::Up && k.modifiers == 0 {
        EditorEvent::HistoryUp
    } else if k.code == KeyCode::Down && k.modifiers == 0 {
        EditorEvent::HistoryDown
    } else {
        EditorEvent::Ignore
    }
}

/// What a key press asks the editor to do; see [`classify_spec`].
pub fn classify_key(k: KeyPress) -> (res: EditorEvent)
    ensures
        res == classify_spec(k),
{
    match k.code {
        KeyCode::Enter => if k.modifiers == 0 {
            EditorEvent::Submit
        } else {
            EditorEvent::Ignore
        },
        KeyCode::Char(c) => {
            if c == 'j' && k.modifiers == CONTROL {
                EditorEvent::Submit
            } else if k.modifiers == 0 || k.modifiers == SHIFT {
                EditorEvent::Insert(c)
            } else {
                EditorEvent::Ignore
            }
        },
        KeyCode::Tab => if k.modifiers == 0 {
            EditorEvent::Complete
        } else {
            EditorEvent::Ignore
        },
        KeyCode::Backspace => if k.modifiers == 0 {
            EditorEvent::Erase
        } else {
            EditorEvent::Ignore
        },
        KeyCode::Up => if k.modifiers == 0 {
            EditorEvent::HistoryUp
        } else {
            EditorEvent::Ignore
        },
        KeyCode::Down => if k.modifiers == 0 {
            EditorEvent::HistoryDown
        } else {
            EditorEvent::Ignore
        },
        KeyCode::Other => EditorEvent::Ignore,
    }
}

/// The line being typed.
pub struct LineEditor {
    input_buffer: String,
    tab_flag: bool,
    should_exit: bool,
}

/// The value of a [`LineEditor`]: the line, whether the last Tab found
/// candidates without a common prefix, and whether `exit` was submitted.
pub struct EditorView {
    pub buffer: Seq<char>,
    pub tab_flag: bool,
    pub should_exit: bool,
}

impl View for LineEditor {
    type V = EditorView;

    closed spec fn view(&self) -> EditorView {
        EditorView {
            buffer: self.input_buffer@,
            tab_flag: self.tab_flag,
            should_exit: self.should_exit,
        }
    }
}

/// Where completion candidates come from.
pub enum CandidateSource {
    /// All commands: the word under the cursor is the first of its stage.
    Commands,
    /// The output of a completion script, run with arguments `args` (the
    /// command, the word under the cursor, the last finished word) and with
    /// `COMP_LINE` set to `line` and `COMP_POINT` to `point`.
    Script { script: String, args: Vec<String>, line: String, point: String },
    /// The entries of a directory.
    Directory(String),
}

/// A completion to perform: where candidates come from, and the byte offset
/// in the line at which the text they complete starts.
pub struct CompletionRequest {
    pub source: CandidateSource,
    pub start: usize,
}

pub enum SourceView {
    Commands,
    Script { script: Seq<char>, args: Seq<Seq<char>>, line: Seq<char>, point: Seq<char> },
    Directory(Seq<char>),
}

pub struct RequestView {
    pub source: SourceView,
    pub start: nat,
}

impl View for CompletionRequest {
    type V = RequestView;

    open spec fn view(&self) -> RequestView {
        RequestView {
            source: match self.source {
                CandidateSource::Commands => SourceView::Commands,
                CandidateSource::Script { script, args, line, point } => SourceView::Script {
                    script: script@,
                    args: args.deep_view(),
                    line: line@,
                    point: point@,
                },
                CandidateSource::Directory(d) => SourceView::Directory(d@),
            },
            start: self.start as nat,
        }
    }
}

/// The index of the last `/` in `s`.
pub open spec fn last_slash(s: Seq<char>) -> Option<int>
    decreases s.len(),
{
    if s.len() == 0 {
        None
    } else if s.last() == '/' {
        Some(s.len() - 1)
    } else {
        last_slash(s.drop_last())
    }
}

/// The completion that Tab asks for on line `buf`, with completion scripts
/// `reg`: commands for the first word of a stage; else the registered
/// script of the stage's command; else the entries of the directory part of
/// the word (up to its last `/`, the text after which is what is completed),
/// or of `.`.
pub open spec fn completion_request_spec(buf: Seq<char>, reg: Map<Seq<char>, Seq<char>>) -> RequestView {
    let stage = split_groups(buf).last();
    let word = pending_word(buf);
    let start = completion_start(buf);
    if stage.len() == 0 {
        RequestView { source: SourceView::Commands, start }
    } else if reg.contains_key(stage[0]) {
        RequestView {
            source: SourceView::Script {
                script: reg[stage[0]],
                args: seq![stage[0], word, stage.last()],
                line: buf,
                point: decimal(utf8_len(buf)),
            },
            start,
        }
    } else {
        match last_slash(word) {
            Some(j) => RequestView {
                source: SourceView::Directory(word.take(j)),
                start: start + utf8_len(word.take(j)) + 1,
            },
            None => RequestView { source: SourceView::Directory("."@), start },
        }
    }
}

fn find_last_slash(s: &Vec<char>) -> (res: Option<usize>)
    ensures
        match res {
            Some(i) => i < s.len() && last_slash(s@) == Some(i as int),
            None => last_slash(s@) is None,
        },
{
    let mut i = s.len();
    assert(s@.take(i as int) =~= s@);
    while i > 0
        invariant
            i <= s.len(),
            last_slash(s@) == last_slash(s@.take(i as int)),
        decreases i,
    {
        i -= 1;
        assert(s@.take(i + 1).drop_last() =~= s@.take(i as int));
        if s[i] == '/' {
            return Some(i);
        }
    }
    None
}

/// Candidates that start with `prefix`, in order.
pub open spec fn matching(cands: Seq<Seq<char>>, prefix: Seq<char>) -> Seq<Seq<char>>
    decreases cands.len(),
{
    if cands.len() == 0 {
        seq![]
    } else {
        let rest = matching(cands.drop_last(), prefix);
        if prefix.is_prefix_of(cands.last()) {
            rest.push(cands.last())
        } else {
            rest
        }
    }
}

/// The number of leading characters that `a` and `b` share.
pub open spec fn lcp_len(a: Seq<char>, b: Seq<char>) -> nat
    decreases a.len(),
{
    if a.len() == 0 || b.len() == 0 || a[0] != b[0] {
        0
    } else {
        1 + lcp_len(a.drop_first(), b.drop_first())
    }
}

/// What Tab shows.
pub enum TabOutcome {
    /// Nothing to do (the line is empty).
    Nothing,
    /// No completion: ring the bell.
    Bell,
    /// This text was added to the line; print it.
    Insert(String),
    /// Several candidates: print them on a line of their own, then the
    /// prompt and the line again.
    ShowList(String),
}

pub enum TabView {
    Nothing,
    Bell,
    Insert(Seq<char>),
    ShowList(Seq<char>),
}

impl View for TabOutcome {
    type V = TabView;

    open spec fn view(&self) -> TabView {
        match self {
            TabOutcome::Nothing => TabView::Nothing,
            TabOutcome::Bell => TabView::Bell,
            TabOutcome::Insert(t) => TabView::Insert(t@),
            TabOutcome::ShowList(t) => TabView::ShowList(t@),
        }
    }
}

/// The text that a Tab outcome adds to the line.
pub open spec fn tab_inserted(t: TabView) -> Seq<char> {
    match t {
        TabView::Insert(x) => x,
        _ => seq![],
    }
}

/// What Tab does on line `buf` with flag `flag`, given the candidates and
/// the byte offset `start` where the completed text begins: the new flag
/// and the outcome. `None` where completion is undefined because it would
/// slice a string off a character boundary: `start` is not one, or the
/// common prefix of several candidates, counted in characters but used as a
/// byte length, ends inside a character (the shell aborts there).
///
/// The candidates are sorted without duplicates and those that start with
/// the text from `start` on are kept. None: bell. One: its rest is added,
/// and a space unless the line then ends with `/`. Several: on the second
/// Tab in a row they are listed; else their common prefix is added, or, if
/// there is none, the bell rings and the next Tab will list them.
pub open spec fn tab_plan(buf: Seq<char>, flag: bool, cands: Seq<Seq<char>>, start: int) -> Option<
    (bool, TabView),
> {
    if !is_boundary(buf, start) {
        None
    } else if buf.len() == 0 {
        Some((flag, TabView::Nothing))
    } else {
        let prefix = buf.skip(char_index(buf, start));
        let m = matching(sorted_set_of(cands), prefix);
        let pl = prefix.len() as int;
        if m.len() == 0 {
            Some((false, TabView::Bell))
        } else if m.len() == 1 {
            let comp = m[0].skip(pl);
            let b1 = buf + comp;
            Some(
                (
                    false,
                    TabView::Insert(
                        if b1.last() == '/' {
                            comp
                        } else {
                            comp.push(' ')
                        },
                    ),
                ),
            )
        } else if flag {
            Some((false, TabView::ShowList(seq_join(m, " "@))))
        } else {
            let first = m[0].skip(pl);
            let last = m.last().skip(pl);
            let n = lcp_len(first, last);
            if n > 0 {
                if is_boundary(first, n as int) {
                    Some((false, TabView::Insert(first.take(char_index(first, n as int)))))
                } else {
                    None
                }
            } else {
                Some((true, TabView::Bell))
            }
        }
    }
}

/// What is done with a submitted line.
pub enum SubmitResult {
    /// `exit` was submitted: the shell stops.
    Exit,
    /// Run one command alone.
    Single(CommandArgs),
    /// Run several commands as a pipeline.
    Pipeline(Vec<CommandArgs>),
    /// The line describes no command.
    Nothing,
}

pub enum SubmitView {
    Exit,
    Single(CommandView),
    Pipeline(Seq<CommandView>),
    Nothing,
}

impl View for SubmitResult {
    type V = SubmitView;

    open spec fn view(&self) -> SubmitView {
        match self {
            SubmitResult::Exit => SubmitView::Exit,
            SubmitResult::Single(c) => SubmitView::Single(c@),
            SubmitResult::Pipeline(c) => SubmitView::Pipeline(commands_view(c@)),
            SubmitResult::Nothing => SubmitView::Nothing,
        }
    }
}

/// What a key press leaves for the caller to do.
pub enum KeyOutcome {
    Nothing,
    /// Print this text.
    Echo(String),
    /// The line was submitted: print a line break, record `history_entry`
    /// in the history, then act on `run` (and, unless the shell stops, print
    /// the prompt).
    Submitted { history_entry: String, run: SubmitResult },
    /// Tab: gather the candidates of the request, then call
    /// [`LineEditor::complete`].
    Complete(CompletionRequest),
    /// Recall the previous history entry with [`LineEditor::replace_line`].
    HistoryUp,
    /// Recall the next history entry with [`LineEditor::replace_line`].
    HistoryDown,
}

pub enum OutcomeView {
    Nothing,
    Echo(Seq<char>),
    Submitted { history_entry: Seq<char>, run: SubmitView },
    Complete(RequestView),
    HistoryUp,
    HistoryDown,
}

impl View for KeyOutcome {
    type V = OutcomeView;

    open spec fn view(&self) -> OutcomeView {
        match self {
            KeyOutcome::Nothing => OutcomeView::Nothing,
            KeyOutcome::Echo(t) => OutcomeView::Echo(t@),
            KeyOutcome::Submitted { history_entry, run } => OutcomeView::Submitted {
                history_entry: history_entry@,
                run: run@,
            },
            KeyOutcome::Complete(r) => OutcomeView::Complete(r@),
            KeyOutcome::HistoryUp => OutcomeView::HistoryUp,
            KeyOutcome::HistoryDown => OutcomeView::HistoryDown,
        }
    }
}

/// The commands of a submitted line, given what the regex engine finds in it.
pub open spec fn submitted_commands(
    line: Seq<char>,
    caps: Option<Seq<Seq<Option<Span>>>>,
    vars: Map<Seq<char>, Seq<char>>,
) -> Option<Seq<CommandView>> {
    match caps {
        Some(c) => parse_spec(line, c, vars),
        None => None,
    }
}

/// What one event does to the editor, and what it leaves to the caller.
/// `caps` is what the regex engine finds in the line submitted with a line
/// break added; `vars` are the shell variables and `reg` the completion
/// scripts.
///
/// Submitting records the line, then parses it with a line break added:
/// if its first command is `exit` the editor keeps the line and stops;
/// otherwise the line is cleared and the commands, if any, run: one alone,
/// several as a pipeline. Erasing
/// drops the last character (and prints backspace, space, backspace).
/// Typing adds a character and prints it.
pub open spec fn key_spec(
    ed: EditorView,
    ev: EditorEvent,
    caps: Option<Seq<Seq<Option<Span>>>>,
    vars: Map<Seq<char>, Seq<char>>,
    reg: Map<Seq<char>, Seq<char>>,
) -> (EditorView, OutcomeView) {
    match ev {
        EditorEvent::Submit => {
            let line = ed.buffer.push('\n');
            match submitted_commands(line, caps, vars) {
                Some(cs) => if cs[0].cmd == "exit"@ {
                    (
                        EditorView { buffer: line, should_exit: true, ..ed },
                        OutcomeView::Submitted { history_entry: ed.buffer, run: SubmitView::Exit },
                    )
                } else {
                    (
                        EditorView { buffer: seq![], ..ed },
                        OutcomeView::Submitted {
                            history_entry: ed.buffer,
                            run: if cs.len() == 1 {
                                SubmitView::Single(cs[0])
                            } else {
                                SubmitView::Pipeline(cs)
                            },
                        },
                    )
                },
                None => (
                    EditorView { buffer: seq![], ..ed },
                    OutcomeView::Submitted { history_entry: ed.buffer, run: SubmitView::Nothing },
                ),
            }
        },
        EditorEvent::Complete => (ed, OutcomeView::Complete(completion_request_spec(ed.buffer, reg))),
        EditorEvent::Erase => if ed.buffer.len() > 0 {
            (EditorView { buffer: ed.buffer.drop_last(), ..ed }, OutcomeView::Echo("\x08 \x08"@))
        } else {
            (ed, OutcomeView::Nothing)
        },
        EditorEvent::Insert(c) => (
            EditorView { buffer: ed.buffer.push(c), ..ed },
            OutcomeView::Echo(seq![c]),
        ),
        EditorEvent::HistoryUp => (ed, OutcomeView::HistoryUp),
        EditorEvent::HistoryDown => (ed, OutcomeView::HistoryDown),
        EditorEvent::Ignore => (ed, OutcomeView::Nothing),
    }
}

fn has_prefix(s: &Vec<char>, p: &Vec<char>) -> (res: bool)
    ensures
        res == p@.is_prefix_of(s@),
{
    if p.len() > s.len() {
        return false;
    }
    let mut i: usize = 0;
    while i < p.len()
        invariant
            p.len() <= s.len(),
            i <= p.len(),
            forall|j: int| 0 <= j < i ==> p@[j] == s@[j],
        decreases p.len() - i,
    {
        if p[i] != s[i] {
            return false;
        }
        i += 1;
    }
    assert(p@ =~= s@.take(p.len() as int));
    true
}

fn lcp(a: &Vec<char>, b: &Vec<char>) -> (n: usize)
    ensures
        n == lcp_len(a@, b@),
        n <= a.len(),
{
    let mut i: usize = 0;
    proof {
        lemma_lcp_skip0(a@, b@);
    }
    while i < a.len() && i < b.len() && a[i] == b[i]
        invariant
            i <= a.len(),
            i <= b.len(),
            lcp_len(a@, b@) == i + lcp_len(a@.skip(i as int), b@.skip(i as int)),
        decreases a.len() - i,
    {
        assert(a@.skip(i as int).drop_first() =~= a@.skip(i + 1));
        assert(b@.skip(i as int).drop_first() =~= b@.skip(i + 1));
        i += 1;
    }
    i
}

proof fn lemma_lcp_skip0(a: Seq<char>, b: Seq<char>)
    ensures
        lcp_len(a, b) == 0 + lcp_len(a.skip(0), b.skip(0)),
{
    assert(a.skip(0) =~= a);
    assert(b.skip(0) =~= b);
}

impl LineEditor {
    /// An empty line.
    pub fn new() -> (res: LineEditor)
        ensures
            res@.buffer == Seq::<char>::empty(),
            !res@.tab_flag,
            !res@.should_exit,
    {
        LineEditor { input_buffer: String::new(), tab_flag: false, should_exit: false }
    }

    /// Whether `exit` was submitted.
    pub fn should_exit(&self) -> (res: bool)
        ensures
            res == self@.should_exit,
    {
        self.should_exit
    }

    /// The line being typed.
    pub fn line(&self) -> (res: &String)
        ensures
            res@ == self@.buffer,
    {
        &self.input_buffer
    }

    /// Puts `s` in place of the line (a recalled history entry); the caller
    /// redraws the prompt and prints `s`.
    pub fn replace_line(&mut self, s: &str)
        ensures
            final(self)@ == (EditorView { buffer: s@, ..old(self)@ }),
    {
        self.input_buffer = s.to_owned();
    }

    /// The completion that Tab asks for; see [`completion_request_spec`].
    pub fn completion_request(&self, shell: &ShellState) -> (res: CompletionRequest)
        ensures
            res@ == completion_request_spec(self@.buffer, shell.completions@),
    {
        let ghost buf = self.input_buffer@;
        let total = utf8_byte_len(self.input_buffer.as_str());
        let (commands, start, pending) = split(self.input_buffer.as_str());
        proof {
            lemma_scan_bound(buf);
        }
        let last = commands.len() - 1;
        let stage = &commands[last];
        assert(commands.deep_view()[last as int] == stage.deep_view());
        if stage.len() == 0 {
            return CompletionRequest { source: CandidateSource::Commands, start };
        }
        assert(stage.deep_view()[0] == stage@[0]@);
        match find_completion(shell, stage[0].as_str()) {
            Some(script) => {
                let cmd = stage[0].clone();
                let prev = stage[stage.len() - 1].clone();
                assert(stage.deep_view().last() == prev@);
                let mut args: Vec<String> = Vec::new();
                args.push(cmd);
                args.push(pending);
                args.push(prev);
                let line = self.input_buffer.clone();
                let point = decimal_string(total as u64);
                proof {
                    assert(args.deep_view() =~= seq![stage.deep_view()[0], pending_word(buf), stage.deep_view().last()]);
                }
                CompletionRequest { source: CandidateSource::Script { script, args, line, point }, start }
            },
            None => {
                let word = chars_of(pending.as_str());
                match find_last_slash(&word) {
                    Some(j) => {
                        let dir = string_of_range(&word, 0, j);
                        let dir_bytes = utf8_byte_len(dir.as_str());
                        proof {
                            assert(dir@ =~= word@.take(j as int));
                            lemma_utf8_len_step(word@, j as int);
                            lemma_utf8_len_mono(word@, j + 1, word@.len() as int);
                            assert(word@.take(word@.len() as int) =~= word@);
                        }
                        CompletionRequest {
                            source: CandidateSource::Directory(dir),
                            start: start + dir_bytes + 1,
                        }
                    },
                    None => CompletionRequest {
                        source: CandidateSource::Directory(".".to_owned()),
                        start,
                    },
                }
            },
        }
    }
}

impl LineEditor {
    /// What Tab would do; see [`tab_plan`].
    fn plan(&self, candidates: &Vec<String>, start: usize) -> (res: Option<(bool, TabOutcome)>)
        ensures
            match tab_plan(self@.buffer, self@.tab_flag, candidates.deep_view(), start as int) {
                None => res is None,
                Some((f, t)) => res matches Some((f2, t2)) && f2 == f && t2@ == t,
            },
    {
        let buf = chars_of(self.input_buffer.as_str());
        let ci = match char_index_checked(&buf, start) {
            None => return None,
            Some(k) => k,
        };
        if buf.len() == 0 {
            return Some((self.tab_flag, TabOutcome::Nothing));
        }
        let prefix = chars_skip(&buf, ci);
        let sorted = sorted_unique(candidates);
        let ghost sv = sorted.deep_view();
        let mut m_full: Vec<String> = Vec::new();
        let mut m_chars: Vec<Vec<char>> = Vec::new();
        let mut i: usize = 0;
        while i < sorted.len()
            invariant
                i <= sorted.len(),
                sv == sorted.deep_view(),
                m_full.deep_view() == matching(sv.take(i as int), prefix@),
                m_chars.deep_view() == m_full.deep_view(),
            decreases sorted.len() - i,
        {
            let cs = chars_of(sorted[i].as_str());
            proof {
                assert(sv.take(i + 1).drop_last() =~= sv.take(i as int));
                assert(sv.take(i + 1).last() == cs@);
            }
            if has_prefix(&cs, &prefix) {
                let ghost before = m_full.deep_view();
                let ghost before_chars = m_chars.deep_view();
                let ghost csv = cs@;
                assert(cs.deep_view() =~= csv);
                assert(sv[i as int] == csv);
                m_full.push(sorted[i].clone());
                m_chars.push(cs);
                proof {
                    assert(m_full.deep_view() =~= before.push(sv[i as int]));
                    assert(m_chars.deep_view() =~= before_chars.push(csv));
                    assert(m_chars.deep_view() =~= m_full.deep_view());
                }
            }
            i += 1;
        }
        proof {
            assert(sv.take(sorted.len() as int) =~= sv);
        }
        let ghost m = m_full.deep_view();
        let pl = prefix.len();
        let n = m_full.len();
        if n == 0 {
            return Some((false, TabOutcome::Bell));
        }
        proof {
            assert(m[0] == m_chars@[0]@);
            lemma_matching_prefixed(sv, prefix@, 0);
        }
        if n == 1 {
            let comp_chars = chars_skip(&m_chars[0], pl);
            let mut comp = string_of(&comp_chars);
            let ends_with_slash = if comp_chars.len() > 0 {
                comp_chars[comp_chars.len() - 1] == '/'
            } else {
                buf[buf.len() - 1] == '/'
            };
            proof {
                let b1 = buf@ + comp_chars@;
                if comp_chars.len() > 0 {
                    assert(b1.last() == comp_chars@.last());
                } else {
                    assert(b1.last() == buf@.last());
                }
            }
            if !ends_with_slash {
                push_char(&mut comp, ' ');
            }
            return Some((false, TabOutcome::Insert(comp)));
        }
        if self.tab_flag {
            return Some((false, TabOutcome::ShowList(join(&m_full, " "))));
        }
        proof {
            assert(m.last() == m_chars@[n - 1]@);
            assert(prefix@.is_prefix_of(m.last())) by {
                lemma_matching_prefixed(sv, prefix@, n - 1);
            }
        }
        let first = chars_skip(&m_chars[0], pl);
        let last = chars_skip(&m_chars[n - 1], pl);
        let common = lcp(&first, &last);
        if common > 0 {
            match char_index_checked(&first, common) {
                Some(k) => Some((false, TabOutcome::Insert(string_of_range(&first, 0, k)))),
                None => None,
            }
        } else {
            Some((true, TabOutcome::Bell))
        }
    }

    /// Whether Tab with these candidates and start is defined (the shell
    /// aborts where it is not); see [`tab_plan`].
    pub fn completion_defined(&self, candidates: &Vec<String>, start: usize) -> (res: bool)
        ensures
            res == tab_plan(self@.buffer, self@.tab_flag, candidates.deep_view(), start as int) is Some,
    {
        self.plan(candidates, start).is_some()
    }

    /// Completes the line with the candidates of a [`CompletionRequest`]
    /// and its start; see [`tab_plan`]. Returns what to show.
    pub fn complete(&mut self, candidates: &Vec<String>, start: usize) -> (res: TabOutcome)
        requires
            tab_plan(old(self)@.buffer, old(self)@.tab_flag, candidates.deep_view(), start as int) is Some,
        ensures
            ({
                let (f, t) = tab_plan(
                    old(self)@.buffer,
                    old(self)@.tab_flag,
                    candidates.deep_view(),
                    start as int,
                )->0;
                &&& res@ == t
                &&& final(self)@ == (EditorView {
                    buffer: old(self)@.buffer + tab_inserted(t),
                    tab_flag: f,
                    should_exit: old(self)@.should_exit,
                })
            }),
    {
        match self.plan(candidates, start) {
            Some((f, t)) => {
                self.tab_flag = f;
                match &t {
                    TabOutcome::Insert(text) => {
                        self.input_buffer.append(text.as_str());
                    },
                    _ => {
                        assert(self.input_buffer@ =~= self.input_buffer@ + Seq::<char>::empty());
                    },
                }
                t
            },
            None => TabOutcome::Nothing,
        }
    }
}

proof fn lemma_matching_prefixed(cands: Seq<Seq<char>>, prefix: Seq<char>, i: int)
    requires
        0 <= i < matching(cands, prefix).len(),
    ensures
        prefix.is_prefix_of(matching(cands, prefix)[i]),
    decreases cands.len(),
{
    if cands.len() > 0 {
        let rest = matching(cands.drop_last(), prefix);
        if i < rest.len() {
            lemma_matching_prefixed(cands.drop_last(), prefix, i);
        }
    }
}

impl LineEditor {
    /// Handles one key press; see [`classify_spec`] and [`key_spec`].
    pub fn handle_key(&mut self, key: KeyPress, shell: &ShellState) -> (res: KeyOutcome)
        ensures
            ({
                let (e, o) = key_spec(
                    old(self)@,
                    classify_spec(key),
                    regex_captures_of(VAR_PATTERN@, old(self)@.buffer.push('\n')),
                    shell.vars@,
                    shell.completions@,
                );
                final(self)@ == e && res@ == o
            }),
            final(self)@ == key_step(old(self)@, key, shell.vars@, shell.completions@),
    {
        match classify_key(key) {
            EditorEvent::Submit => {
                let entry = self.input_buffer.clone();
                push_char(&mut self.input_buffer, '\n');
                match parse(self.input_buffer.as_str(), &shell.vars) {
                    Some(c) => {
                        assert(commands_view(c@)[0] == c@[0]@);
                        if is_lit(&c[0].cmd, "exit") {
                            self.should_exit = true;
                            KeyOutcome::Submitted { history_entry: entry, run: SubmitResult::Exit }
                        } else {
                            self.input_buffer = String::new();
                            let run = if c.len() == 1 {
                                let mut c = c;
                                let ghost cv = commands_view(c@);
                                let first = c.remove(0);
                                assert(cv[0] == first@);
                                SubmitResult::Single(first)
                            } else {
                                SubmitResult::Pipeline(c)
                            };
                            KeyOutcome::Submitted { history_entry: entry, run }
                        }
                    },
                    None => {
                        self.input_buffer = String::new();
                        KeyOutcome::Submitted { history_entry: entry, run: SubmitResult::Nothing }
                    },
                }
            },
            EditorEvent::Complete => KeyOutcome::Complete(self.completion_request(shell)),
            EditorEvent::Erase => {
                let chars = chars_of(self.input_buffer.as_str());
                if chars.len() > 0 {
                    self.input_buffer = string_of_range(&chars, 0, chars.len() - 1);
                    assert(chars@.subrange(0, chars.len() - 1) =~= chars@.drop_last());
                    KeyOutcome::Echo("\x08 \x08".to_owned())
                } else {
                    KeyOutcome::Nothing
                }
            },
            EditorEvent::Insert(c) => {
                push_char(&mut self.input_buffer, c);
                let mut echo = String::new();
                push_char(&mut echo, c);
                assert(echo@ =~= seq![c]);
                KeyOutcome::Echo(echo)
            },
            EditorEvent::HistoryUp => KeyOutcome::HistoryUp,
            EditorEvent::HistoryDown => KeyOutcome::HistoryDown,
            EditorEvent::Ignore => KeyOutcome::Nothing,
        }
    }
}

/// Typing a character and erasing it leaves the editor as it was.
pub proof fn law_insert_then_erase(
    ed: EditorView,
    c: char,
    caps: Option<Seq<Seq<Option<Span>>>>,
    caps2: Option<Seq<Seq<Option<Span>>>>,
    vars: Map<Seq<char>, Seq<char>>,
    reg: Map<Seq<char>, Seq<char>>,
)
    ensures
        key_spec(key_spec(ed, EditorEvent::Insert(c), caps, vars, reg).0, EditorEvent::Erase, caps2, vars, reg).0
            == ed,
{
    assert(ed.buffer.push(c).drop_last() =~= ed.buffer);
}

/// Erasing on an empty line changes nothing and prints nothing.
pub proof fn law_erase_empty(
    ed: EditorView,
    caps: Option<Seq<Seq<Option<Span>>>>,
    vars: Map<Seq<char>, Seq<char>>,
    reg: Map<Seq<char>, Seq<char>>,
)
    requires
        ed.buffer.len() == 0,
    ensures
        key_spec(ed, EditorEvent::Erase, caps, vars, reg) == (ed, OutcomeView::Nothing),
{
}

/// Submitting records the line as it was typed and keeps the Tab flag; the
/// line is cleared unless the shell stops on `exit`, which keeps it with
/// its line break.
pub proof fn law_submit(
    ed: EditorView,
    caps: Option<Seq<Seq<Option<Span>>>>,
    vars: Map<Seq<char>, Seq<char>>,
    reg: Map<Seq<char>, Seq<char>>,
)
    ensures
        ({
            let (e, o) = key_spec(ed, EditorEvent::Submit, caps, vars, reg);
            &&& o matches OutcomeView::Submitted { history_entry, run } && history_entry == ed.buffer
            &&& e.tab_flag == ed.tab_flag
            &&& if o matches OutcomeView::Submitted { run: SubmitView::Exit, .. } {
                e.should_exit && e.buffer == ed.buffer.push('\n')
            } else {
                e.should_exit == ed.should_exit && e.buffer.len() == 0
            }
        }),
{
}

/// When Tab finds several candidates without a common prefix it rings the
/// bell; a second Tab on the same line then lists them.
pub proof fn law_second_tab_lists(buf: Seq<char>, cands: Seq<Seq<char>>, start: int)
    requires
        tab_plan(buf, false, cands, start) == Some((true, TabView::Bell)),
    ensures
        tab_plan(buf, true, cands, start) matches Some((false, TabView::ShowList(_))),
{
}

/// The outcome part of a Tab plan.
pub open spec fn plan_outcome(p: Option<(bool, TabView)>) -> TabView {
    match p {
        Some((_, t)) => t,
        None => TabView::Nothing,
    }
}

/// Tab only ever adds to the end of the line.
pub proof fn law_tab_extends_line(buf: Seq<char>, flag: bool, cands: Seq<Seq<char>>, start: int)
    requires
        tab_plan(buf, flag, cands, start) is Some,
    ensures
        buf.is_prefix_of(buf + tab_inserted(plan_outcome(tab_plan(buf, flag, cands, start)))),
{
    let t = tab_inserted(plan_outcome(tab_plan(buf, flag, cands, start)));
    assert((buf + t).take(buf.len() as int) =~= buf);
}

/// A character key with a modifier other than Shift never types: with
/// Control alone `j` submits, and anything else is ignored. Alone or with
/// Shift the character is typed.
pub proof fn law_modified_char_never_typed(c: char, m: u8)
    ensures
        m != 0 && m != 1 ==> classify_spec(KeyPress { code: KeyCode::Char(c), modifiers: m }) == (
        if c == 'j' && m == 2 {
            EditorEvent::Submit
        } else {
            EditorEvent::Ignore
        }),
        m == 0 || m == 1 ==> classify_spec(KeyPress { code: KeyCode::Char(c), modifiers: m })
            == EditorEvent::Insert(c),
{
}

/// When the stage under the cursor has a first word whose command has a
/// registered completion script, Tab asks that script, with the command as
/// its first argument, whatever words follow the command.
pub proof fn law_completion_asks_command_script(buf: Seq<char>, reg: Map<Seq<char>, Seq<char>>)
    requires
        split_groups(buf).last().len() >= 1,
        reg.contains_key(split_groups(buf).last()[0]),
    ensures
        ({
            let cmd = split_groups(buf).last()[0];
            completion_request_spec(buf, reg).source matches SourceView::Script { script, args, .. }
                && script == reg[cmd] && args.len() == 3 && args[0] == cmd
        }),
{
}

/// The editor after key press `k`, with shell variables `vars` and
/// completion scripts `reg`; see [`LineEditor::handle_key`].
pub open spec fn key_step(
    ed: EditorView,
    k: KeyPress,
    vars: Map<Seq<char>, Seq<char>>,
    reg: Map<Seq<char>, Seq<char>>,
) -> EditorView {
    key_spec(ed, classify_spec(k), regex_captures_of(VAR_PATTERN@, ed.buffer.push('\n')), vars, reg).0
}

/// The editor after a sequence of key presses, each with the shell
/// variables and completion scripts of its moment.
pub open spec fn key_run(
    ed: EditorView,
    keys: Seq<(KeyPress, Map<Seq<char>, Seq<char>>, Map<Seq<char>, Seq<char>>)>,
) -> EditorView
    decreases keys.len(),
{
    if keys.len() == 0 {
        ed
    } else {
        key_step(key_run(ed, keys.drop_last()), keys.last().0, keys.last().1, keys.last().2)
    }
}

/// Key press `k` submits the line of `ed`, and the first command that line
/// parses to (with variables `vars`) is `exit`.
pub open spec fn submits_exit(ed: EditorView, k: KeyPress, vars: Map<Seq<char>, Seq<char>>) -> bool {
    let line = ed.buffer.push('\n');
    &&& classify_spec(k) == EditorEvent::Submit
    &&& submitted_commands(line, regex_captures_of(VAR_PATTERN@, line), vars) matches Some(cs)
    &&& cs[0].cmd == "exit"@
}

/// The `i`-th of `keys` submits `exit`, from the editor that the presses
/// before it leave.
pub open spec fn exit_at(
    ed: EditorView,
    keys: Seq<(KeyPress, Map<Seq<char>, Seq<char>>, Map<Seq<char>, Seq<char>>)>,
    i: int,
) -> bool {
    submits_exit(key_run(ed, keys.take(i)), keys[i].0, keys[i].1)
}

proof fn lemma_key_step_exit(
    ed: EditorView,
    k: KeyPress,
    vars: Map<Seq<char>, Seq<char>>,
    reg: Map<Seq<char>, Seq<char>>,
)
    ensures
        key_step(ed, k, vars, reg).should_exit == (ed.should_exit || submits_exit(ed, k, vars)),
{
}

/// Once the editor is to stop it stays so, and a sequence of key presses
/// sets it to stop exactly when one of them submits a line whose first
/// command is `exit`.
pub proof fn law_exit_only_on_exit(
    ed: EditorView,
    keys: Seq<(KeyPress, Map<Seq<char>, Seq<char>>, Map<Seq<char>, Seq<char>>)>,
)
    ensures
        ed.should_exit ==> key_run(ed, keys).should_exit,
        key_run(ed, keys).should_exit <==> (ed.should_exit || exists|i: int|
            0 <= i < keys.len() && #[trigger] exit_at(ed, keys, i)),
    decreases keys.len(),
{
    if keys.len() > 0 {
        let p = keys.drop_last();
        let n = p.len() as int;
        law_exit_only_on_exit(ed, p);
        assert forall|i: int| 0 <= i < n implies #[trigger] exit_at(ed, keys, i) == exit_at(
            ed,
            p,
            i,
        ) by {
            assert(keys.take(i) =~= p.take(i));
            assert(keys[i] == p[i]);
        }
        assert(keys.take(n) =~= p);
        let last = keys.last();
        lemma_key_step_exit(key_run(ed, p), last.0, last.1, last.2);
        assert(exit_at(ed, keys, n) == submits_exit(key_run(ed, p), last.0, last.1));
        if key_run(ed, keys).should_exit && !ed.should_exit {
            if key_run(ed, p).should_exit {
                let i = choose|i: int| 0 <= i < p.len() && #[trigger] exit_at(ed, p, i);
                assert(exit_at(ed, keys, i));
            } else {
                assert(exit_at(ed, keys, n));
            }
        }
        if exists|i: int| 0 <= i < keys.len() && #[trigger] exit_at(ed, keys, i) {
            let i = choose|i: int| 0 <= i < keys.len() && #[trigger] exit_at(ed, keys, i);
            if i < n {
                assert(exit_at(ed, p, i));
            }
        }
    }
}

/// A line of a completion script's output, trimmed, unless it is blank.
pub open spec fn kept_line(x: Seq<char>) -> Seq<Seq<char>> {
    if trim(x).len() > 0 {
        seq![trim(x)]
    } else {
        seq![]
    }
}

/// The kept lines of `s` that a line break ends, and the text after the
/// last line break.
pub open spec fn lines_scan(s: Seq<char>) -> (Seq<Seq<char>>, Seq<char>)
    decreases s.len(),
{
    if s.len() == 0 {
        (seq![], seq![])
    } else {
        let (d, c) = lines_scan(s.drop_last());
        if s.last() == '\n' {
            (d + kept_line(c), seq![])
        } else {
            (d, c.push(s.last()))
        }
    }
}

/// The candidates that a completion script prints: its lines, trimmed,
/// without blank ones.
pub open spec fn output_lines(s: Seq<char>) -> Seq<Seq<char>> {
    lines_scan(s).0 + kept_line(lines_scan(s).1)
}

fn push_kept(out: &mut Vec<String>, cur: &Vec<char>)
    ensures
        final(out).deep_view() == old(out).deep_view() + kept_line(cur@),
{
    let t = trim_chars(cur);
    if t.len() > 0 {
        let ghost before = out.deep_view();
        let line = string_of(&t);
        out.push(line);
        assert(out.deep_view() =~= before + kept_line(cur@));
    } else {
        assert(out.deep_view() =~= old(out).deep_view() + kept_line(cur@));
    }
}

/// The completion candidates in the output of a completion script; see
/// [`output_lines`].
pub fn completer_output_lines(output: &str) -> (res: Vec<String>)
    ensures
        res.deep_view() == output_lines(output@),
{
    let chars = chars_of(output);
    let mut out: Vec<String> = Vec::new();
    let mut cur: Vec<char> = Vec::new();
    let mut k: usize = 0;
    while k < chars.len()
        invariant
            chars@ == output@,
            k <= chars.len(),
            (out.deep_view(), cur@) == lines_scan(chars@.take(k as int)),
        decreases chars.len() - k,
    {
        assert(chars@.take(k + 1).drop_last() =~= chars@.take(k as int));
        assert(chars@.take(k + 1).last() == chars@[k as int]);
        if chars[k] == '\n' {
            push_kept(&mut out, &cur);
            cur = Vec::new();
        } else {
            cur.push(chars[k]);
        }
        k += 1;
    }
    assert(chars@.take(k as int) =~= chars@);
    push_kept(&mut out, &cur);
    out
}

} // verus!

verus! {

proof fn lemma_matching_mem(cands: Seq<Seq<char>>, prefix: Seq<char>, c: Seq<char>)
    requires
        cands.contains(c),
        prefix.is_prefix_of(c),
    ensures
        matching(cands, prefix).contains(c),
    decreases cands.len(),
{
    let k = choose|k: int| 0 <= k < cands.len() && cands[k] == c;
    let rest = matching(cands.drop_last(), prefix);
    if k == cands.len() - 1 {
        assert(matching(cands, prefix).last() == c);
    } else {
        assert(cands.drop_last()[k] == c);
        lemma_matching_mem(cands.drop_last(), prefix, c);
        let j = choose|j: int| 0 <= j < rest.len() && rest[j] == c;
        assert(matching(cands, prefix)[j] == c);
    }
}

proof fn lemma_matching_in(cands: Seq<Seq<char>>, prefix: Seq<char>, i: int)
    requires
        0 <= i < matching(cands, prefix).len(),
    ensures
        cands.contains(matching(cands, prefix)[i]),
    decreases cands.len(),
{
    let rest = matching(cands.drop_last(), prefix);
    if i < rest.len() {
        lemma_matching_in(cands.drop_last(), prefix, i);
        let k = choose|k: int| 0 <= k < cands.drop_last().len() && cands.drop_last()[k] == rest[i];
        assert(cands[k] == rest[i]);
    } else {
        assert(cands[cands.len() - 1] == cands.last());
    }
}

proof fn lemma_matching_sorted(cands: Seq<Seq<char>>, prefix: Seq<char>)
    requires
        strictly_sorted(cands),
    ensures
        strictly_sorted(matching(cands, prefix)),
    decreases cands.len(),
{
    if cands.len() > 0 {
        let p = cands.drop_last();
        assert forall|a: int, b: int| 0 <= a < b < p.len() implies lex_lt(
            #[trigger] p[a],
            #[trigger] p[b],
        ) by {
            assert(p[a] == cands[a] && p[b] == cands[b]);
        }
        lemma_matching_sorted(p, prefix);
        let rest = matching(p, prefix);
        let m = matching(cands, prefix);
        if prefix.is_prefix_of(cands.last()) {
            assert forall|a: int, b: int| 0 <= a < b < m.len() implies lex_lt(
                #[trigger] m[a],
                #[trigger] m[b],
            ) by {
                if b == m.len() - 1 {
                    lemma_matching_in(p, prefix, a);
                    let k = choose|k: int| 0 <= k < p.len() && p[k] == rest[a];
                    assert(cands[k] == m[a]);
                    assert(cands[cands.len() - 1] == m[b]);
                } else {
                    assert(m[a] == rest[a] && m[b] == rest[b]);
                }
            }
        }
    }
}

proof fn lemma_lcp_common(a: Seq<char>, b: Seq<char>)
    ensures
        lcp_len(a, b) <= a.len(),
        lcp_len(a, b) <= b.len(),
        a.take(lcp_len(a, b) as int) == b.take(lcp_len(a, b) as int),
        lcp_len(a, b) == a.len() || lcp_len(a, b) == b.len() || a[lcp_len(a, b) as int]
            != b[lcp_len(a, b) as int],
    decreases a.len(),
{
    if a.len() == 0 || b.len() == 0 || a[0] != b[0] {
        assert(a.take(0) =~= b.take(0));
    } else {
        let a1 = a.drop_first();
        let b1 = b.drop_first();
        lemma_lcp_common(a1, b1);
        let n = lcp_len(a1, b1) as int;
        assert(a.take(n + 1) =~= seq![a[0]] + a1.take(n));
        assert(b.take(n + 1) =~= seq![b[0]] + b1.take(n));
        if n < a1.len() && n < b1.len() {
            assert(a[n + 1] == a1[n] && b[n + 1] == b1[n]);
        }
    }
}

proof fn lemma_utf8_len_at_least(s: Seq<char>)
    ensures
        utf8_len(s) >= s.len(),
        (forall|i: int| 0 <= i < s.len() ==> char_width(#[trigger] s[i]) == 1) ==> utf8_len(s)
            == s.len(),
    decreases s.len(),
{
    if s.len() > 0 {
        lemma_utf8_len_at_least(s.drop_last());
        if forall|i: int| 0 <= i < s.len() ==> char_width(#[trigger] s[i]) == 1 {
            assert(char_width(s[s.len() - 1]) == 1);
            assert forall|i: int| 0 <= i < s.drop_last().len() implies char_width(
                #[trigger] s.drop_last()[i],
            ) == 1 by {
                assert(s.drop_last()[i] == s[i]);
            }
        }
    }
}

/// When Tab finds several candidates that start with the typed text and
/// inserts text `t`, the typed text followed by `t` still starts every such
/// candidate: what Tab adds is common to all of them, and not empty. When
/// `t` is plain ASCII it is as long as it can be: two of those candidates
/// part right after it (one ends there, or they differ there).
pub proof fn law_tab_common_prefix(
    buf: Seq<char>,
    flag: bool,
    cands: Seq<Seq<char>>,
    start: int,
    c1: Seq<char>,
    c2: Seq<char>,
    t: Seq<char>,
)
    requires
        tab_plan(buf, flag, cands, start) is Some,
        plan_outcome(tab_plan(buf, flag, cands, start)) == TabView::Insert(t),
        cands.contains(c1),
        cands.contains(c2),
        c1 != c2,
        buf.skip(char_index(buf, start)).is_prefix_of(c1),
        buf.skip(char_index(buf, start)).is_prefix_of(c2),
    ensures
        ({
            let prefix = buf.skip(char_index(buf, start));
            let l = prefix.len() + t.len() as int;
            &&& t.len() > 0
            &&& forall|c: Seq<char>|
                #![trigger cands.contains(c)]
                cands.contains(c) && prefix.is_prefix_of(c) ==> (prefix + t).is_prefix_of(c)
            &&& (forall|i: int| 0 <= i < t.len() ==> char_width(#[trigger] t[i]) == 1) ==> exists|
                d1: Seq<char>,
                d2: Seq<char>,
            |
                #![trigger cands.contains(d1), cands.contains(d2)]
                cands.contains(d1) && cands.contains(d2) && (prefix + t).is_prefix_of(d1) && (prefix
                    + t).is_prefix_of(d2) && (d1.len() == l || d2.len() == l || d1[l] != d2[l])
        }),
{
    let prefix = buf.skip(char_index(buf, start));
    let pl = prefix.len() as int;
    let r = sorted_set_of(cands);
    lemma_sorted_set_of_props(cands);
    let m = matching(r, prefix);
    lemma_matching_sorted(r, prefix);
    assert(r.to_set().contains(c1) && r.to_set().contains(c2));
    lemma_matching_mem(r, prefix, c1);
    lemma_matching_mem(r, prefix, c2);
    let j1 = choose|j: int| 0 <= j < m.len() && m[j] == c1;
    let j2 = choose|j: int| 0 <= j < m.len() && m[j] == c2;
    assert(m.len() >= 2);
    let z = m.len() - 1;
    lemma_matching_prefixed(r, prefix, 0);
    lemma_matching_prefixed(r, prefix, z);
    let first = m[0].skip(pl);
    let last = m.last().skip(pl);
    let n = lcp_len(first, last) as int;
    let k = char_index(first, n);
    assert(!flag && n > 0 && is_boundary(first, n) && t == first.take(k));
    lemma_lcp_common(first, last);
    assert(0 <= k <= first.len() && utf8_len(first.take(k)) == n);
    lemma_utf8_len_at_least(first.take(k));
    assert(k <= n);
    if k == 0 {
        assert(first.take(0).len() == 0);
    }
    let big = pl + n;
    assert(m[0].take(pl) == prefix);
    assert(m[z].take(pl) == prefix);
    assert(m[0].take(big) =~= prefix + first.take(n));
    assert(m[z].take(big) =~= prefix + last.take(n));
    assert(prefix + t =~= m[0].take(pl + k));
    assert forall|c: Seq<char>|
        #![trigger cands.contains(c)]
        cands.contains(c) && prefix.is_prefix_of(c) implies (prefix + t).is_prefix_of(c) by {
        assert(r.to_set().contains(c));
        lemma_matching_mem(r, prefix, c);
        let j = choose|j: int| 0 <= j < m.len() && m[j] == c;
        if j > 0 {
            assert(lex_lt(m[0], m[j]));
        }
        if j < z {
            assert(lex_lt(m[j], m[z]));
        }
        lemma_between_shares_prefix(m[0], c, m[z], big);
        assert((prefix + t) =~= c.take(pl + k)) by {
            assert forall|i: int| 0 <= i < pl + k implies (prefix + t)[i] == c[i] by {
                assert(m[0].take(big)[i] == c.take(big)[i]);
            }
        }
    }
    if forall|i: int| 0 <= i < t.len() ==> char_width(#[trigger] t[i]) == 1 {
        assert(k == n);
        let d1 = m[0];
        let d2 = m[z];
        lemma_matching_in(r, prefix, 0);
        lemma_matching_in(r, prefix, z);
        assert(r.to_set().contains(d1) && r.to_set().contains(d2));
        assert(cands.to_set().contains(d1) && cands.to_set().contains(d2));
        assert((prefix + t) =~= d2.take(big));
        let l = pl + t.len();
        assert(l == big);
        if n < first.len() && n < last.len() {
            assert(d1[l] == first[n] && d2[l] == last[n]);
        }
        assert(cands.contains(d1) && cands.contains(d2) && (prefix + t).is_prefix_of(d1) && (
        prefix + t).is_prefix_of(d2) && (d1.len() == l || d2.len() == l || d1[l] != d2[l]));
    }
}

} // verus!
