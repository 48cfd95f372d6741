//! The command line grammar: splitting into words and pipeline stages,
//! redirections and background markers, and variable expansion.
use vstd::prelude::*;
use crate::strmap::StringMap;
use crate::text::{
    char_width, char_width_of, chars_of, is_lit, join, lemma_utf8_len_mono, lemma_utf8_len_step,
    seq_join, string_of, string_of_range, utf8_byte_len, utf8_len,
};

verus! {

/// Where the scanner stands between two characters.
#[derive(Clone, Copy, PartialEq, Eq, Structural, Debug)]
pub enum State {
    Normal,
    SingleQuote,
    DoubleQuote,
    NormalWithEscape,
    DoubleQuoteWithEscape,
}

/// What the scanner has gathered after a prefix of the input.
pub struct Scan {
    pub mode: State,
    /// Finished pipeline stages.
    pub groups: Seq<Seq<Seq<char>>>,
    /// Finished words of the current stage.
    pub args: Seq<Seq<char>>,
    /// The word being read.
    pub cur: Seq<char>,
    /// Byte offset of the last unquoted blank or `|`.
    pub last_sep: Option<nat>,
}

/// `args` with the word `cur` appended, unless it is empty.
pub open spec fn flush(args: Seq<Seq<char>>, cur: Seq<char>) -> Seq<Seq<char>> {
    if cur.len() == 0 {
        args
    } else {
        args.push(cur)
    }
}

pub open spec fn is_blank(c: char) -> bool {
    c == ' ' || c == '\t' || c == '\n'
}

/// One step of the scanner on character `c` at byte offset `pos`.
pub open spec fn scan_step(st: Scan, c: char, pos: nat) -> Scan {
    match st.mode {
        State::Normal => {
            if c == '\'' {
                Scan { mode: State::SingleQuote, ..st }
            } else if c == '"' {
                Scan { mode: State::DoubleQuote, ..st }
            } else if is_blank(c) {
                Scan { args: flush(st.args, st.cur), cur: seq![], last_sep: Some(pos), ..st }
            } else if c == '\\' {
                Scan { mode: State::NormalWithEscape, ..st }
            } else if c == '|' {
                Scan {
                    groups: st.groups.push(flush(st.args, st.cur)),
                    args: seq![],
                    cur: seq![],
                    last_sep: Some(pos),
                    ..st
                }
            } else {
                Scan { cur: st.cur.push(c), ..st }
            }
        },
        State::SingleQuote => {
            if c == '\'' {
                Scan { mode: State::Normal, ..st }
            } else {
                Scan { cur: st.cur.push(c), ..st }
            }
        },
        State::DoubleQuote => {
            if c == '"' {
                Scan { mode: State::Normal, ..st }
            } else if c == '\\' {
                Scan { mode: State::DoubleQuoteWithEscape, ..st }
            } else {
                Scan { cur: st.cur.push(c), ..st }
            }
        },
        State::NormalWithEscape => Scan { mode: State::Normal, cur: st.cur.push(c), ..st },
        State::DoubleQuoteWithEscape => Scan {
            mode: State::DoubleQuote,
            cur: st.cur.push(c),
            ..st
        },
    }
}

/// The scanner after reading all of `s`.
pub open spec fn scan(s: Seq<char>) -> Scan
    decreases s.len(),
{
    if s.len() == 0 {
        Scan { mode: State::Normal, groups: seq![], args: seq![], cur: seq![], last_sep: None }
    } else {
        scan_step(scan(s.drop_last()), s.last(), utf8_len(s.drop_last()))
    }
}

/// The pipeline stages of `s`: every stage closed by a `|`, then the words
/// of the last one (the word still being read is not among them).
pub open spec fn split_groups(s: Seq<char>) -> Seq<Seq<Seq<char>>> {
    scan(s).groups.push(scan(s).args)
}

/// The byte offset just after the last unquoted blank or `|`, or 0.
pub open spec fn completion_start(s: Seq<char>) -> nat {
    match scan(s).last_sep {
        Some(p) => p + 1,
        None => 0,
    }
}

/// The word still being read at the end of `s`.
pub open spec fn pending_word(s: Seq<char>) -> Seq<char> {
    scan(s).cur
}

/// The word under the cursor lies after the completion start: together they
/// take no more bytes than the line.
pub proof fn lemma_scan_bound(s: Seq<char>)
    ensures
        utf8_len(pending_word(s)) + completion_start(s) <= utf8_len(s),
    decreases s.len(),
{
    if s.len() > 0 {
        let p = s.drop_last();
        lemma_scan_bound(p);
        let c = s.last();
        assert(scan(p).cur.push(c).drop_last() =~= scan(p).cur);
        assert(utf8_len(s) == utf8_len(p) + char_width(c));
        assert(utf8_len(Seq::<char>::empty()) == 0);
    }
}

proof fn lemma_scan_prefix(s: Seq<char>, k: int)
    requires
        0 <= k < s.len(),
    ensures
        scan(s.take(k + 1)) == scan_step(scan(s.take(k)), s[k], utf8_len(s.take(k))),
{
    assert(s.take(k + 1).drop_last() =~= s.take(k));
}

/// Splits a command line into pipeline stages of words.
///
/// Blanks (space, tab, newline) end a word; `|` ends a stage. Single quotes
/// keep everything literally; double quotes keep everything but `\`, which
/// takes the next character literally; outside quotes `\` does the same.
/// Returns the stages, the byte offset at which the word under the cursor
/// starts, and that unfinished word, which is not among the stages.
pub fn split(input: &str) -> (res: (Vec<Vec<String>>, usize, String))
    ensures
        res.0.deep_view() == split_groups(input@),
        res.1 == completion_start(input@),
        res.2@ == pending_word(input@),
{
    let chars = chars_of(input);
    let total = utf8_byte_len(input);
    let mut result: Vec<Vec<String>> = Vec::new();
    let mut args: Vec<String> = Vec::new();
    let mut current_arg: Vec<char> = Vec::new();
    let mut state = State::Normal;
    let mut last_sep: Option<usize> = None;
    let mut pos: usize = 0;
    let mut k: usize = 0;
    while k < chars.len()
        invariant
            chars@ == input@,
            total == utf8_len(input@),
            k <= chars.len(),
            pos == utf8_len(chars@.take(k as int)),
            ({
                let sc = scan(chars@.take(k as int));
                &&& result.deep_view() == sc.groups
                &&& args.deep_view() == sc.args
                &&& current_arg@ == sc.cur
                &&& state == sc.mode
                &&& match sc.last_sep {
                    Some(p) => last_sep == Some(p as usize) && p < pos,
                    None => last_sep is None,
                }
            }),
        decreases chars.len() - k,
    {
        let ch = chars[k];
        proof {
            lemma_scan_prefix(chars@, k as int);
            lemma_utf8_len_step(chars@, k as int);
            lemma_utf8_len_mono(chars@, k + 1, chars@.len() as int);
            assert(chars@.take(chars@.len() as int) =~= chars@);
        }
        let ghost before_args = args.deep_view();
        let ghost before_cur = current_arg@;
        match state {
            State::Normal => {
                if ch == '\'' {
                    state = State::SingleQuote;
                } else if ch == '"' {
                    state = State::DoubleQuote;
                } else if ch == ' ' || ch == '\t' || ch == '\n' {
                    if current_arg.len() > 0 {
                        args.push(string_of(&current_arg));
                        current_arg = Vec::new();
                    }
                    last_sep = Some(pos);
                    proof {
                        assert(args.deep_view() =~= flush(before_args, before_cur));
                    }
                } else if ch == '\\' {
                    state = State::NormalWithEscape;
                } else if ch == '|' {
                    if current_arg.len() > 0 {
                        args.push(string_of(&current_arg));
                        current_arg = Vec::new();
                    }
                    last_sep = Some(pos);
                    let ghost flushed = args.deep_view();
                    proof {
                        assert(flushed =~= flush(before_args, before_cur));
                    }
                    let finished = args;
                    args = Vec::new();
                    result.push(finished);
                    proof {
                        assert(result.deep_view() =~= scan(chars@.take(k as int)).groups.push(
                            flushed,
                        ));
                        assert(args.deep_view() =~= Seq::<Seq<char>>::empty());
                    }
                } else {
                    current_arg.push(ch);
                }
            },
            State::SingleQuote => {
                if ch == '\'' {
                    state = State::Normal;
                } else {
                    current_arg.push(ch);
                }
            },
            State::DoubleQuote => {
                if ch == '"' {
                    state = State::Normal;
                } else if ch == '\\' {
                    state = State::DoubleQuoteWithEscape;
                } else {
                    current_arg.push(ch);
                }
            },
            State::NormalWithEscape => {
                current_arg.push(ch);
                state = State::Normal;
            },
            State::DoubleQuoteWithEscape => {
                current_arg.push(ch);
                state = State::DoubleQuote;
            },
        }
        let w = char_width_of(ch);
        pos = pos + w;
        k += 1;
    }
    proof {
        assert(chars@.take(chars@.len() as int) =~= chars@);
    }
    let ghost final_args = args.deep_view();
    result.push(args);
    proof {
        assert(result.deep_view() =~= scan(input@).groups.push(final_args));
    }
    let start = match last_sep {
        Some(p) => p + 1,
        None => 0,
    };
    (result, start, string_of(&current_arg))
}


/// How a redirection opens its file.
#[derive(Clone, Copy, PartialEq, Eq, Structural, Debug)]
pub enum RedirectMode {
    Overwrite,
    Append,
}

/// One command of a command line, with its redirections.
#[derive(Debug)]
pub struct CommandArgs {
    pub cmd: String,
    pub args: Vec<String>,
    pub stdout: Option<(String, RedirectMode)>,
    pub stderr: Option<(String, RedirectMode)>,
    /// The whole command line, kept when the command runs in the background.
    pub backup_the_whole_cmd: Option<String>,
}

/// The value of a [`CommandArgs`].
pub struct CommandView {
    pub cmd: Seq<char>,
    pub args: Seq<Seq<char>>,
    pub stdout: Option<(Seq<char>, RedirectMode)>,
    pub stderr: Option<(Seq<char>, RedirectMode)>,
    pub background: Option<Seq<char>>,
}

pub open spec fn redirect_view(r: Option<(String, RedirectMode)>) -> Option<(Seq<char>, RedirectMode)> {
    match r {
        Some((f, m)) => Some((f@, m)),
        None => None,
    }
}

impl View for CommandArgs {
    type V = CommandView;

    open spec fn view(&self) -> CommandView {
        CommandView {
            cmd: self.cmd@,
            args: self.args.deep_view(),
            stdout: redirect_view(self.stdout),
            stderr: redirect_view(self.stderr),
            background: match self.backup_the_whole_cmd {
                Some(s) => Some(s@),
                None => None,
            },
        }
    }
}

impl CommandArgs {
    /// A command with the given name and arguments, no redirection, in the
    /// foreground.
    pub fn new(cmd: String, args: Vec<String>) -> (res: CommandArgs)
        ensures
            res.cmd == cmd,
            res.args == args,
            res.stdout is None,
            res.stderr is None,
            res.backup_the_whole_cmd is None,
    {
        CommandArgs { cmd, args, stdout: None, stderr: None, backup_the_whole_cmd: None }
    }
}

impl Default for CommandArgs {
    /// An empty command: no name, no arguments, no redirection, in the
    /// foreground.
    fn default() -> (res: CommandArgs)
        ensures
            res.cmd@ == Seq::<char>::empty(),
            res.args@ == Seq::<String>::empty(),
            res.stdout is None,
            res.stderr is None,
            res.backup_the_whole_cmd is None,
    {
        CommandArgs::new(String::new(), Vec::new())
    }
}

/// Whether `w` is an operator that redirects standard output (`stdout`) or
/// standard error (`!stdout`).
pub open spec fn is_redirect_op(stdout: bool, w: Seq<char>) -> bool {
    if stdout {
        w == ">"@ || w == ">>"@ || w == "1>"@ || w == "1>>"@
    } else {
        w == "2>"@ || w == "2>>"@
    }
}

/// The mode that the redirection operator `w` asks for.
pub open spec fn redirect_mode(w: Seq<char>) -> RedirectMode {
    if w == ">>"@ || w == "1>>"@ || w == "2>>"@ {
        RedirectMode::Append
    } else {
        RedirectMode::Overwrite
    }
}

/// The index of the last redirection operator of the given kind in `t`.
pub open spec fn last_redirect(stdout: bool, t: Seq<Seq<char>>) -> Option<int>
    decreases t.len(),
{
    if t.len() == 0 {
        None
    } else if is_redirect_op(stdout, t.last()) {
        Some(t.len() - 1)
    } else {
        last_redirect(stdout, t.drop_last())
    }
}

/// `t` without the operator at `i` and the file name after it.
pub open spec fn without_pair(t: Seq<Seq<char>>, i: int) -> Seq<Seq<char>> {
    t.take(i) + t.skip(i + 2)
}

/// The outcome of taking the last redirection of one kind out of `t`: `None`
/// when its operator is the last word (no file follows); else the remaining
/// words and the redirection, if there was one.
pub open spec fn take_redirect(stdout: bool, t: Seq<Seq<char>>) -> Option<
    (Seq<Seq<char>>, Option<(Seq<char>, RedirectMode)>),
> {
    match last_redirect(stdout, t) {
        None => Some((t, None)),
        Some(i) => if i + 1 < t.len() {
            Some((without_pair(t, i), Some((t[i + 1], redirect_mode(t[i])))))
        } else {
            None
        },
    }
}

/// The command that the words of one pipeline stage describe, if any.
///
/// A last word `&` sends the command to the background and keeps the whole
/// stage, words joined by spaces. Then the last standard error redirection
/// (`2>`, `2>>`) and the last standard output redirection (`>`, `>>`, `1>`,
/// `1>>`) are taken out with their file names; the first remaining word is
/// the command. `None` when there are no words, when a redirection has no
/// file name, or when no word is left for the command.
pub open spec fn parse_redirect_spec(tokens: Seq<Seq<char>>) -> Option<CommandView> {
    if tokens.len() == 0 {
        None
    } else {
        let bg = tokens.last() == "&"@;
        let t1 = if bg { tokens.drop_last() } else { tokens };
        match take_redirect(false, t1) {
            None => None,
            Some((t2, stderr)) => match take_redirect(true, t2) {
                None => None,
                Some((t3, stdout)) => if t3.len() == 0 {
                    None
                } else {
                    Some(
                        CommandView {
                            cmd: t3[0],
                            args: t3.drop_first(),
                            stdout,
                            stderr,
                            background: if bg {
                                Some(seq_join(tokens, " "@))
                            } else {
                                None
                            },
                        },
                    )
                },
            },
        }
    }
}

fn is_redirect_op_exec(stdout: bool, w: &String) -> (b: bool)
    ensures
        b == is_redirect_op(stdout, w@),
{
    if stdout {
        is_lit(w, ">") || is_lit(w, ">>") || is_lit(w, "1>") || is_lit(w, "1>>")
    } else {
        is_lit(w, "2>") || is_lit(w, "2>>")
    }
}

fn redirect_mode_exec(w: &String) -> (m: RedirectMode)
    ensures
        m == redirect_mode(w@),
{
    if is_lit(w, ">>") || is_lit(w, "1>>") || is_lit(w, "2>>") {
        RedirectMode::Append
    } else {
        RedirectMode::Overwrite
    }
}

/// The index of the last redirection operator of the given kind.
fn find_last_redirect(stdout: bool, t: &Vec<String>) -> (res: Option<usize>)
    ensures
        match res {
            Some(i) => i < t.len() && last_redirect(stdout, t.deep_view()) == Some(i as int),
            None => last_redirect(stdout, t.deep_view()) is None,
        },
{
    let ghost tv = t.deep_view();
    let mut i = t.len();
    assert(tv.take(i as int) =~= tv);
    while i > 0
        invariant
            i <= t.len(),
            tv == t.deep_view(),
            last_redirect(stdout, tv) == last_redirect(stdout, tv.take(i as int)),
        decreases i,
    {
        i -= 1;
        assert(tv.take(i + 1).drop_last() =~= tv.take(i as int));
        assert(tv.take(i + 1).last() == tv[i as int]);
        if is_redirect_op_exec(stdout, &t[i]) {
            return Some(i);
        }
    }
    None
}

/// Takes the last redirection of one kind out of `tokens`; `None` when its
/// operator has no file name after it.
fn take_redirect_exec(stdout: bool, tokens: &mut Vec<String>) -> (res: Option<
    Option<(String, RedirectMode)>,
>)
    ensures
        match take_redirect(stdout, old(tokens).deep_view()) {
            None => res is None,
            Some((rest, r)) => res matches Some(x) && redirect_view(x) == r
                && final(tokens).deep_view() == rest,
        },
{
    let ghost tv = tokens.deep_view();
    let ghost tokens0 = tokens@;
    match find_last_redirect(stdout, tokens) {
        None => {
            Some(None)
        },
        Some(idx) => {
            if idx + 1 < tokens.len() {
                let mode = redirect_mode_exec(&tokens[idx]);
                let file = tokens.remove(idx + 1);
                tokens.remove(idx);
                proof {
                    assert(tv[idx + 1] == tokens0[idx + 1]@);
                    assert(tv[idx as int] == tokens0[idx as int]@);
                    assert(file@ == tv[idx + 1]);
                    assert(tokens.deep_view() =~= without_pair(tv, idx as int));
                }
                Some(Some((file, mode)))
            } else {
                None
            }
        },
    }
}

/// The command that the words of one pipeline stage describe; see
/// [`parse_redirect_spec`].
pub fn parse_redirect(tokens: Vec<String>) -> (res: Option<CommandArgs>)
    ensures
        match parse_redirect_spec(tokens.deep_view()) {
            Some(v) => res matches Some(c) && c@ == v,
            None => res is None,
        },
{
    let ghost tv = tokens.deep_view();
    let mut tokens = tokens;
    if tokens.len() == 0 {
        return None;
    }
    let last = tokens.len() - 1;
    let mut background: Option<String> = None;
    if is_lit(&tokens[last], "&") {
        background = Some(join(&tokens, " "));
        tokens.pop();
        proof {
            assert(tokens.deep_view() =~= tv.drop_last());
        }
    }
    let stderr = match take_redirect_exec(false, &mut tokens) {
        None => return None,
        Some(r) => r,
    };
    let stdout = match take_redirect_exec(true, &mut tokens) {
        None => return None,
        Some(r) => r,
    };
    if tokens.len() == 0 {
        return None;
    }
    let ghost t3 = tokens.deep_view();
    let cmd = tokens.remove(0);
    proof {
        assert(tokens.deep_view() =~= t3.drop_first());
    }
    Some(CommandArgs { cmd, args: tokens, stdout, stderr, backup_the_whole_cmd: background })
}


/// The pattern of a variable reference: `$NAME` or `${NAME}`, where a name is
/// a letter or `_` followed by letters, digits or `_`.
pub const VAR_PATTERN: &'static str = r"\$(?:([a-zA-Z_][a-zA-Z0-9_]*)|\{([a-zA-Z_][a-zA-Z0-9_]*)\})";

/// A byte range of a string, as the regex engine reports it.
pub type Span = (usize, usize);

/// What `regex` finds for a pattern in a haystack: `None` when the pattern
/// does not compile; otherwise, for each successive match, the spans of its
/// capture groups, the whole match first (`None` for a group that took no
/// part in the match).
pub uninterp spec fn regex_captures_of(pattern: Seq<char>, haystack: Seq<char>) -> Option<
    Seq<Seq<Option<Span>>>,
>;

pub open spec fn captures_view(c: Option<Vec<Vec<Option<Span>>>>) -> Option<
    Seq<Seq<Option<Span>>>,
> {
    match c {
        Some(v) => Some(v@.map_values(|g: Vec<Option<Span>>| g@)),
        None => None,
    }
}

/// The span of the whole match.
pub open spec fn whole_span(m: Seq<Option<Span>>) -> Span {
    m[0]->0
}

/// `b` is the byte offset at which some character of `s` starts, or the end.
pub open spec fn is_boundary(s: Seq<char>, b: int) -> bool {
    exists|k: int| 0 <= k <= s.len() && utf8_len(s.take(k)) == b
}

/// The index of the character that starts at byte offset `b` of `s`.
pub open spec fn char_index(s: Seq<char>, b: int) -> int {
    choose|k: int| 0 <= k <= s.len() && utf8_len(s.take(k)) == b
}

/// The text of `s` in the byte range `sp`.
pub open spec fn span_text(s: Seq<char>, sp: Span) -> Seq<char> {
    s.subrange(char_index(s, sp.0 as int), char_index(s, sp.1 as int))
}

/// What the `regex` documentation promises of the captures of a haystack
/// `s`: each match has its whole-match group; every span is ordered and
/// falls on character boundaries; matches come in order without overlap.
pub open spec fn captures_well_formed(s: Seq<char>, caps: Seq<Seq<Option<Span>>>) -> bool {
    &&& forall|i: int| 0 <= i < caps.len() ==> (#[trigger] caps[i]).len() >= 1 && caps[i][0] is Some
    &&& forall|i: int, g: int|
        0 <= i < caps.len() && 0 <= g < caps[i].len() && (#[trigger] caps[i][g]) is Some ==> {
            let sp = caps[i][g]->0;
            &&& sp.0 <= sp.1
            &&& is_boundary(s, sp.0 as int)
            &&& is_boundary(s, sp.1 as int)
        }
    &&& forall|i: int, j: int|
        0 <= i < j < caps.len() ==> whole_span(#[trigger] caps[i]).1 <= whole_span(#[trigger] caps[j]).0
}

/// `regex::Regex::new` followed by `Regex::captures_iter`: compiles
/// `pattern` and lists, for each successive non-overlapping match in
/// `haystack`, the byte spans of all capture groups (`Captures::iter`).
/// Claimed: the result is a function of the two strings alone, `None`
/// exactly when compiling fails, and the spans are as the crate documents
/// them (see [`captures_well_formed`]). Of [`VAR_PATTERN`] in particular,
/// two facts of the crate's documented syntax: it compiles, and since `\$`
/// matches a literal `$`, every match holds a `$`, so a haystack without
/// one has no match.
#[verifier::external_body]
fn regex_captures(pattern: &str, haystack: &str) -> (res: Option<Vec<Vec<Option<Span>>>>)
    ensures
        captures_view(res) == regex_captures_of(pattern@, haystack@),
        res matches Some(c) ==> captures_well_formed(
            haystack@,
            c@.map_values(|g: Vec<Option<Span>>| g@),
        ),
        pattern@ == VAR_PATTERN@ ==> res is Some,
        pattern@ == VAR_PATTERN@ && !haystack@.contains('$') ==> captures_view(res) == Some(
            Seq::<Seq<Option<Span>>>::empty(),
        ),
{
    match regex::Regex::new(pattern) {
        Ok(re) => Some(
            re.captures_iter(haystack).map(
                |caps| caps.iter().map(|g| g.map(|m| (m.start(), m.end()))).collect(),
            ).collect(),
        ),
        Err(_) => None,
    }
}

/// The name that a match of [`VAR_PATTERN`] refers to: the first capture
/// group, else the second, else empty.
pub open spec fn var_name(s: Seq<char>, m: Seq<Option<Span>>) -> Seq<char> {
    if m.len() > 1 && m[1] is Some {
        span_text(s, m[1]->0)
    } else if m.len() > 2 && m[2] is Some {
        span_text(s, m[2]->0)
    } else {
        seq![]
    }
}

/// What a match is replaced with: the variable's value, or the matched text
/// itself when the variable has no value.
pub open spec fn var_replacement(
    s: Seq<char>,
    m: Seq<Option<Span>>,
    vars: Map<Seq<char>, Seq<char>>,
) -> Seq<char> {
    let name = var_name(s, m);
    if vars.contains_key(name) {
        vars[name]
    } else {
        span_text(s, m[0]->0)
    }
}

/// `s` from character `pos` on, with matches `i..` replaced.
pub open spec fn expand_from(
    s: Seq<char>,
    caps: Seq<Seq<Option<Span>>>,
    vars: Map<Seq<char>, Seq<char>>,
    i: int,
    pos: int,
) -> Seq<char>
    decreases caps.len() - i,
{
    if i < 0 || i >= caps.len() {
        s.subrange(pos, s.len() as int)
    } else {
        let whole = caps[i][0]->0;
        s.subrange(pos, char_index(s, whole.0 as int)) + var_replacement(s, caps[i], vars)
            + expand_from(s, caps, vars, i + 1, char_index(s, whole.1 as int))
    }
}

/// `s` with every match replaced, the text between matches kept.
pub open spec fn expand_spec(
    s: Seq<char>,
    caps: Seq<Seq<Option<Span>>>,
    vars: Map<Seq<char>, Seq<char>>,
) -> Seq<char> {
    expand_from(s, caps, vars, 0, 0)
}

proof fn lemma_char_index(s: Seq<char>, b: int, k: int)
    requires
        0 <= k <= s.len(),
        utf8_len(s.take(k)) == b,
    ensures
        char_index(s, b) == k,
{
    let c = char_index(s, b);
    if c < k {
        lemma_utf8_len_mono(s, c, k);
    } else if c > k {
        lemma_utf8_len_mono(s, k, c);
    }
}

proof fn lemma_char_index_mono(s: Seq<char>, a: int, b: int)
    requires
        is_boundary(s, a),
        is_boundary(s, b),
        a <= b,
    ensures
        0 <= char_index(s, a) <= char_index(s, b) <= s.len(),
{
    let ka = char_index(s, a);
    let kb = char_index(s, b);
    if kb < ka {
        lemma_utf8_len_mono(s, kb, ka);
    }
}

/// The index of the character of `chars` that starts at byte offset `b`.
pub fn char_index_of(chars: &Vec<char>, b: usize) -> (k: usize)
    requires
        is_boundary(chars@, b as int),
    ensures
        k == char_index(chars@, b as int),
        k <= chars.len(),
{
    let ghost s = chars@;
    let ghost target = char_index(s, b as int);
    let mut k: usize = 0;
    let mut pos: usize = 0;
    while pos < b
        invariant
            s == chars@,
            0 <= target <= s.len(),
            s.len() == chars.len(),
            utf8_len(s.take(target)) == b,
            k <= target,
            pos == utf8_len(s.take(k as int)),
            pos <= b,
        decreases target - k,
    {
        proof {
            assert(k < target);
            lemma_utf8_len_step(s, k as int);
            lemma_utf8_len_mono(s, k + 1, target);
        }
        pos = pos + char_width_of(chars[k]);
        k += 1;
    }
    proof {
        if k < target {
            lemma_utf8_len_mono(s, k as int, target);
        }
        lemma_char_index(s, b as int, k as int);
    }
    k
}

/// The index of the character of `chars` that starts at byte offset `b`,
/// or `None` when no character starts there (nor does the end lie there).
pub fn char_index_checked(chars: &Vec<char>, b: usize) -> (res: Option<usize>)
    ensures
        res matches Some(k) ==> k <= chars.len() && k == char_index(chars@, b as int),
        res is Some <==> is_boundary(chars@, b as int),
{
    let ghost s = chars@;
    let mut k: usize = 0;
    let mut pos: usize = 0;
    while pos < b && k < chars.len()
        invariant
            s == chars@,
            k <= chars.len(),
            pos == utf8_len(s.take(k as int)),
            pos <= b,
        decreases chars.len() - k,
    {
        proof {
            lemma_utf8_len_step(s, k as int);
        }
        let w = char_width_of(chars[k]);
        if w > b - pos {
            proof {
                if is_boundary(s, b as int) {
                    let j = choose|j: int| 0 <= j <= s.len() && utf8_len(s.take(j)) == b;
                    if j <= k {
                        lemma_utf8_len_mono(s, j, k as int);
                    } else {
                        lemma_utf8_len_mono(s, k + 1, j);
                    }
                }
            }
            return None;
        }
        pos = pos + w;
        k += 1;
    }
    if pos == b {
        proof {
            lemma_char_index(s, b as int, k as int);
            assert(is_boundary(s, b as int));
        }
        Some(k)
    } else {
        proof {
            if is_boundary(s, b as int) {
                let j = choose|j: int| 0 <= j <= s.len() && utf8_len(s.take(j)) == b;
                if j <= k {
                    lemma_utf8_len_mono(s, j, k as int);
                } else {
                    lemma_utf8_len_mono(s, k as int, j);
                }
            }
        }
        None
    }
}

/// The text of `chars` in the byte range `sp`.
fn span_string(chars: &Vec<char>, sp: Span) -> (res: String)
    requires
        sp.0 <= sp.1,
        is_boundary(chars@, sp.0 as int),
        is_boundary(chars@, sp.1 as int),
    ensures
        res@ == span_text(chars@, sp),
{
    proof {
        lemma_char_index_mono(chars@, sp.0 as int, sp.1 as int);
    }
    let a = char_index_of(chars, sp.0);
    let b = char_index_of(chars, sp.1);
    string_of_range(chars, a, b)
}

/// The facts that one match of well-formed captures gives.
pub open spec fn match_well_formed(s: Seq<char>, m: Seq<Option<Span>>) -> bool {
    &&& m.len() >= 1
    &&& m[0] is Some
    &&& forall|g: int|
        0 <= g < m.len() && (#[trigger] m[g]) is Some ==> {
            let sp = m[g]->0;
            &&& sp.0 <= sp.1
            &&& is_boundary(s, sp.0 as int)
            &&& is_boundary(s, sp.1 as int)
        }
}

proof fn lemma_captures_at(s: Seq<char>, caps: Seq<Seq<Option<Span>>>, i: int)
    requires
        captures_well_formed(s, caps),
        0 <= i < caps.len(),
    ensures
        match_well_formed(s, caps[i]),
        i > 0 ==> whole_span(caps[i - 1]).1 <= whole_span(caps[i]).0,
        i > 0 ==> match_well_formed(s, caps[i - 1]),
{
    assert(caps[i].len() >= 1 && caps[i][0] is Some);
    assert forall|g: int| 0 <= g < caps[i].len() && (#[trigger] caps[i][g]) is Some implies {
        let sp = caps[i][g]->0;
        &&& sp.0 <= sp.1
        &&& is_boundary(s, sp.0 as int)
        &&& is_boundary(s, sp.1 as int)
    } by {}
    if i > 0 {
        assert(caps[i - 1].len() >= 1 && caps[i - 1][0] is Some);
        assert forall|g: int| 0 <= g < caps[i - 1].len() && (#[trigger] caps[i - 1][g]) is Some implies {
            let sp = caps[i - 1][g]->0;
            &&& sp.0 <= sp.1
            &&& is_boundary(s, sp.0 as int)
            &&& is_boundary(s, sp.1 as int)
        } by {}
    }
}

/// What one match is replaced with; see [`var_replacement`].
fn replacement_of(chars: &Vec<char>, m: &Vec<Option<Span>>, vars: &StringMap) -> (res: String)
    requires
        match_well_formed(chars@, m@),
    ensures
        res@ == var_replacement(chars@, m@, vars@),
{
    let name: String = if m.len() > 1 && m[1].is_some() {
        let g = m[1].unwrap();
        assert(m@[1] == Some(g));
        span_string(chars, g)
    } else if m.len() > 2 && m[2].is_some() {
        let g = m[2].unwrap();
        assert(m@[2] == Some(g));
        span_string(chars, g)
    } else {
        String::new()
    };
    match vars.get(name.as_str()) {
        Some(v) => v,
        None => {
            let whole = m[0].unwrap();
            assert(m@[0] == Some(whole));
            span_string(chars, whole)
        },
    }
}

/// Replaces each match in `input` (as [`regex_captures`] lists them for
/// [`VAR_PATTERN`]) by the value that `vars` gives its name, or keeps the
/// matched text when the name has no value.
#[verifier::rlimit(40)]
pub fn expand_vars(input: &str, caps: &Vec<Vec<Option<Span>>>, vars: &StringMap) -> (res: String)
    requires
        captures_well_formed(input@, caps@.map_values(|g: Vec<Option<Span>>| g@)),
    ensures
        res@ == expand_spec(input@, caps@.map_values(|g: Vec<Option<Span>>| g@), vars@),
{
    let chars = chars_of(input);
    let ghost s = input@;
    let ghost cv = caps@.map_values(|g: Vec<Option<Span>>| g@);
    let mut out = String::new();
    let mut i: usize = 0;
    let mut pos: usize = 0;
    proof {
        assert(utf8_len(s.take(0)) == 0);
        lemma_char_index(s, 0, 0);
    }
    while i < caps.len()
        invariant
            chars@ == s,
            s == input@,
            cv.len() == caps.len(),
            forall|j: int| 0 <= j < caps.len() ==> cv[j] == (#[trigger] caps@[j])@,
            captures_well_formed(s, cv),
            i <= caps.len(),
            pos <= chars.len(),
            i == 0 ==> pos == 0,
            i > 0 ==> pos == char_index(s, whole_span(cv[i - 1]).1 as int),
            out@ + expand_from(s, cv, vars@, i as int, pos as int) == expand_spec(s, cv, vars@),
        decreases caps.len() - i,
    {
        let m = &caps[i];
        proof {
            assert(cv[i as int] == m@);
            lemma_captures_at(s, cv, i as int);
        }
        let whole = m[0].unwrap();
        proof {
            assert(m@[0] == Some(whole));
            assert(m@[0] is Some);
            lemma_char_index_mono(s, whole.0 as int, whole.1 as int);
            if i > 0 {
                let prev = whole_span(cv[i - 1]);
                assert(cv[i - 1][0] is Some);
                lemma_char_index_mono(s, prev.1 as int, whole.0 as int);
            }
        }
        let start = char_index_of(&chars, whole.0);
        let end = char_index_of(&chars, whole.1);
        let before = string_of_range(&chars, pos, start);
        out.append(before.as_str());
        let rep = replacement_of(&chars, m, vars);
        out.append(rep.as_str());
        proof {
            assert(expand_from(s, cv, vars@, i as int, pos as int) == s.subrange(
                pos as int,
                start as int,
            ) + var_replacement(s, cv[i as int], vars@) + expand_from(
                s,
                cv,
                vars@,
                i + 1,
                end as int,
            ));
            assert(out@ + expand_from(s, cv, vars@, i + 1, end as int) =~= expand_spec(s, cv, vars@));
        }
        i += 1;
        pos = end;
    }
    let rest = string_of_range(&chars, pos, chars.len());
    out.append(rest.as_str());
    proof {
        assert(out@ =~= expand_spec(s, cv, vars@));
    }
    out
}

/// `input` with its variable references (`$NAME`, `${NAME}`) replaced by
/// their values in `vars`; a reference to a name without a value stays as
/// it is. With no variables, or no `$` in `input`, that is `input` itself.
pub fn parse_vars(input: &str, vars: &StringMap) -> (res: String)
    ensures
        regex_captures_of(VAR_PATTERN@, input@) matches Some(caps) && res@ == expand_spec(
            input@,
            caps,
            vars@,
        ),
        vars@ == Map::<Seq<char>, Seq<char>>::empty() || !input@.contains('$') ==> res@ == input@,
{
    match regex_captures(VAR_PATTERN, input) {
        Some(caps) => {
            let ghost cv = caps@.map_values(|g: Vec<Option<Span>>| g@);
            let res = expand_vars(input, &caps, vars);
            proof {
                if vars@ == Map::<Seq<char>, Seq<char>>::empty() {
                    law_unset_vars_kept(input@, cv, vars@);
                }
                if !input@.contains('$') {
                    assert(cv.len() == 0);
                    law_unset_vars_kept(input@, cv, vars@);
                }
            }
            res
        },
        None => {
            proof {
                assert(false);
            }
            String::new()
        },
    }
}


/// The commands of pipeline stages: `None` when one of them describes none.
pub open spec fn parse_groups(gs: Seq<Seq<Seq<char>>>) -> Option<Seq<CommandView>>
    decreases gs.len(),
{
    if gs.len() == 0 {
        Some(seq![])
    } else {
        match (parse_groups(gs.drop_last()), parse_redirect_spec(gs.last())) {
            (Some(a), Some(c)) => Some(a.push(c)),
            _ => None,
        }
    }
}

/// The commands of the command line `s` after variable expansion with the
/// regex engine's captures `caps`.
pub open spec fn parse_spec(
    s: Seq<char>,
    caps: Seq<Seq<Option<Span>>>,
    vars: Map<Seq<char>, Seq<char>>,
) -> Option<Seq<CommandView>> {
    parse_groups(split_groups(expand_spec(s, caps, vars)))
}

pub open spec fn commands_view(v: Seq<CommandArgs>) -> Seq<CommandView> {
    v.map_values(|c: CommandArgs| c@)
}

pub proof fn lemma_parse_groups_len(gs: Seq<Seq<Seq<char>>>)
    ensures
        parse_groups(gs) matches Some(v) ==> v.len() == gs.len(),
    decreases gs.len(),
{
    if gs.len() > 0 {
        lemma_parse_groups_len(gs.drop_last());
    }
}

/// The commands of each stage of `groups`, or `None` when one stage
/// describes none.
pub fn parse_stages(groups: Vec<Vec<String>>) -> (res: Option<Vec<CommandArgs>>)
    ensures
        match parse_groups(groups.deep_view()) {
            Some(v) => res matches Some(r) && commands_view(r@) == v,
            None => res is None,
        },
{
    let ghost gv = groups.deep_view();
    let mut out: Vec<CommandArgs> = Vec::new();
    for g in it: groups.into_iter()
        invariant
            it.seq() == groups@,
            gv == groups.deep_view(),
            parse_groups(gv.take(it.index() as int)) == Some(commands_view(out@)),
    {
        let ghost k = it.index();
        proof {
            assert(gv.take(k + 1).drop_last() =~= gv.take(k as int));
            assert(gv[k as int] == g.deep_view());
        }
        match parse_redirect(g) {
            Some(c) => {
                out.push(c);
                proof {
                    assert(commands_view(out@) =~= commands_view(out@.drop_last()).push(c@));
                }
            },
            None => {
                proof {
                    lemma_parse_groups_none(gv, k + 1);
                }
                return None;
            },
        }
    }
    proof {
        assert(gv.take(gv.len() as int) =~= gv);
    }
    Some(out)
}

proof fn lemma_parse_groups_none(gs: Seq<Seq<Seq<char>>>, k: int)
    requires
        0 <= k <= gs.len(),
        parse_groups(gs.take(k)) is None,
    ensures
        parse_groups(gs) is None,
    decreases gs.len() - k,
{
    if k < gs.len() {
        assert(gs.take(k + 1).drop_last() =~= gs.take(k));
        lemma_parse_groups_none(gs, k + 1);
    } else {
        assert(gs.take(k) =~= gs);
    }
}

/// Parses a command line into the commands of its pipeline: expands
/// variables with `vars`, splits into stages and words, and reads each
/// stage's redirections. `None` when a stage describes no command.
pub fn parse(input: &str, vars: &StringMap) -> (res: Option<Vec<CommandArgs>>)
    ensures
        regex_captures_of(VAR_PATTERN@, input@) is Some,
        match parse_spec(input@, regex_captures_of(VAR_PATTERN@, input@)->0, vars@) {
            Some(v) => res matches Some(r) && commands_view(r@) == v,
            None => res is None,
        },
        res matches Some(r) ==> r.len() >= 1,
{
    let expanded = parse_vars(input, vars);
    let (commands, _, _) = split(expanded.as_str());
    proof {
        lemma_parse_groups_len(commands.deep_view());
    }
    let res = parse_stages(commands);
    proof {
        if res is Some {
            assert(commands_view(res->0@).len() == res->0@.len());
        }
    }
    res
}

/// Every word of a scan is non-empty.
pub open spec fn words_nonempty(sc: Scan) -> bool {
    &&& forall|g: int, w: int|
        0 <= g < sc.groups.len() && 0 <= w < sc.groups[g].len() ==> (#[trigger] sc.groups[g][w]).len()
            > 0
    &&& forall|w: int| 0 <= w < sc.args.len() ==> (#[trigger] sc.args[w]).len() > 0
}

proof fn lemma_scan_words_nonempty(s: Seq<char>)
    ensures
        words_nonempty(scan(s)),
    decreases s.len(),
{
    if s.len() > 0 {
        lemma_scan_words_nonempty(s.drop_last());
        let p = scan(s.drop_last());
        let f = flush(p.args, p.cur);
        assert forall|w: int| 0 <= w < f.len() implies (#[trigger] f[w]).len() > 0 by {
            if w < p.args.len() {
                assert(f[w] == p.args[w]);
            }
        }
        let n = scan(s);
        assert forall|g: int, w: int|
            0 <= g < n.groups.len() && 0 <= w < n.groups[g].len() implies (
            #[trigger] n.groups[g][w]).len() > 0 by {
            if g < p.groups.len() {
                assert(n.groups[g] == p.groups[g]);
            }
        }
    }
}

/// Splitting always gives at least one stage, and every word it gives is
/// non-empty (empty quotes make no word).
pub proof fn law_split_shape(s: Seq<char>)
    ensures
        split_groups(s).len() >= 1,
        forall|g: int, w: int|
            0 <= g < split_groups(s).len() && 0 <= w < split_groups(s)[g].len() ==> (
            #[trigger] split_groups(s)[g][w]).len() > 0,
{
    lemma_scan_words_nonempty(s);
    let sc = scan(s);
    assert forall|g: int, w: int|
        0 <= g < split_groups(s).len() && 0 <= w < split_groups(s)[g].len() implies (
        #[trigger] split_groups(s)[g][w]).len() > 0 by {
        if g < sc.groups.len() {
            assert(split_groups(s)[g] == sc.groups[g]);
        } else {
            assert(split_groups(s)[g] == sc.args);
        }
    }
}

/// The completion start lies within the line, and the word under the cursor
/// after it.
pub proof fn law_completion_start_in_line(s: Seq<char>)
    ensures
        completion_start(s) + utf8_len(pending_word(s)) <= utf8_len(s),
{
    lemma_scan_bound(s);
}

proof fn lemma_no_pipe_no_groups(s: Seq<char>)
    requires
        !s.contains('|'),
    ensures
        scan(s).groups.len() == 0,
    decreases s.len(),
{
    if s.len() > 0 {
        assert(!s.drop_last().contains('|')) by {
            if s.drop_last().contains('|') {
                let i = choose|i: int| 0 <= i < s.drop_last().len() && s.drop_last()[i] == '|';
                assert(s[i] == '|');
            }
        }
        lemma_no_pipe_no_groups(s.drop_last());
        assert(s.last() != '|') by {
            assert(s[s.len() - 1] == s.last());
        }
    }
}

/// A line without `|` is one stage.
pub proof fn law_no_pipe_one_stage(s: Seq<char>)
    requires
        !s.contains('|'),
    ensures
        split_groups(s).len() == 1,
{
    lemma_no_pipe_no_groups(s);
}

/// Words without redirection operators and without a final `&` are a
/// command and its arguments, in the foreground, with no redirection.
pub proof fn law_plain_command(tokens: Seq<Seq<char>>)
    requires
        tokens.len() > 0,
        tokens.last() != "&"@,
        forall|i: int|
            0 <= i < tokens.len() ==> !is_redirect_op(true, #[trigger] tokens[i])
                && !is_redirect_op(false, tokens[i]),
    ensures
        parse_redirect_spec(tokens) == Some(
            CommandView {
                cmd: tokens[0],
                args: tokens.drop_first(),
                stdout: None,
                stderr: None,
                background: None,
            },
        ),
{
    lemma_no_redirect(false, tokens);
    lemma_no_redirect(true, tokens);
}

proof fn lemma_no_redirect(stdout: bool, t: Seq<Seq<char>>)
    requires
        forall|i: int| 0 <= i < t.len() ==> !is_redirect_op(stdout, #[trigger] t[i]),
    ensures
        last_redirect(stdout, t) is None,
    decreases t.len(),
{
    if t.len() > 0 {
        assert(t.last() == t[t.len() - 1]);
        assert forall|i: int| 0 <= i < t.drop_last().len() implies !is_redirect_op(
            stdout,
            #[trigger] t.drop_last()[i],
        ) by {
            assert(t.drop_last()[i] == t[i]);
        }
        lemma_no_redirect(stdout, t.drop_last());
    }
}

/// A command sent to the background keeps its whole stage, words joined by
/// spaces, the `&` included.
pub proof fn law_background_keeps_stage(tokens: Seq<Seq<char>>)
    requires
        parse_redirect_spec(tokens) is Some,
        tokens.last() == "&"@,
    ensures
        parse_redirect_spec(tokens)->0.background == Some(seq_join(tokens, " "@)),
{
}

#[verifier::rlimit(60)]
proof fn lemma_expand_from_verbatim(
    s: Seq<char>,
    caps: Seq<Seq<Option<Span>>>,
    vars: Map<Seq<char>, Seq<char>>,
    i: int,
    pos: int,
)
    requires
        captures_well_formed(s, caps),
        0 <= i <= caps.len(),
        0 <= pos <= s.len(),
        i < caps.len() ==> pos <= char_index(s, whole_span(caps[i]).0 as int),
        forall|j: int| 0 <= j < caps.len() ==> !vars.contains_key(#[trigger] var_name(s, caps[j])),
    ensures
        expand_from(s, caps, vars, i, pos) == s.subrange(pos, s.len() as int),
    decreases caps.len() - i,
{
    if i < caps.len() {
        lemma_captures_at(s, caps, i);
        let w = whole_span(caps[i]);
        assert(caps[i][0] is Some);
        lemma_char_index_mono(s, w.0 as int, w.1 as int);
        let b = char_index(s, w.1 as int);
        if i + 1 < caps.len() {
            lemma_captures_at(s, caps, i + 1);
            let w2 = whole_span(caps[i + 1]);
            assert(caps[i + 1][0] is Some);
            lemma_char_index_mono(s, w.1 as int, w2.0 as int);
        }
        lemma_expand_from_verbatim(s, caps, vars, i + 1, b);
        assert(!vars.contains_key(var_name(s, caps[i])));
        let a = char_index(s, w.0 as int);
        assert(var_replacement(s, caps[i], vars) == s.subrange(a, b));
        assert(expand_from(s, caps, vars, i, pos) == s.subrange(pos, a) + s.subrange(a, b)
            + expand_from(s, caps, vars, i + 1, b));
        assert(s.subrange(pos, a) + s.subrange(a, b) + s.subrange(b, s.len() as int) =~= s.subrange(
            pos,
            s.len() as int,
        ));
    }
}

/// Expansion keeps a line unchanged when none of its references names a
/// variable with a value (in particular when it has no reference).
pub proof fn law_unset_vars_kept(
    s: Seq<char>,
    caps: Seq<Seq<Option<Span>>>,
    vars: Map<Seq<char>, Seq<char>>,
)
    requires
        captures_well_formed(s, caps),
        forall|j: int| 0 <= j < caps.len() ==> !vars.contains_key(#[trigger] var_name(s, caps[j])),
    ensures
        expand_spec(s, caps, vars) == s,
{
    assert(utf8_len(s.take(0)) == 0);
    lemma_char_index(s, 0, 0);
    if caps.len() > 0 {
        lemma_captures_at(s, caps, 0);
        assert(caps[0][0] is Some);
        let w = whole_span(caps[0]);
        assert(is_boundary(s, 0));
        lemma_char_index_mono(s, 0, w.0 as int);
    }
    lemma_expand_from_verbatim(s, caps, vars, 0, 0);
    assert(s.subrange(0, s.len() as int) =~= s);
}

proof fn lemma_quoted_prefix(w: Seq<char>, s: Seq<char>, k: int)
    requires
        s.len() >= w.len() + 1,
        s[0] == '\'',
        forall|i: int| 0 <= i < w.len() ==> s[i + 1] == w[i] && w[i] != '\'',
        0 <= k <= w.len(),
    ensures
        scan(s.take(k + 1)).mode == State::SingleQuote,
        scan(s.take(k + 1)).cur == w.take(k),
        scan(s.take(k + 1)).groups.len() == 0,
        scan(s.take(k + 1)).args.len() == 0,
    decreases k,
{
    if k == 0 {
        lemma_scan_prefix(s, 0);
        assert(s.take(0) =~= Seq::<char>::empty());
        assert(w.take(0) =~= Seq::<char>::empty());
    } else {
        lemma_quoted_prefix(w, s, k - 1);
        lemma_scan_prefix(s, k);
        assert(s[k] == w[k - 1]);
        assert(w.take(k) =~= w.take(k - 1).push(w[k - 1]));
    }
}

/// A word in single quotes, followed by a line break, is one word of one
/// stage, whatever characters (but `'`) it holds: blanks, `|`, `\`, `"`.
pub proof fn law_single_quotes_keep_word(w: Seq<char>)
    requires
        w.len() > 0,
        !w.contains('\''),
    ensures
        split_groups(seq!['\''] + w + seq!['\'', '\n']) == seq![seq![w]],
{
    let s = seq!['\''] + w + seq!['\'', '\n'];
    let n = w.len() as int;
    assert forall|i: int| 0 <= i < w.len() implies s[i + 1] == w[i] && w[i] != '\'' by {
        if w[i] == '\'' {
            assert(w.contains('\''));
        }
    }
    lemma_quoted_prefix(w, s, n);
    assert(w.take(n) =~= w);
    lemma_scan_prefix(s, n + 1);
    lemma_scan_prefix(s, n + 2);
    assert(s[n + 1] == '\'');
    assert(s[n + 2] == '\n');
    assert(s.take(n + 3) =~= s);
    let sc = scan(s);
    assert(sc.args =~= seq![w]);
    assert(split_groups(s) =~= seq![seq![w]]);
}

} // verus!

verus! {

proof fn lemma_dquoted_prefix(w: Seq<char>, s: Seq<char>, k: int)
    requires
        s.len() >= w.len() + 1,
        s[0] == '"',
        forall|i: int| 0 <= i < w.len() ==> s[i + 1] == w[i] && w[i] != '"' && w[i] != '\\',
        0 <= k <= w.len(),
    ensures
        scan(s.take(k + 1)).mode == State::DoubleQuote,
        scan(s.take(k + 1)).cur == w.take(k),
        scan(s.take(k + 1)).groups.len() == 0,
        scan(s.take(k + 1)).args.len() == 0,
    decreases k,
{
    if k == 0 {
        lemma_scan_prefix(s, 0);
        assert(s.take(0) =~= Seq::<char>::empty());
        assert(w.take(0) =~= Seq::<char>::empty());
    } else {
        lemma_dquoted_prefix(w, s, k - 1);
        lemma_scan_prefix(s, k);
        assert(s[k] == w[k - 1]);
        assert(w.take(k) =~= w.take(k - 1).push(w[k - 1]));
    }
}

/// A word in double quotes, followed by a line break, is one word of one
/// stage, whatever characters (but `"` and `\`) it holds: blanks, `|`, `'`.
pub proof fn law_double_quotes_keep_word(w: Seq<char>)
    requires
        w.len() > 0,
        !w.contains('"'),
        !w.contains('\\'),
    ensures
        split_groups(seq!['"'] + w + seq!['"', '\n']) == seq![seq![w]],
{
    let s = seq!['"'] + w + seq!['"', '\n'];
    let n = w.len() as int;
    assert forall|i: int| 0 <= i < w.len() implies s[i + 1] == w[i] && w[i] != '"' && w[i]
        != '\\' by {
        if w[i] == '"' {
            assert(w.contains('"'));
        }
        if w[i] == '\\' {
            assert(w.contains('\\'));
        }
    }
    lemma_dquoted_prefix(w, s, n);
    assert(w.take(n) =~= w);
    lemma_scan_prefix(s, n + 1);
    lemma_scan_prefix(s, n + 2);
    assert(s[n + 1] == '"');
    assert(s[n + 2] == '\n');
    assert(s.take(n + 3) =~= s);
    let sc = scan(s);
    assert(sc.args =~= seq![w]);
    assert(split_groups(s) =~= seq![seq![w]]);
}

/// None of the redirection operators, and not `&`.
pub open spec fn plain_word(w: Seq<char>) -> bool {
    &&& w != ">"@
    &&& w != ">>"@
    &&& w != "1>"@
    &&& w != "1>>"@
    &&& w != "2>"@
    &&& w != "2>>"@
    &&& w != "&"@
}

/// The redirection operators are six different words, none of them `&`.
proof fn lemma_ops_distinct()
    ensures
        ">"@ != "2>"@ && ">"@ != "2>>"@ && ">>"@ != "2>"@ && ">>"@ != "2>>"@,
        "1>"@ != "2>"@ && "1>"@ != "2>>"@ && "1>>"@ != "2>"@ && "1>>"@ != "2>>"@,
        ">"@ != ">>"@ && ">"@ != "1>>"@ && "1>"@ != ">>"@ && "1>"@ != "1>>"@,
        "2>"@ != "2>>"@,
{
    reveal_strlit(">");
    reveal_strlit(">>");
    reveal_strlit("1>");
    reveal_strlit("1>>");
    reveal_strlit("2>");
    reveal_strlit("2>>");
    assert(">"@.len() == 1 && ">>"@.len() == 2 && "1>"@.len() == 2 && "1>>"@.len() == 3);
    assert("2>"@.len() == 2 && "2>>"@.len() == 3);
    assert(">>"@[0] != "2>"@[0]);
    assert("1>"@[0] != "2>"@[0]);
    assert("1>>"@[0] != "2>>"@[0]);
    assert("1>"@[0] != ">>"@[0]);
}

proof fn lemma_four_words_last(t: Seq<Seq<char>>, stdout: bool)
    requires
        t.len() == 4,
        !is_redirect_op(stdout, t[0]),
        !is_redirect_op(stdout, t[1]),
        !is_redirect_op(stdout, t[3]),
    ensures
        is_redirect_op(stdout, t[2]) ==> last_redirect(stdout, t) == Some(2int),
        !is_redirect_op(stdout, t[2]) ==> last_redirect(stdout, t) is None,
{
    let t3 = t.drop_last();
    let t2 = t3.drop_last();
    let t1 = t2.drop_last();
    let t0 = t1.drop_last();
    assert(t.last() == t[3]);
    assert(t3.last() == t[2]);
    assert(t2.last() == t[1]);
    assert(t1.last() == t[0]);
    assert(t0.len() == 0);
    reveal_with_fuel(last_redirect, 5);
    assert(t.drop_last() == t3);
    assert(t3.drop_last() == t2);
    assert(t2.drop_last() == t1);
    assert(t1.drop_last() == t0);
}

/// `c a OP f`, for an operator OP that redirects standard output: `>>` and
/// `1>>` append to `f`, `>` and `1>` overwrite it; `c` is the command, `a`
/// its one argument.
pub proof fn law_stdout_redirect_mode(c: Seq<char>, a: Seq<char>, op: Seq<char>, f: Seq<char>)
    requires
        plain_word(c),
        plain_word(a),
        plain_word(f),
        op == ">"@ || op == ">>"@ || op == "1>"@ || op == "1>>"@,
    ensures
        op == ">>"@ || op == "1>>"@ ==> parse_redirect_spec(seq![c, a, op, f]) == Some(
            CommandView {
                cmd: c,
                args: seq![a],
                stdout: Some((f, RedirectMode::Append)),
                stderr: None,
                background: None,
            },
        ),
        op == ">"@ || op == "1>"@ ==> parse_redirect_spec(seq![c, a, op, f]) == Some(
            CommandView {
                cmd: c,
                args: seq![a],
                stdout: Some((f, RedirectMode::Overwrite)),
                stderr: None,
                background: None,
            },
        ),
{
    reveal_strlit(">");
    reveal_strlit(">>");
    reveal_strlit("1>");
    reveal_strlit("1>>");
    reveal_strlit("2>");
    reveal_strlit("2>>");
    reveal_strlit("&");
    lemma_ops_distinct();
    let t = seq![c, a, op, f];
    assert(t.last() == f);
    assert(!is_redirect_op(false, op));
    lemma_four_words_last(t, false);
    lemma_four_words_last(t, true);
    assert(without_pair(t, 2) =~= seq![c, a]);
    assert(seq![c, a].drop_first() =~= seq![a]);
}

/// `c a OP f`, for an operator OP that redirects standard error: `2>>`
/// appends to `f`, `2>` overwrites it; `c` is the command, `a` its one
/// argument.
pub proof fn law_stderr_redirect_mode(c: Seq<char>, a: Seq<char>, op: Seq<char>, f: Seq<char>)
    requires
        plain_word(c),
        plain_word(a),
        plain_word(f),
        op == "2>"@ || op == "2>>"@,
    ensures
        op == "2>>"@ ==> parse_redirect_spec(seq![c, a, op, f]) == Some(
            CommandView {
                cmd: c,
                args: seq![a],
                stdout: None,
                stderr: Some((f, RedirectMode::Append)),
                background: None,
            },
        ),
        op == "2>"@ ==> parse_redirect_spec(seq![c, a, op, f]) == Some(
            CommandView {
                cmd: c,
                args: seq![a],
                stdout: None,
                stderr: Some((f, RedirectMode::Overwrite)),
                background: None,
            },
        ),
{
    reveal_strlit(">");
    reveal_strlit(">>");
    reveal_strlit("1>");
    reveal_strlit("1>>");
    reveal_strlit("2>");
    reveal_strlit("2>>");
    reveal_strlit("&");
    lemma_ops_distinct();
    let t = seq![c, a, op, f];
    assert(t.last() == f);
    assert(!is_redirect_op(true, op));
    lemma_four_words_last(t, false);
    let t2 = without_pair(t, 2);
    assert(t2 =~= seq![c, a]);
    assert(t2.last() == a);
    assert(t2.drop_last().last() == c);
    assert(t2.drop_last().drop_last().len() == 0);
    reveal_with_fuel(last_redirect, 3);
    assert(last_redirect(true, t2) is None);
    assert(seq![c, a].drop_first() =~= seq![a]);
}

} // verus!
