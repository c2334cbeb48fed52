//! Codex CLI sessions: finding interactive `codex` processes in `ps` output,
//! the session each one resumes, and the commands that resume it.
use vstd::prelude::*;
use crate::order::{SortKey, lemma_views_index, stable_sort, stable_sorted, views};
use crate::ssh::opt_chars;
use crate::text::{
    chars_end_with, chars_eq, chars_lt, chars_of, chars_of_string, chars_start_with, concat,
    decimal, decimal_u64, ends_with, is_hex_digit, join_chars, join_with,
    lemma_lex_lt_irreflexive, lemma_lex_lt_total, lemma_lex_lt_transitive, lex_lt, lines, parse_u32, parse_u32_spec, slice_of, split_lines,
    split_at_char, split_on, split_whitespace, split_ws, starts_with, string_of, trim, trim_chars,
};

verus! {

/// A running Codex CLI session in a terminal.
#[derive(Debug, Clone, PartialEq, Eq)]
pub struct CodexSession {
    pub pid: u32,
    pub session_id: String,
    pub tty: String,
    pub cwd: String,
}

pub struct CodexSessionView {
    pub pid: u32,
    pub session_id: Seq<char>,
    pub tty: Seq<char>,
    pub cwd: Seq<char>,
}

impl View for CodexSession {
    type V = CodexSessionView;

    open spec fn view(&self) -> CodexSessionView {
        CodexSessionView {
            pid: self.pid,
            session_id: self.session_id@,
            tty: self.tty@,
            cwd: self.cwd@,
        }
    }
}

/// An interactive `codex` process read from one line of `ps` output.
#[derive(Debug)]
pub struct ParsedCodexProcess {
    pub pid: u32,
    pub tty: String,
    pub command: String,
}

pub struct ProcessView {
    pub pid: u32,
    pub tty: Seq<char>,
    pub command: Seq<char>,
}

impl View for ParsedCodexProcess {
    type V = ProcessView;

    open spec fn view(&self) -> ProcessView {
        ProcessView { pid: self.pid, tty: self.tty@, command: self.command@ }
    }
}

/// The parts of a Unix path: its pieces between `/`, leaving out empty ones
/// and `.`, as `Path::components` reads it.
pub open spec fn path_parts(p: Seq<char>) -> Seq<Seq<char>> {
    split_on(p, '/').filter(|x: Seq<char>| x.len() > 0 && x != "."@)
}

/// `Path::new(p).file_name()` on Unix: the last part of the path, or `None`
/// when it has none or the last one is `..`.
pub open spec fn path_file_name(p: Seq<char>) -> Option<Seq<char>> {
    let ps = path_parts(p);
    if ps.len() == 0 || ps.last() == ".."@ {
        None
    } else {
        Some(ps.last())
    }
}

/// The last component of the Unix path `p`, as `Path::file_name` reads it:
/// the path is cut at every `/`, empty pieces and `.` are passed over, and a
/// final `..` (or no piece at all) gives no file name.
fn file_name_of(p: &str) -> (r: Option<String>)
    ensures
        opt_chars(r) == path_file_name(p@),
{
    let chars = chars_of(p);
    let pieces = split_at_char(chars.as_slice(), '/');
    let dot = chars_of(".");
    let ghost sp = split_on(p@, '/');
    let ghost pred = |x: Seq<char>| x.len() > 0 && x != "."@;
    let mut parts: Vec<Vec<char>> = Vec::new();
    let mut i: usize = 0;
    assert(sp.take(0).filter(pred) =~= Seq::<Seq<char>>::empty());
    assert(views(parts@) =~= Seq::<Seq<char>>::empty());
    while i < pieces.len()
        invariant
            i <= pieces@.len(),
            views(pieces@) == sp,
            dot@ == "."@,
            pred == (|x: Seq<char>| x.len() > 0 && x != "."@),
            views(parts@) == sp.take(i as int).filter(pred),
        decreases pieces@.len() - i,
    {
        proof {
            lemma_views_index(pieces@, i as int);
            let t = sp.take(i + 1);
            assert(t.drop_last() =~= sp.take(i as int));
            reveal_with_fuel(Seq::<_>::filter, 1);
        }
        let piece = slice_of(pieces[i].as_slice(), 0, pieces[i].len());
        assert(piece@ =~= sp[i as int]);
        if piece.len() > 0 && !chars_eq(piece.as_slice(), dot.as_slice()) {
            let ghost before = views(parts@);
            parts.push(piece);
            assert(views(parts@) =~= before.push(sp[i as int]));
        }
        i = i + 1;
    }
    assert(sp.take(i as int) =~= sp);
    assert(views(parts@) == path_parts(p@));
    let n = parts.len();
    if n == 0 {
        return None;
    }
    proof {
        lemma_views_index(parts@, n - 1);
    }
    let up = chars_of("..");
    if chars_eq(parts[n - 1].as_slice(), up.as_slice()) {
        None
    } else {
        Some(string_of(parts[n - 1].as_slice()))
    }
}

/// The executable's file name is `codex`.
pub fn is_codex_executable(executable: &str) -> (r: bool)
    ensures
        r == (path_file_name(executable@) == Some("codex"@)),
{
    match file_name_of(executable) {
        Some(name) => {
            let n = chars_of_string(&name);
            let codex = chars_of("codex");
            chars_eq(n.as_slice(), codex.as_slice())
        },
        None => false,
    }
}

/// A sub-command of a background service or a one-shot command, whose
/// process is no session to resume.
pub open spec fn is_excluded_subcommand(s: Seq<char>) -> bool {
    ||| s == "mcp-server"@
    ||| s == "app-server"@
    ||| s == "login"@
    ||| s == "logout"@
    ||| s == "version"@
    ||| s == "help"@
}

/// A `ps -o pid=,tty=,command=` line of an interactive `codex` process in a
/// terminal: a numeric pid, a tty other than `??`, an executable whose file
/// name is `codex`, and no excluded sub-command. The command is the words
/// from the executable on, joined by single spaces.
pub open spec fn parse_process_spec(line: Seq<char>) -> Option<ProcessView> {
    let parts = split_ws(line);
    if parts.len() < 2 {
        None
    } else {
        let tty = trim(parts[1]);
        let cmd = parts.skip(2);
        match parse_u32_spec(parts[0]) {
            None => None,
            Some(pid) => if tty.len() == 0 || tty == "??"@ {
                None
            } else if cmd.len() == 0 {
                None
            } else if path_file_name(cmd[0]) != Some("codex"@) {
                None
            } else if cmd.len() >= 2 && is_excluded_subcommand(cmd[1]) {
                None
            } else {
                Some(ProcessView { pid, tty, command: join_with(cmd, " "@) })
            },
        }
    }
}

pub open spec fn process_view_opt(r: Option<ParsedCodexProcess>) -> Option<ProcessView> {
    match r {
        Some(p) => Some(p@),
        None => None,
    }
}

fn word_in(s: &[char], w: &str) -> (r: bool)
    ensures
        r == (s@ == w@),
{
    let wc = chars_of(w);
    chars_eq(s, wc.as_slice())
}

/// Reads one line of `ps -ax -o pid=,tty=,command=` output; `None` unless it
/// is an interactive `codex` process in a terminal.
pub fn parse_native_codex_resume_process(line: &str) -> (r: Option<ParsedCodexProcess>)
    ensures
        process_view_opt(r) == parse_process_spec(line@),
{
    let chars = chars_of(line);
    let parts = split_whitespace(chars.as_slice());
    let ghost pv = views(parts@);
    if parts.len() < 2 {
        return None;
    }
    proof {
        lemma_views_index(parts@, 0);
        lemma_views_index(parts@, 1);
    }
    let pid = match parse_u32(parts[0].as_slice()) {
        Some(p) => p,
        None => return None,
    };
    let tty = trim_chars(parts[1].as_slice());
    if tty.len() == 0 || word_in(tty.as_slice(), "??") {
        return None;
    }
    let mut cmd: Vec<Vec<char>> = Vec::new();
    let mut i: usize = 2;
    assert(views(cmd@) =~= pv.subrange(2, 2));
    while i < parts.len()
        invariant
            pv == views(parts@),
            2 <= i <= parts@.len(),
            views(cmd@) == pv.subrange(2, i as int),
        decreases parts@.len() - i,
    {
        proof {
            lemma_views_index(parts@, i as int);
        }
        let w = slice_of(parts[i].as_slice(), 0, parts[i].len());
        let ghost before = views(cmd@);
        cmd.push(w);
        assert(w@ =~= pv[i as int]);
        assert(views(cmd@) =~= before.push(w@));
        assert(views(cmd@) =~= pv.subrange(2, i + 1int));
        i = i + 1;
    }
    assert(views(cmd@) =~= pv.skip(2));
    if cmd.len() == 0 {
        return None;
    }
    proof {
        lemma_views_index(cmd@, 0);
    }
    let exe = string_of(cmd[0].as_slice());
    if !is_codex_executable(exe.as_str()) {
        return None;
    }
    if cmd.len() >= 2 {
        proof {
            lemma_views_index(cmd@, 1);
        }
        let sub = cmd[1].as_slice();
        if word_in(sub, "mcp-server") || word_in(sub, "app-server") || word_in(sub, "login")
            || word_in(sub, "logout") || word_in(sub, "version") || word_in(sub, "help") {
            return None;
        }
    }
    let space = chars_of(" ");
    let command = join_chars(cmd.as_slice(), space.as_slice());
    Some(ParsedCodexProcess { pid, tty: string_of(tty.as_slice()), command: string_of(command.as_slice()) })
}

/// A hyphen stands at these positions of a session id.
pub open spec fn is_hyphen_position(i: int) -> bool {
    i == 8 || i == 13 || i == 18 || i == 23
}

/// A session id has the shape of a UUID: 36 characters, hyphens at
/// positions 8, 13, 18 and 23, hexadecimal digits elsewhere.
///
/// (Counting characters rather than UTF-8 bytes makes no difference: every
/// accepted character is ASCII.)
pub open spec fn looks_like_session_id_spec(c: Seq<char>) -> bool {
    &&& c.len() == 36
    &&& forall|i: int|
        0 <= i < 36 ==> if is_hyphen_position(i) {
            #[trigger] c[i] == '-'
        } else {
            is_hex_digit(c[i])
        }
}

fn chars_look_like_session_id(c: &[char]) -> (r: bool)
    ensures
        r == looks_like_session_id_spec(c@),
{
    if c.len() != 36 {
        return false;
    }
    let mut i: usize = 0;
    while i < 36
        invariant
            c@.len() == 36,
            i <= 36,
            forall|k: int|
                0 <= k < i ==> if is_hyphen_position(k) {
                    #[trigger] c@[k] == '-'
                } else {
                    is_hex_digit(c@[k])
                },
        decreases 36 - i,
    {
        let ch = c[i];
        let ok = if i == 8 || i == 13 || i == 18 || i == 23 {
            ch == '-'
        } else {
            ('0' <= ch && ch <= '9') || ('a' <= ch && ch <= 'f') || ('A' <= ch && ch <= 'F')
        };
        if !ok {
            assert(!(if is_hyphen_position(i as int) {
                c@[i as int] == '-'
            } else {
                is_hex_digit(c@[i as int])
            }));
            return false;
        }
        i = i + 1;
    }
    true
}

/// Whether `candidate` has the shape of a session id.
pub fn looks_like_session_id(candidate: &str) -> (r: bool)
    ensures
        r == looks_like_session_id_spec(candidate@),
{
    let c = chars_of(candidate);
    chars_look_like_session_id(c.as_slice())
}

/// The first word after a `resume` word that looks like a session id.
pub open spec fn session_after_resume(tokens: Seq<Seq<char>>, seen_resume: bool) -> Option<Seq<char>>
    decreases tokens.len(),
{
    if tokens.len() == 0 {
        None
    } else if seen_resume && looks_like_session_id_spec(tokens[0]) {
        Some(tokens[0])
    } else {
        session_after_resume(tokens.drop_first(), seen_resume || tokens[0] == "resume"@)
    }
}

/// The session id that a command line resumes: the first word after a
/// `resume` word that looks like a session id.
pub open spec fn session_from_command_spec(command: Seq<char>) -> Option<Seq<char>> {
    session_after_resume(split_ws(command), false)
}

proof fn lemma_session_after_resume_facts(tokens: Seq<Seq<char>>, seen_resume: bool)
    ensures
        session_after_resume(tokens, seen_resume) matches Some(id) ==> looks_like_session_id_spec(id)
            && tokens.contains(id),
    decreases tokens.len(),
{
    if tokens.len() > 0 {
        lemma_session_after_resume_facts(tokens.drop_first(), seen_resume || tokens[0] == "resume"@);
        if let Some(id) = session_after_resume(tokens.drop_first(), seen_resume || tokens[0] == "resume"@) {
            let k = choose|k: int| 0 <= k < tokens.drop_first().len() && tokens.drop_first()[k] == id;
            assert(tokens[k + 1] == id);
        }
        assert(tokens[0] == tokens[0]);
    }
}

/// Law: a session id read from a command line has the shape of a session
/// id and is one of the command's words.
pub proof fn lemma_session_from_command_is_session_id(command: Seq<char>)
    ensures
        session_from_command_spec(command) matches Some(id) ==> looks_like_session_id_spec(id)
            && split_ws(command).contains(id),
{
    lemma_session_after_resume_facts(split_ws(command), false);
}

/// The session id that `codex ... resume <id>` names, if any.
pub fn extract_session_from_command(command: &str) -> (r: Option<String>)
    ensures
        opt_chars(r) == session_from_command_spec(command@),
{
    let chars = chars_of(command);
    let tokens = split_whitespace(chars.as_slice());
    let ghost tv = views(tokens@);
    let mut seen_resume = false;
    let mut i: usize = 0;
    assert(tv.skip(0) =~= tv);
    while i < tokens.len()
        invariant
            tv == views(tokens@),
            tv == split_ws(command@),
            i <= tokens@.len(),
            session_after_resume(tv, false) == session_after_resume(tv.skip(i as int), seen_resume),
        decreases tokens@.len() - i,
    {
        proof {
            lemma_views_index(tokens@, i as int);
            assert(tv.skip(i as int)[0] == tv[i as int]);
            assert(tv.skip(i as int).drop_first() =~= tv.skip(i + 1int));
        }
        let token = tokens[i].as_slice();
        if seen_resume && chars_look_like_session_id(token) {
            return Some(string_of(token));
        }
        if word_in(token, "resume") {
            seen_resume = true;
        }
        i = i + 1;
    }
    None
}

/// The processes of a `ps` listing: the interactive `codex` lines, the
/// first one of each pid.
pub open spec fn processes_of(ls: Seq<Seq<char>>) -> Seq<ProcessView>
    decreases ls.len(),
{
    if ls.len() == 0 {
        seq![]
    } else {
        let prev = processes_of(ls.drop_last());
        match parse_process_spec(ls.last()) {
            Some(p) => if exists|i: int| 0 <= i < prev.len() && (#[trigger] prev[i]).pid == p.pid {
                prev
            } else {
                prev.push(p)
            },
            None => prev,
        }
    }
}

/// Law: no pid occurs twice among the processes of a listing.
pub proof fn lemma_processes_pids_distinct(ls: Seq<Seq<char>>)
    ensures
        forall|i: int, j: int|
            0 <= i < j < processes_of(ls).len() ==> (#[trigger] processes_of(ls)[i]).pid != (
            #[trigger] processes_of(ls)[j]).pid,
    decreases ls.len(),
{
    if ls.len() > 0 {
        lemma_processes_pids_distinct(ls.drop_last());
        let prev = processes_of(ls.drop_last());
        let r = processes_of(ls);
        assert forall|i: int, j: int| 0 <= i < j < r.len() implies (#[trigger] r[i]).pid != (
        #[trigger] r[j]).pid by {
            if j < prev.len() {
                assert(r[i] == prev[i] && r[j] == prev[j]);
            } else {
                assert(r[i] == prev[i]);
                let p = parse_process_spec(ls.last())->0;
                assert(r[j] == p);
                assert(!(exists|k: int| 0 <= k < prev.len() && (#[trigger] prev[k]).pid == p.pid));
            }
        }
    }
}

/// Whether some process of `d` has the given pid.
fn contains_pid(d: &Vec<ParsedCodexProcess>, pid: u32) -> (r: bool)
    ensures
        r == exists|i: int| 0 <= i < views(d@).len() && (#[trigger] views(d@)[i]).pid == pid,
{
    let ghost dv = views(d@);
    let mut j: usize = 0;
    while j < d.len()
        invariant
            dv == views(d@),
            j <= d@.len(),
            forall|k: int| 0 <= k < j ==> (#[trigger] dv[k]).pid != pid,
        decreases d@.len() - j,
    {
        proof {
            lemma_views_index(d@, j as int);
        }
        if d[j].pid == pid {
            assert(dv[j as int].pid == pid);
            return true;
        }
        j = j + 1;
    }
    false
}

/// The interactive `codex` processes of `ps -ax -o pid=,tty=,command=`
/// output, in order, keeping the first line of each pid.
pub fn codex_processes_from_ps(stdout: &str) -> (r: Vec<ParsedCodexProcess>)
    ensures
        views(r@) == processes_of(lines(stdout@)),
{
    let chars = chars_of(stdout);
    let ls = split_lines(chars.as_slice());
    let ghost lv = views(ls@);
    let mut out: Vec<ParsedCodexProcess> = Vec::new();
    let mut i: usize = 0;
    assert(lv.take(0) =~= Seq::<Seq<char>>::empty());
    assert(views(out@) =~= Seq::<ProcessView>::empty());
    while i < ls.len()
        invariant
            lv == views(ls@),
            i <= ls@.len(),
            views(out@) == processes_of(lv.take(i as int)),
        decreases ls@.len() - i,
    {
        proof {
            lemma_views_index(ls@, i as int);
            let t = lv.take(i + 1int);
            assert(t.drop_last() =~= lv.take(i as int));
            assert(t.last() == ls@[i as int]@);
        }
        let line = string_of(ls[i].as_slice());
        match parse_native_codex_resume_process(line.as_str()) {
            Some(p) => {
                let ghost ov = views(out@);
                if !contains_pid(&out, p.pid) {
                    out.push(p);
                    assert(views(out@) =~= ov.push(p@));
                }
            },
            None => {},
        }
        i = i + 1;
    }
    assert(lv.take(i as int) =~= lv);
    out
}

/// Sessions are listed by tty, then by pid.
impl SortKey for CodexSession {
    open spec fn key_lt(a: CodexSessionView, b: CodexSessionView) -> bool {
        ||| lex_lt(a.tty, b.tty)
        ||| a.tty == b.tty && a.pid < b.pid
    }

    fn sorts_before(&self, other: &Self) -> (r: bool) {
        let a = chars_of_string(&self.tty);
        let b = chars_of_string(&other.tty);
        if chars_lt(a.as_slice(), b.as_slice()) {
            return true;
        }
        if !chars_eq(a.as_slice(), b.as_slice()) {
            return false;
        }
        self.pid < other.pid
    }

    proof fn lemma_key_lt_irreflexive(a: CodexSessionView) {
        lemma_lex_lt_irreflexive(a.tty);
    }

    proof fn lemma_key_lt_transitive(a: CodexSessionView, b: CodexSessionView, c: CodexSessionView) {
        if lex_lt(a.tty, b.tty) && lex_lt(b.tty, c.tty) {
            lemma_lex_lt_transitive(a.tty, b.tty, c.tty);
        }
    }
}

/// Sorts sessions by tty, then pid.
pub fn sort_codex_sessions(sessions: Vec<CodexSession>) -> (r: Vec<CodexSession>)
    ensures
        views(r@) == stable_sorted::<CodexSession>(views(sessions@)),
        r@.to_multiset() == sessions@.to_multiset(),
{
    stable_sort(sessions)
}

/// The sessions to resume: all of them, or those whose working directory is
/// `cwd` when one is given, in their order.
pub open spec fn sessions_in_cwd_spec(s: Seq<CodexSessionView>, cwd: Option<Seq<char>>) -> Seq<CodexSessionView> {
    match cwd {
        Some(c) => s.filter(|x: CodexSessionView| x.cwd == c),
        None => s,
    }
}

/// Keeps the sessions whose working directory is `cwd`, or all of them when
/// no directory is given.
pub fn sessions_in_cwd(sessions: Vec<CodexSession>, cwd: Option<&str>) -> (r: Vec<CodexSession>)
    ensures
        views(r@) == sessions_in_cwd_spec(views(sessions@), match cwd {
            Some(c) => Some(c@),
            None => None,
        }),
{
    match cwd {
        None => sessions,
        Some(c) => {
            let target = chars_of(c);
            let ghost sv = views(sessions@);
            let ghost pred = |x: CodexSessionView| x.cwd == c@;
            let mut rest = sessions;
            let mut out: Vec<CodexSession> = Vec::new();
            let ghost mut done: int = 0;
            assert(sv.take(0).filter(pred) =~= Seq::<CodexSessionView>::empty());
            assert(views(out@) =~= Seq::<CodexSessionView>::empty());
            while rest.len() > 0
                invariant
                    0 <= done <= sv.len(),
                    views(rest@) == sv.skip(done),
                    views(out@) == sv.take(done).filter(pred),
                    target@ == c@,
                    pred == (|x: CodexSessionView| x.cwd == c@),
                decreases rest@.len(),
            {
                let ghost old_rest = rest@;
                let s = rest.remove(0);
                proof {
                    lemma_views_index(old_rest, 0);
                    assert(s@ == sv[done]);
                    let t = sv.take(done + 1);
                    assert(t.drop_last() =~= sv.take(done));
                    assert(t.last() == s@);
                    reveal_with_fuel(Seq::<_>::filter, 1);
                }
                let dir = chars_of_string(&s.cwd);
                if chars_eq(dir.as_slice(), target.as_slice()) {
                    let ghost before = views(out@);
                    out.push(s);
                    assert(views(out@) =~= before.push(sv[done]));
                }
                proof {
                    done = done + 1;
                }
                assert(views(rest@) =~= sv.skip(done)) by {
                    assert(views(rest@) =~= views(old_rest).drop_first());
                }
            }
            assert(sv.take(done) =~= sv);
            out
        },
    }
}

/// A file name under which Codex keeps its state database: `state…sqlite`.
pub open spec fn is_state_db_name_spec(n: Seq<char>) -> bool {
    starts_with(n, "state"@) && ends_with(n, ".sqlite"@)
}

/// Whether a file in the Codex directory is one of its state databases.
pub fn is_state_db_name(name: &str) -> (r: bool)
    ensures
        r == is_state_db_name_spec(name@),
{
    let n = chars_of(name);
    chars_start_with(n.as_slice(), chars_of("state").as_slice()) && chars_end_with(
        n.as_slice(),
        chars_of(".sqlite").as_slice(),
    )
}

/// State databases are ordered by modification time, then by name.
pub open spec fn db_key_lt(t1: i128, n1: Seq<char>, t2: i128, n2: Seq<char>) -> bool {
    t1 < t2 || (t1 == t2 && lex_lt(n1, n2))
}

proof fn lemma_db_key_order(t1: i128, n1: Seq<char>, t2: i128, n2: Seq<char>, t3: i128, n3: Seq<char>)
    ensures
        !db_key_lt(t1, n1, t1, n1),
        db_key_lt(t1, n1, t2, n2) && db_key_lt(t2, n2, t3, n3) ==> db_key_lt(t1, n1, t3, n3),
        db_key_lt(t1, n1, t2, n2) || db_key_lt(t2, n2, t1, n1) || (t1 == t2 && n1 == n2),
{
    lemma_lex_lt_irreflexive(n1);
    lemma_lex_lt_total(n1, n2);
    if t1 == t2 && t2 == t3 && lex_lt(n1, n2) && lex_lt(n2, n3) {
        lemma_lex_lt_transitive(n1, n2, n3);
    }
}

/// Of the state databases found, with their modification times (in
/// nanoseconds from the Unix epoch) and names, the position of the latest:
/// the greatest time, then the greatest name; of equal ones the last.
/// `None` when there is none.
pub fn latest_state_db(times: &[i128], names: &[String]) -> (r: Option<usize>)
    requires
        times@.len() == names@.len(),
    ensures
        r is None <==> times@.len() == 0,
        r matches Some(i) ==> {
            &&& i < times@.len()
            &&& forall|k: int|
                0 <= k < times@.len() ==> !db_key_lt(
                    times@[i as int],
                    names@[i as int]@,
                    times@[k],
                    #[trigger] names@[k]@,
                )
            &&& forall|k: int|
                i < k < times@.len() ==> db_key_lt(
                    times@[k],
                    #[trigger] names@[k]@,
                    times@[i as int],
                    names@[i as int]@,
                )
        },
{
    if times.len() == 0 {
        return None;
    }
    let mut best: usize = 0;
    let mut best_name = chars_of_string(&names[0]);
    let mut i: usize = 1;
    proof {
        lemma_db_key_order(times@[0], names@[0]@, times@[0], names@[0]@, times@[0], names@[0]@);
    }
    while i < times.len()
        invariant
            times@.len() == names@.len(),
            times@.len() > 0,
            best < i <= times@.len(),
            best_name@ == names@[best as int]@,
            forall|k: int|
                0 <= k < i ==> !db_key_lt(
                    times@[best as int],
                    names@[best as int]@,
                    times@[k],
                    #[trigger] names@[k]@,
                ),
            forall|k: int|
                best < k < i ==> db_key_lt(
                    times@[k],
                    #[trigger] names@[k]@,
                    times@[best as int],
                    names@[best as int]@,
                ),
        decreases times@.len() - i,
    {
        let name = chars_of_string(&names[i]);
        let smaller = times[i] < times[best] || (times[i] == times[best] && chars_lt(
            name.as_slice(),
            best_name.as_slice(),
        ));
        let ghost tb = times@[best as int];
        let ghost nb = names@[best as int]@;
        let ghost ti = times@[i as int];
        let ghost ni = names@[i as int]@;
        if smaller {
            proof {
                lemma_db_key_order(ti, ni, tb, nb, ti, ni);
                lemma_db_key_order(tb, nb, ti, ni, tb, nb);
            }
        } else {
            proof {
                lemma_db_key_order(ti, ni, tb, nb, ti, ni);
                assert forall|k: int| 0 <= k < i + 1 implies !db_key_lt(
                    ti,
                    ni,
                    times@[k],
                    #[trigger] names@[k]@,
                ) by {
                    lemma_db_key_order(tb, nb, ti, ni, times@[k], names@[k]@);
                    lemma_db_key_order(ti, ni, ti, ni, ti, ni);
                }
            }
            best = i;
            best_name = name;
        }
        i = i + 1;
    }
    Some(best)
}

/// The first line of `lsof -Fn` output that starts with `n`, without the `n`.
pub open spec fn first_name_field(ls: Seq<Seq<char>>) -> Option<Seq<char>>
    decreases ls.len(),
{
    if ls.len() == 0 {
        None
    } else if starts_with(ls[0], "n"@) {
        Some(ls[0].skip(1))
    } else {
        first_name_field(ls.drop_first())
    }
}

/// The working directory that `lsof -p <pid> -a -d cwd -Fn` reports, or the
/// message for its failure.
pub open spec fn process_cwd_spec(pid: u32, success: bool, stdout: Seq<char>) -> Result<Seq<char>, Seq<char>> {
    if !success {
        Err("lsof 命令执行失败"@)
    } else {
        match first_name_field(lines(stdout)) {
            Some(cwd) => Ok(cwd),
            None => Err("无法获取进程 "@ + decimal(pid as nat) + " 的工作目录"@),
        }
    }
}

pub open spec fn string_result_view(r: Result<String, String>) -> Result<Seq<char>, Seq<char>> {
    match r {
        Ok(s) => Ok(s@),
        Err(e) => Err(e@),
    }
}

/// Reads the working directory of process `pid` out of the output of
/// `lsof -p <pid> -a -d cwd -Fn`, given whether the command succeeded.
pub fn process_cwd_from_lsof(pid: u32, success: bool, stdout: &str) -> (r: Result<String, String>)
    ensures
        string_result_view(r) == process_cwd_spec(pid, success, stdout@),
{
    if !success {
        return Err(crate::text::owned("lsof 命令执行失败"));
    }
    let chars = chars_of(stdout);
    let ls = split_lines(chars.as_slice());
    let ghost lv = views(ls@);
    let n_prefix = chars_of("n");
    proof {
        reveal_strlit("n");
    }
    let mut i: usize = 0;
    assert(lv.skip(0) =~= lv);
    while i < ls.len()
        invariant
            lv == views(ls@),
            lv == lines(stdout@),
            n_prefix@ == "n"@,
            n_prefix@.len() == 1,
            success,
            i <= ls@.len(),
            first_name_field(lv) == first_name_field(lv.skip(i as int)),
        decreases ls@.len() - i,
    {
        proof {
            lemma_views_index(ls@, i as int);
            assert(lv.skip(i as int)[0] == lv[i as int]);
            assert(lv.skip(i as int).drop_first() =~= lv.skip(i + 1int));
        }
        if chars_start_with(ls[i].as_slice(), n_prefix.as_slice()) {
            let cwd = slice_of(ls[i].as_slice(), 1, ls[i].len());
            assert(cwd@ =~= lv[i as int].skip(1));
            assert(starts_with(lv.skip(i as int)[0], "n"@));
            assert(first_name_field(lv.skip(i as int)) == Some(lv[i as int].skip(1)));
            return Ok(string_of(cwd.as_slice()));
        }
        i = i + 1;
    }
    let head = chars_of("无法获取进程 ");
    let tail = chars_of(" 的工作目录");
    let digits = decimal_u64(pid as u64);
    let m = concat(head.as_slice(), digits.as_slice());
    let msg = concat(m.as_slice(), tail.as_slice());
    Err(string_of(msg.as_slice()))
}

} // verus!
