//! Resuming a Codex session in its terminal: the device, the command, and
//! the AppleScript and shell text that type it there; and the decisions
//! taken on the way from the outcome of each step.
use vstd::prelude::*;
use crate::text::{
    chars_contain, chars_of, chars_start_with, concat, contains_seq, decimal, decimal_i64,
    decimal_u64, join_chars, join_with, lower, parse_u32, parse_u32_spec, signed_decimal,
    split_whitespace, split_ws, starts_with, string_of, to_lower, trim, trim_chars,
};
use crate::order::{lemma_views_index, views};

verus! {

/// The terminal device of a session: its tty under `/dev/`.
pub open spec fn resume_tty_spec(tty: Seq<char>) -> Seq<char> {
    if starts_with(tty, "/dev/"@) {
        tty
    } else {
        "/dev/"@ + tty
    }
}

/// The device path of the terminal `tty`, with `/dev/` put in front unless
/// it is there.
pub fn resume_tty(tty: &str) -> (r: String)
    ensures
        r@ == resume_tty_spec(tty@),
{
    let t = chars_of(tty);
    let dev = chars_of("/dev/");
    if chars_start_with(t.as_slice(), dev.as_slice()) {
        string_of(t.as_slice())
    } else {
        string_of(concat(dev.as_slice(), t.as_slice()).as_slice())
    }
}

/// The command that resumes a session.
pub fn resume_command(session_id: &str) -> (r: String)
    ensures
        r@ == "codex resume "@ + session_id@,
{
    let head = chars_of("codex resume ");
    let id = chars_of(session_id);
    string_of(concat(head.as_slice(), id.as_slice()).as_slice())
}

/// The iTerm2 script that types `command` into the session on `tty`.
pub open spec fn iterm_resume_script_spec(tty: Seq<char>, command: Seq<char>) -> Seq<char> {
    "tell application \"iTerm2\"\n    set targetTty to \""@ + tty + "\"\n    set resumeCommand to \""@ + command + "\"\n    set foundSession to false\n\n    repeat with targetWindow in windows\n        repeat with targetTab in tabs of targetWindow\n            repeat with targetSession in sessions of targetTab\n                if tty of targetSession is targetTty then\n                    tell targetSession\n                        -- 先发送 Ctrl+C 清理终端状态\n                        write text (ASCII character 3)\n                        delay 0.2\n                        -- 然后执行 resume 命令\n                        write text resumeCommand\n                    end tell\n                    activate\n                    set foundSession to true\n                    exit repeat\n                end if\n            end repeat\n            if foundSession then exit repeat\n        end repeat\n        if foundSession then exit repeat\n    end repeat\n\n    if foundSession then\n        return \"success\"\n    else\n        error \"未找到对应的 iTerm session: "@ + tty + "\"\n    end if\nend tell"@
}

/// The iTerm2 AppleScript that interrupts the session on `tty`, types
/// `command` into it and brings it forward.
pub fn iterm_resume_script(tty: &[char], command: &[char]) -> (r: String)
    ensures
        r@ == iterm_resume_script_spec(tty@, command@),
{
    let mut r: Vec<char> = chars_of("tell application \"iTerm2\"\n    set targetTty to \"");
    r = concat(r.as_slice(), tty);
    r = concat(r.as_slice(), chars_of("\"\n    set resumeCommand to \"").as_slice());
    r = concat(r.as_slice(), command);
    r = concat(r.as_slice(), chars_of("\"\n    set foundSession to false\n\n    repeat with targetWindow in windows\n        repeat with targetTab in tabs of targetWindow\n            repeat with targetSession in sessions of targetTab\n                if tty of targetSession is targetTty then\n                    tell targetSession\n                        -- 先发送 Ctrl+C 清理终端状态\n                        write text (ASCII character 3)\n                        delay 0.2\n                        -- 然后执行 resume 命令\n                        write text resumeCommand\n                    end tell\n                    activate\n                    set foundSession to true\n                    exit repeat\n                end if\n            end repeat\n            if foundSession then exit repeat\n        end repeat\n        if foundSession then exit repeat\n    end repeat\n\n    if foundSession then\n        return \"success\"\n    else\n        error \"未找到对应的 iTerm session: ").as_slice());
    r = concat(r.as_slice(), tty);
    r = concat(r.as_slice(), chars_of("\"\n    end if\nend tell").as_slice());
    string_of(r.as_slice())
}

/// The Terminal script that types `command` into the tab on `tty`.
pub open spec fn terminal_resume_script_spec(tty: Seq<char>, command: Seq<char>) -> Seq<char> {
    "tell application \"Terminal\"\n    set targetTty to \""@ + tty + "\"\n    set resumeCommand to \""@ + command + "\"\n    set foundTab to false\n\n    repeat with targetWindow in windows\n        repeat with targetTab in tabs of targetWindow\n            if tty of targetTab is targetTty then\n                -- 先发送 Ctrl+C 清理终端状态\n                do script (ASCII character 3) in targetTab\n                delay 0.2\n                -- 然后执行 resume 命令\n                do script resumeCommand in targetTab\n                activate\n                set foundTab to true\n                exit repeat\n            end if\n        end repeat\n        if foundTab then exit repeat\n    end repeat\n\n    if foundTab then\n        return \"success\"\n    else\n        error \"未找到对应的 Terminal 标签页: "@ + tty + "\"\n    end if\nend tell"@
}

/// The Terminal AppleScript that interrupts the tab on `tty`, types
/// `command` into it and brings it forward.
pub fn terminal_resume_script(tty: &[char], command: &[char]) -> (r: String)
    ensures
        r@ == terminal_resume_script_spec(tty@, command@),
{
    let mut r: Vec<char> = chars_of("tell application \"Terminal\"\n    set targetTty to \"");
    r = concat(r.as_slice(), tty);
    r = concat(r.as_slice(), chars_of("\"\n    set resumeCommand to \"").as_slice());
    r = concat(r.as_slice(), command);
    r = concat(r.as_slice(), chars_of("\"\n    set foundTab to false\n\n    repeat with targetWindow in windows\n        repeat with targetTab in tabs of targetWindow\n            if tty of targetTab is targetTty then\n                -- 先发送 Ctrl+C 清理终端状态\n                do script (ASCII character 3) in targetTab\n                delay 0.2\n                -- 然后执行 resume 命令\n                do script resumeCommand in targetTab\n                activate\n                set foundTab to true\n                exit repeat\n            end if\n        end repeat\n        if foundTab then exit repeat\n    end repeat\n\n    if foundTab then\n        return \"success\"\n    else\n        error \"未找到对应的 Terminal 标签页: ").as_slice());
    r = concat(r.as_slice(), tty);
    r = concat(r.as_slice(), chars_of("\"\n    end if\nend tell").as_slice());
    string_of(r.as_slice())
}

/// The hint shown in a terminal that cannot be driven.
pub open spec fn resume_hint_spec(command: Seq<char>) -> Seq<char> {
    "\n=== Codexs 提示 ===\n请运行以下命令恢复会话:\n"@ + command + "\n==================\n"@
}

/// The message that asks the user to resume by hand.
pub fn resume_hint(command: &[char]) -> (r: String)
    ensures
        r@ == resume_hint_spec(command@),
{
    let a = chars_of("\n=== Codexs 提示 ===\n请运行以下命令恢复会话:\n");
    let b = chars_of("\n==================\n");
    let r = concat(a.as_slice(), command);
    string_of(concat(r.as_slice(), b.as_slice()).as_slice())
}

/// The shell command that prints `hint` on the terminal device `tty`.
pub fn hint_shell_command(hint: &[char], tty: &[char]) -> (r: String)
    ensures
        r@ == "printf '%s' '"@ + hint@ + "' > "@ + tty@,
{
    let a = chars_of("printf '%s' '");
    let b = chars_of("' > ");
    let r = concat(a.as_slice(), hint);
    let r = concat(r.as_slice(), b.as_slice());
    string_of(concat(r.as_slice(), tty).as_slice())
}


/// What one look at a process tells about whether a session runs inside
/// Visual Studio Code.
#[derive(Debug, Clone, Copy, PartialEq, Eq)]
pub enum VscodeProbe {
    /// The process belongs to an editor terminal.
    Detected,
    /// No editor was seen and there is no further parent to look at.
    TopReached,
    /// Look at this parent process next.
    Parent(u32),
}

/// A line of `ps` output that shows an editor's process: its ASCII
/// lower-cased text mentions `visual studio code`, `code helper` (the
/// editor's helper processes, whose parent is its terminal), `vscode` or
/// `electron`. A line that merely mentions `codex` shows no editor.
pub open spec fn mentions_editor(line: Seq<char>) -> bool {
    let low = lower(line);
    ||| contains_seq(low, "visual studio code"@)
    ||| contains_seq(low, "code helper"@)
    ||| contains_seq(low, "vscode"@)
    ||| contains_seq(low, "electron"@)
}

/// The verdict on the output of `ps -p <pid> -o ppid=,command=` for the
/// process `current_pid`: an editor when the output shows one; otherwise its
/// parent, when the first word is a pid above 1 other than `current_pid`;
/// otherwise the top.
pub open spec fn vscode_probe_spec(stdout: Seq<char>, current_pid: u32) -> VscodeProbe {
    let words = split_ws(stdout);
    if mentions_editor(stdout) {
        VscodeProbe::Detected
    } else if words.len() > 0 && parse_u32_spec(trim(words[0])) is Some {
        let ppid = parse_u32_spec(trim(words[0]))->0;
        if ppid > 1 && ppid != current_pid {
            VscodeProbe::Parent(ppid)
        } else {
            VscodeProbe::TopReached
        }
    } else {
        VscodeProbe::TopReached
    }
}

/// Reads one step of the walk up the process tree that looks for an editor
/// terminal.
pub fn vscode_probe(stdout: &str, current_pid: u32) -> (r: VscodeProbe)
    ensures
        r == vscode_probe_spec(stdout@, current_pid),
{
    let out = chars_of(stdout);
    let low = to_lower(out.as_slice());
    if chars_contain(low.as_slice(), chars_of("visual studio code").as_slice()) || chars_contain(
        low.as_slice(),
        chars_of("code helper").as_slice(),
    ) || chars_contain(low.as_slice(), chars_of("vscode").as_slice()) || chars_contain(
        low.as_slice(),
        chars_of("electron").as_slice(),
    ) {
        return VscodeProbe::Detected;
    }
    let words = split_whitespace(out.as_slice());
    if words.len() == 0 {
        return VscodeProbe::TopReached;
    }
    proof {
        lemma_views_index(words@, 0);
    }
    let first = trim_chars(words[0].as_slice());
    match parse_u32(first.as_slice()) {
        Some(ppid) => if ppid > 1 && ppid != current_pid {
            VscodeProbe::Parent(ppid)
        } else {
            VscodeProbe::TopReached
        },
        None => VscodeProbe::TopReached,
    }
}

/// The most parent processes the walk steps to.
pub open spec fn vscode_max_depth() -> nat {
    10
}

/// The walk's move after it has stepped to `depth` parents: as
/// [`vscode_probe_spec`] judges, except that it ends, with no editor seen,
/// rather than step to more than [`vscode_max_depth`] parents.
pub open spec fn vscode_walk_spec(depth: nat, stdout: Seq<char>, current_pid: u32) -> VscodeProbe {
    match vscode_probe_spec(stdout, current_pid) {
        VscodeProbe::Parent(p) => if depth + 1 >= vscode_max_depth() {
            VscodeProbe::TopReached
        } else {
            VscodeProbe::Parent(p)
        },
        other => other,
    }
}

/// One step of the walk up the process tree, `depth` parents up: the
/// verdict on the output of `ps -p <pid> -o ppid=,command=` for
/// `current_pid`.
pub fn vscode_walk_step(depth: usize, stdout: &str, current_pid: u32) -> (r: VscodeProbe)
    ensures
        r == vscode_walk_spec(depth as nat, stdout@, current_pid),
{
    match vscode_probe(stdout, current_pid) {
        VscodeProbe::Parent(p) => if depth >= 9 {
            VscodeProbe::TopReached
        } else {
            VscodeProbe::Parent(p)
        },
        other => other,
    }
}

/// Law: the walk takes a process for an editor's exactly when its `ps` line
/// shows an editor, so a session in any other terminal (whose lines mention
/// `codex`, a shell, `iTerm2` or `Terminal`) is resumed; and it steps to at
/// most [`vscode_max_depth`] parents.
pub proof fn lemma_walk_detects_only_editors(depth: nat, stdout: Seq<char>, current_pid: u32)
    ensures
        (vscode_walk_spec(depth, stdout, current_pid) == VscodeProbe::Detected) <==> mentions_editor(
            stdout,
        ),
        depth + 1 >= vscode_max_depth() ==> !(vscode_walk_spec(depth, stdout, current_pid) is Parent),
{
}

/// The outcome of `kill -TERM <pid>`: success, or a process already gone,
/// is no failure.
pub open spec fn terminate_outcome_spec(pid: u32, success: bool, stderr: Seq<char>, summary: Seq<char>) -> Result<(), Seq<char>> {
    if success || contains_seq(stderr, "No such process"@) {
        Ok(())
    } else {
        Err("终止 Codex 进程 "@ + decimal(pid as nat) + " 失败: "@ + summary)
    }
}

pub open spec fn unit_result_view(r: Result<(), String>) -> Result<(), Seq<char>> {
    match r {
        Ok(()) => Ok(()),
        Err(e) => Err(e@),
    }
}

/// Judges `kill -TERM <pid>` from whether it succeeded, its standard error
/// and the summary of its output.
pub fn terminate_outcome(pid: u32, success: bool, stderr: &str, summary: &str) -> (r: Result<(), String>)
    ensures
        unit_result_view(r) == terminate_outcome_spec(pid, success, stderr@, summary@),
{
    if success {
        return Ok(());
    }
    let err = chars_of(stderr);
    if chars_contain(err.as_slice(), chars_of("No such process").as_slice()) {
        return Ok(());
    }
    let m = concat(chars_of("终止 Codex 进程 ").as_slice(), decimal_u64(pid as u64).as_slice());
    let m = concat(m.as_slice(), chars_of(" 失败: ").as_slice());
    let m = concat(m.as_slice(), chars_of(summary).as_slice());
    Err(string_of(m.as_slice()))
}

/// The pieces of a command's summary: its exit code, then its trimmed
/// standard output and standard error where they are not empty.
pub open spec fn output_fragments(code: Option<i32>, stdout: Seq<char>, stderr: Seq<char>) -> Seq<Seq<char>> {
    let first = match code {
        Some(c) => "exit code "@ + signed_decimal(c as int),
        None => "exit code unavailable"@,
    };
    seq![first] + (if trim(stdout).len() > 0 {
        seq!["stdout: "@ + trim(stdout)]
    } else {
        Seq::<Seq<char>>::empty()
    }) + (if trim(stderr).len() > 0 {
        seq!["stderr: "@ + trim(stderr)]
    } else {
        Seq::<Seq<char>>::empty()
    })
}

/// A one-line account of how a command ended: its fragments joined by
/// ` | `.
pub fn command_output_summary(code: Option<i32>, stdout: &str, stderr: &str) -> (r: String)
    ensures
        r@ == join_with(output_fragments(code, stdout@, stderr@), " | "@),
{
    let mut frags: Vec<Vec<char>> = Vec::new();
    let first = match code {
        Some(c) => concat(chars_of("exit code ").as_slice(), decimal_i64(c as i64).as_slice()),
        None => chars_of("exit code unavailable"),
    };
    frags.push(first);
    let out = trim_chars(chars_of(stdout).as_slice());
    if out.len() > 0 {
        frags.push(concat(chars_of("stdout: ").as_slice(), out.as_slice()));
    }
    let err = trim_chars(chars_of(stderr).as_slice());
    if err.len() > 0 {
        frags.push(concat(chars_of("stderr: ").as_slice(), err.as_slice()));
    }
    assert(views(frags@) =~= output_fragments(code, stdout@, stderr@));
    let joined = join_chars(frags.as_slice(), chars_of(" | ").as_slice());
    string_of(joined.as_slice())
}

} // verus!
