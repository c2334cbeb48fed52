use codexs::resume::{
    command_output_summary, hint_shell_command, iterm_resume_script, resume_command, resume_hint,
    resume_tty, terminal_resume_script, terminate_outcome, vscode_probe, vscode_walk_step,
    VscodeProbe,
};
use codexs::sessions::{
    codex_processes_from_ps, extract_session_from_command, is_codex_executable,
    is_state_db_name, latest_state_db, looks_like_session_id, parse_native_codex_resume_process,
    process_cwd_from_lsof,
    sessions_in_cwd, sort_codex_sessions, CodexSession,
};

fn chars(s: &str) -> Vec<char> {
    s.chars().collect()
}

fn session(pid: u32, tty: &str, cwd: &str) -> CodexSession {
    CodexSession {
        pid,
        session_id: format!("id-{pid}"),
        tty: tty.to_string(),
        cwd: cwd.to_string(),
    }
}

#[test]
fn session_id_shape() {
    assert!(looks_like_session_id("019ccb6b-a99e-7293-8c80-a0613c5bc3ce"));
    assert!(looks_like_session_id("019CCB6B-A99E-7293-8C80-A0613C5BC3CE"));
    assert!(!looks_like_session_id("019ccb6b-a99e-7293-8c80-a0613c5bc3c"));
    assert!(!looks_like_session_id("019ccb6ba-99e-7293-8c80-a0613c5bc3ce"));
    assert!(!looks_like_session_id("019ccb6g-a99e-7293-8c80-a0613c5bc3ce"));
    assert!(!looks_like_session_id(""));
}

#[test]
fn session_id_only_after_resume_word() {
    let id = "019ccb6b-a99e-7293-8c80-a0613c5bc3ce";
    assert_eq!(extract_session_from_command(&format!("codex {id} resume")), None);
    assert_eq!(extract_session_from_command("codex resume"), None);
    assert_eq!(
        extract_session_from_command(&format!("codex resume --last   {id}  more")).as_deref(),
        Some(id)
    );
    let found = extract_session_from_command(&format!("codex resume x {id}")).unwrap();
    assert!(looks_like_session_id(&found));
}

#[test]
fn process_lines_that_are_not_sessions() {
    assert!(parse_native_codex_resume_process("123 ?? /usr/bin/codex resume").is_none());
    assert!(parse_native_codex_resume_process("abc ttys1 /usr/bin/codex").is_none());
    assert!(parse_native_codex_resume_process("123 ttys1").is_none());
    assert!(parse_native_codex_resume_process("").is_none());
    for sub in ["mcp-server", "app-server", "login", "logout", "version", "help"] {
        let line = format!("123 ttys1 /usr/bin/codex {sub}");
        assert!(parse_native_codex_resume_process(&line).is_none());
    }
    let bare = parse_native_codex_resume_process("  77   ttys9   codex  ").unwrap();
    assert_eq!(bare.pid, 77);
    assert_eq!(bare.tty, "ttys9");
    assert_eq!(bare.command, "codex");
}

#[test]
fn codex_executable_by_file_name() {
    assert!(is_codex_executable("/opt/homebrew/bin/codex"));
    assert!(is_codex_executable("codex"));
    assert!(!is_codex_executable("/usr/bin/codex-cli"));
    assert!(!is_codex_executable("node"));
}

#[test]
fn ps_listing_keeps_first_line_of_each_pid() {
    let out = "1 ttys1 /bin/zsh\n10 ttys2 codex resume a\n10 ttys3 codex\n11 ?? codex\n12 ttys4 /x/codex --model o3\n";
    let procs = codex_processes_from_ps(out);
    let got: Vec<(u32, &str)> = procs.iter().map(|p| (p.pid, p.tty.as_str())).collect();
    assert_eq!(got, vec![(10, "ttys2"), (12, "ttys4")]);
    assert_eq!(procs[1].command, "/x/codex --model o3");
}

#[test]
fn sessions_sorted_by_tty_then_pid() {
    let sorted = sort_codex_sessions(vec![
        session(5, "ttys2", "/a"),
        session(9, "ttys1", "/a"),
        session(3, "ttys2", "/b"),
    ]);
    let got: Vec<u32> = sorted.iter().map(|s| s.pid).collect();
    assert_eq!(got, vec![9, 3, 5]);
}

#[test]
fn sessions_filtered_by_working_directory() {
    let all = vec![session(1, "t1", "/a"), session(2, "t2", "/b"), session(3, "t3", "/a")];
    let in_a: Vec<u32> = sessions_in_cwd(all.clone(), Some("/a")).iter().map(|s| s.pid).collect();
    assert_eq!(in_a, vec![1, 3]);
    assert_eq!(sessions_in_cwd(all.clone(), None), all);
    assert!(sessions_in_cwd(all, Some("/c")).is_empty());
}

#[test]
fn working_directory_from_lsof() {
    assert_eq!(
        process_cwd_from_lsof(42, true, "p42\nfcwd\nn/Users/me/project\n"),
        Ok("/Users/me/project".to_string())
    );
    assert_eq!(
        process_cwd_from_lsof(42, true, "p42\nfcwd\n"),
        Err("无法获取进程 42 的工作目录".to_string())
    );
    assert_eq!(process_cwd_from_lsof(42, false, "n/x"), Err("lsof 命令执行失败".to_string()));
}

#[test]
fn resume_commands_and_scripts() {
    assert_eq!(resume_tty("ttys003"), "/dev/ttys003");
    assert_eq!(resume_tty("/dev/ttys003"), "/dev/ttys003");
    assert_eq!(resume_command("abc"), "codex resume abc");
    let tty = chars("/dev/ttys003");
    let cmd = chars("codex resume abc");
    let iterm = iterm_resume_script(&tty, &cmd);
    assert!(iterm.starts_with("tell application \"iTerm2\""));
    assert!(iterm.contains("set targetTty to \"/dev/ttys003\""));
    assert!(iterm.contains("set resumeCommand to \"codex resume abc\""));
    let terminal = terminal_resume_script(&tty, &cmd);
    assert!(terminal.starts_with("tell application \"Terminal\""));
    assert!(terminal.contains("/dev/ttys003"));
    let hint = resume_hint(&cmd);
    assert!(hint.contains("codex resume abc"));
    assert_eq!(
        hint_shell_command(&chars("hi"), &tty),
        "printf '%s' 'hi' > /dev/ttys003"
    );
}

#[test]
fn vscode_probe_walks_up_the_tree() {
    assert_eq!(
        vscode_probe("  412 /Applications/Visual Studio Code.app/Contents/MacOS/Electron", 500),
        VscodeProbe::Detected
    );
    assert_eq!(vscode_probe("412 /bin/zsh -l", 500), VscodeProbe::Parent(412));
    assert_eq!(vscode_probe("1 /sbin/launchd", 500), VscodeProbe::TopReached);
    assert_eq!(vscode_probe("500 /bin/zsh", 500), VscodeProbe::TopReached);
    assert_eq!(vscode_probe("", 500), VscodeProbe::TopReached);
    assert_eq!(vscode_probe("xyz /bin/zsh", 500), VscodeProbe::TopReached);
    assert_eq!(vscode_probe("7 /Applications/ELECTRON", 500), VscodeProbe::Detected);
    assert_eq!(vscode_walk_step(0, "412 /bin/zsh", 500), VscodeProbe::Parent(412));
    assert_eq!(vscode_walk_step(9, "412 /bin/zsh", 500), VscodeProbe::TopReached);
    assert_eq!(vscode_walk_step(9, "412 /Applications/Visual Studio Code.app/Contents/Frameworks/Code Helper (Plugin).app/Contents/MacOS/Code Helper (Plugin)", 500), VscodeProbe::Detected);
}

#[test]
fn terminate_outcomes() {
    assert_eq!(terminate_outcome(7, true, "", ""), Ok(()));
    assert_eq!(terminate_outcome(7, false, "kill: 7: No such process", "s"), Ok(()));
    assert_eq!(
        terminate_outcome(7, false, "Operation not permitted", "exit code 1"),
        Err("终止 Codex 进程 7 失败: exit code 1".to_string())
    );
}

#[test]
fn command_summaries() {
    assert_eq!(command_output_summary(Some(0), "", ""), "exit code 0");
    assert_eq!(
        command_output_summary(Some(-2), " out \n", "err"),
        "exit code -2 | stdout: out | stderr: err"
    );
    assert_eq!(command_output_summary(None, "", " e "), "exit code unavailable | stderr: e");
}

#[test]
fn state_database_names_and_the_latest() {
    assert!(is_state_db_name("state_5.sqlite"));
    assert!(is_state_db_name("state.sqlite"));
    assert!(!is_state_db_name("state_5.sqlite-wal"));
    assert!(!is_state_db_name("logs.sqlite"));
    let names = vec!["state_1.sqlite".to_string(), "state_3.sqlite".to_string(), "state_2.sqlite".to_string()];
    assert_eq!(latest_state_db(&[7, 9, 9], &names), Some(1));
    assert_eq!(latest_state_db(&[7, 9, 10], &names), Some(2));
    assert_eq!(latest_state_db(&[-1], &names[..1]), Some(0));
    assert_eq!(latest_state_db(&[], &[]), None);
}

#[test]
fn codex_in_a_terminal_tab_is_not_taken_for_an_editor() {
    let own = "51941 /opt/homebrew/lib/node_modules/@openai/codex/node_modules/@openai/codex-darwin-arm64/vendor/aarch64-apple-darwin/codex/codex resume 019ccb6b-a99e-7293-8c80-a0613c5bc3ce";
    assert_eq!(vscode_probe(own, 51943), VscodeProbe::Parent(51941));
    assert_eq!(vscode_probe("620 node /opt/homebrew/bin/codex resume", 51941), VscodeProbe::Parent(620));
    assert_eq!(vscode_probe("612 -zsh", 620), VscodeProbe::Parent(612));
    assert_eq!(vscode_probe("1 /Applications/iTerm.app/Contents/MacOS/iTerm2", 612), VscodeProbe::TopReached);
    assert_eq!(
        vscode_probe("1 /System/Applications/Utilities/Terminal.app/Contents/MacOS/Terminal", 612),
        VscodeProbe::TopReached
    );
    assert_eq!(vscode_probe("700 /usr/local/bin/vscode-helper", 612), VscodeProbe::Detected);
}

#[test]
fn file_names_of_executables() {
    assert!(is_codex_executable("/usr/local/bin/codex/"));
    assert!(is_codex_executable("./codex"));
    assert!(is_codex_executable("bin/codex/."));
    assert!(!is_codex_executable("codex/.."));
    assert!(!is_codex_executable("/"));
    assert!(!is_codex_executable("."));
    assert!(!is_codex_executable(""));
}
