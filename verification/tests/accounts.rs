use codexs::accounts_state::{
    available_accounts, discovered_account, import_outcome, imported_from_summary, importable_emails,
    mark_accounts_imported, mark_accounts_imported_at, normalize_account_label, normalize_email,
    nothing_imported, sanitize_email_for_filename, summary_json_payload, track_generated_account,
    unique_emails, DiscoveredCodexAccount, TokenFileAccount,
};
use codexs::clock::{now_rfc3339, timestamp_of};
use codexs::control::GenerationControl;
use codexs::generation::{
    latest_position, new_file_positions_of, prepare_generated_token, AttemptOutcome, GenerationRun,
};
use codexs::jwt::extract_email_from_id_token;
use codexs::models::{AccountStateEntry, AccountsState, AppError, GeneratedAccount};

fn token(payload: &str) -> String {
    let encoded = base64::Engine::encode(
        &base64::engine::general_purpose::URL_SAFE_NO_PAD,
        payload.as_bytes(),
    );
    format!("eyJhbGciOiJub25lIn0.{encoded}.sig")
}

fn strings(items: &[&str]) -> Vec<String> {
    items.iter().map(|s| s.to_string()).collect()
}

fn discovered(email: &str, created_at: &str) -> DiscoveredCodexAccount {
    DiscoveredCodexAccount { email: email.to_string(), created_at: created_at.to_string() }
}

#[test]
fn email_normalisation() {
    assert_eq!(normalize_email("  User@Example.COM \n"), "user@example.com");
    let once = normalize_email(" Ab@C.d ");
    assert_eq!(normalize_email(&once), once);
    assert_eq!(sanitize_email_for_filename("a.b@c.d"), "a_b_c_d");
    assert_eq!(normalize_account_label("   ", "fallback"), "fallback");
    assert_eq!(normalize_account_label("  work ", "fallback"), "work");
}

#[test]
fn unique_emails_keeps_first_normalised_occurrences() {
    let got = unique_emails(strings(&[" A@x ", "a@x", "", "  ", "b@y", "B@Y"]));
    assert_eq!(got, strings(&["a@x", "b@y"]));
}

#[test]
fn tracked_address_reads_back_with_its_flag() {
    let mut state = AccountsState::new();
    assert!(!track_generated_account(&mut state, " B@x "));
    assert!(!track_generated_account(&mut state, "a@x"));
    assert_eq!(state.accounts.len(), 2);
    assert_eq!(state.accounts[0].email, "a@x");
    assert_eq!(state.accounts[1].email, "b@x");
    assert!(!state.accounts[1].imported);
    mark_accounts_imported_at(&mut state, &strings(&["B@X"]), "2024-01-01T00:00:00Z");
    assert!(track_generated_account(&mut state, "b@x"));
    assert_eq!(state.accounts.len(), 2);
    assert!(!track_generated_account(&mut state, "c@x"));
    assert_eq!(state.accounts.len(), 3);
    assert_eq!(state.accounts[2].email, "c@x");
    assert!(state.accounts[2].imported_at.is_none());
    let listed = available_accounts(&state, vec![discovered("b@x", "1"), discovered("a@x", "1")]);
    assert!(listed.iter().any(|a| a.email == "b@x" && a.imported));
    assert!(listed.iter().any(|a| a.email == "a@x" && !a.imported));
}

#[test]
fn tracking_normalises_a_stored_address() {
    let mut state = AccountsState {
        accounts: vec![AccountStateEntry { email: " C@X ".to_string(), imported: true, imported_at: None }],
    };
    assert!(track_generated_account(&mut state, "c@x"));
    assert_eq!(state.accounts.len(), 1);
    assert_eq!(state.accounts[0].email, "c@x");
}

#[test]
fn marked_addresses_read_as_imported() {
    let mut state = AccountsState::new();
    mark_accounts_imported_at(&mut state, &strings(&["z@x", " A@x "]), "2024");
    assert_eq!(state.accounts.len(), 2);
    assert_eq!(state.accounts[0].email, "a@x");
    assert_eq!(state.accounts[1].email, "z@x");
    assert!(state.accounts.iter().all(|e| e.imported && e.imported_at.as_deref() == Some("2024")));
    let listed = available_accounts(&state, vec![discovered("a@x", "2"), discovered("z@x", "3"), discovered("q@x", "3")]);
    let got: Vec<(&str, bool)> = listed.iter().map(|a| (a.email.as_str(), a.imported)).collect();
    assert_eq!(got, vec![("q@x", false), ("z@x", true), ("a@x", true)]);

    let mut now_state = AccountsState::new();
    mark_accounts_imported(&mut now_state, &strings(&["n@x"])).unwrap();
    assert!(now_state.accounts[0].imported);
    let at = now_state.accounts[0].imported_at.clone().unwrap();
    assert_eq!(at.len(), 20);
    assert!(at.ends_with('Z'));
    assert_eq!(at.as_bytes()[10], b'T');
}

#[test]
fn marking_updates_an_existing_entry() {
    let mut state = AccountsState {
        accounts: vec![
            AccountStateEntry { email: "b@x".to_string(), imported: false, imported_at: None },
            AccountStateEntry { email: "a@x".to_string(), imported: false, imported_at: None },
        ],
    };
    mark_accounts_imported_at(&mut state, &strings(&["B@x"]), "t1");
    assert_eq!(state.accounts.len(), 2);
    assert_eq!(state.accounts[0].email, "a@x");
    assert!(!state.accounts[0].imported);
    assert!(state.accounts[1].imported);
    assert_eq!(state.accounts[1].imported_at.as_deref(), Some("t1"));
}

#[test]
fn import_bookkeeping() {
    assert_eq!(
        importable_emails(&strings(&["a", "b", "c"]), &strings(&["c", "a"])),
        strings(&["a", "c"])
    );
    let none = nothing_imported(3);
    assert_eq!((none.requested, none.imported, none.skipped, none.failed), (3, 0, 3, 0));
    assert!(none.emails.is_empty());
    assert_eq!(
        imported_from_summary(strings(&["A@x"]), strings(&["a@x", "b@y"])),
        strings(&["a@x", "b@y"])
    );
    let ok = import_outcome(5, strings(&["a", "b"]), 1, true, "s").unwrap();
    assert_eq!((ok.requested, ok.imported, ok.skipped, ok.failed), (5, 2, 2, 1));
    assert_eq!(ok.emails, strings(&["a", "b"]));
    let err = import_outcome(1, vec![], 0, false, "exit code 1").unwrap_err();
    assert_eq!(err.to_message(), "导入脚本执行失败: exit code 1");
    let partial = import_outcome(1, strings(&["a", "b"]), 3, false, "").unwrap();
    assert_eq!(partial.skipped, 0);
}

#[test]
fn summary_payload_is_the_last_marked_line() {
    let out = "log\nSUMMARY_JSON:{\"a\":1}\nmore\r\nSUMMARY_JSON:{\"b\":2}\r\nend\n";
    assert_eq!(summary_json_payload(out).as_deref(), Some("{\"b\":2}"));
    assert_eq!(summary_json_payload("nothing here\n"), None);
    assert_eq!(summary_json_payload(" SUMMARY_JSON:{}"), None);
}

#[test]
fn email_from_id_token() {
    let t = token("{\"email\":\" User@Example.COM \",\"sub\":\"1\"}");
    assert_eq!(extract_email_from_id_token(&t).unwrap(), "user@example.com");
    assert_eq!(extract_email_from_id_token(&token("{\"sub\":\"1\"}")).unwrap(), "");
    assert_eq!(extract_email_from_id_token(&token("{\"email\":5}")).unwrap(), "");
}

#[test]
fn id_token_errors() {
    assert_eq!(extract_email_from_id_token("abc").unwrap_err().to_message(), "id_token 格式不合法");
    let bad = extract_email_from_id_token("a.!!!.c").unwrap_err().to_message();
    assert!(bad.starts_with("JWT payload 解码失败: "));
    let not_json = extract_email_from_id_token(&token("not json")).unwrap_err().to_message();
    assert!(not_json.starts_with("JSON error: "));
}

#[test]
fn prepared_tokens() {
    let t = token("{\"email\":\"From@Token.io\"}");
    let p = prepare_generated_token(" A@B.c ", &t, "2024-05-01T00:00:00Z", "/tmp/token_1.json").unwrap();
    assert_eq!(p.email, "a@b.c");
    assert_eq!(p.file_name, "a_b_c.json");
    assert_eq!(p.created_at, "2024-05-01T00:00:00Z");
    let q = prepare_generated_token("  ", &t, "  ", "/tmp/token_2.json").unwrap();
    assert_eq!(q.email, "from@token.io");
    assert_eq!(q.file_name, "from_token_io.json");
    assert_eq!(q.created_at.len(), 20);
    assert!(q.created_at.ends_with('Z'));
}

#[test]
fn prepared_token_errors() {
    let no_email = token("{\"sub\":\"1\"}");
    let e = prepare_generated_token("", &no_email, "", "/tmp/t.json").unwrap_err();
    assert_eq!(e.to_message(), "无法从 /tmp/t.json 解析邮箱");
    let e = prepare_generated_token("x@y", "  ", "", "/tmp/t.json").unwrap_err();
    assert_eq!(e.to_message(), "/tmp/t.json 缺少 id_token");
    let e = prepare_generated_token("", "garbage", "", "/tmp/t.json").unwrap_err();
    assert_eq!(e.to_message(), "id_token 格式不合法");
}

#[test]
fn new_token_files_and_the_newest() {
    let before = strings(&["token_1.json"]);
    let after = vec![
        Some("token_1.json".to_string()),
        None,
        Some("token_2.json".to_string()),
        Some("token_3.json".to_string()),
    ];
    assert_eq!(new_file_positions_of(&before, &after), vec![2, 3]);
    assert_eq!(new_file_positions_of(&before, &[]), Vec::<usize>::new());
    assert_eq!(latest_position(&[5, 9, 9, 1]), Some(2));
    assert_eq!(latest_position(&[-3]), Some(0));
    assert_eq!(latest_position(&[]), None);
}

fn generated(email: &str) -> GeneratedAccount {
    GeneratedAccount {
        email: email.to_string(),
        created_at: "2024".to_string(),
        token_path: "tokens/t.json".to_string(),
        codex_token_path: "codex_tokens/x.json".to_string(),
    }
}

#[test]
fn generation_run_counts_each_attempt_once() {
    let mut run = GenerationRun::new(3);
    assert_eq!(run.begin_attempt(false), Some(1));
    assert_eq!(run.begin_attempt(false), None);
    let ev = run
        .finish_attempt(AttemptOutcome::Converted { account: generated("a@x"), imported: true })
        .unwrap();
    assert_eq!((ev.current, ev.total, ev.email.as_str()), (1, 3, "a@x"));
    assert!(ev.account.as_ref().is_some_and(|a| a.email == "a@x" && a.imported));
    assert!(run.finish_attempt(AttemptOutcome::StopRequested).is_none());
    assert_eq!(run.begin_attempt(false), Some(2));
    let ev = run
        .finish_attempt(AttemptOutcome::NoTokenFile { output_summary: "exit code 1".to_string() })
        .unwrap();
    assert_eq!((ev.current, ev.email.as_str()), (2, ""));
    assert!(ev.account.is_none());
    assert_eq!(run.begin_attempt(false), Some(3));
    run.finish_attempt(AttemptOutcome::ConversionFailed { error: "bad".to_string() });
    assert_eq!(run.begin_attempt(false), None);
    let result = run.into_result();
    assert_eq!((result.requested, result.succeeded, result.failed), (3, 1, 2));
    assert!(!result.stopped);
    assert_eq!(result.accounts.len(), 1);
    assert_eq!(
        result.errors,
        strings(&["第 2 次生成失败: exit code 1", "第 3 次生成失败: bad"])
    );
}

#[test]
fn generation_run_stops_when_asked() {
    let mut run = GenerationRun::new(5);
    assert_eq!(run.begin_attempt(false), Some(1));
    assert!(run.finish_attempt(AttemptOutcome::StopRequested).is_none());
    assert_eq!(run.begin_attempt(false), None);
    let result = run.into_result();
    assert!(result.stopped);
    assert_eq!((result.succeeded, result.failed), (0, 0));

    let mut early = GenerationRun::new(2);
    assert_eq!(early.begin_attempt(true), None);
    assert!(early.into_result().stopped);

    let mut empty = GenerationRun::new(0);
    assert_eq!(empty.begin_attempt(false), None);
    assert!(!empty.into_result().stopped);
}

#[test]
fn app_error_message() {
    assert_eq!(AppError::new("boom".to_string()).to_message(), "boom");
}

#[test]
fn stop_switch_is_shared() {
    let control = GenerationControl::new();
    let other = control.clone();
    assert!(!control.should_stop());
    other.request_stop();
    assert!(control.should_stop());
    control.reset();
    assert!(!other.should_stop());
}

#[test]
fn discovered_accounts_from_token_files() {
    let t = token("{\"email\":\"Found@X.io\"}");
    match discovered_account(&t, "2024-02-02T00:00:00Z").unwrap() {
        TokenFileAccount::Dated(d) => {
            assert_eq!(d.email, "found@x.io");
            assert_eq!(d.created_at, "2024-02-02T00:00:00Z");
        }
        other => panic!("expected a dated account, got {other:?}"),
    }
    assert!(matches!(discovered_account(&t, "  ").unwrap(), TokenFileAccount::Undated(ref e) if e == "found@x.io"));
    assert!(matches!(discovered_account(&token("{}"), "x").unwrap(), TokenFileAccount::NoAddress));
    assert_eq!(
        discovered_account("nodots", "x").unwrap_err().to_message(),
        "id_token 格式不合法"
    );
}

#[test]
fn clock_readings_split_into_seconds() {
    assert_eq!(timestamp_of(Ok(1_500_000_000)), Some((1, 500_000_000)));
    assert_eq!(timestamp_of(Ok(0)), Some((0, 0)));
    assert_eq!(timestamp_of(Err(1_500_000_000)), Some((-2, 500_000_000)));
    assert_eq!(timestamp_of(Err(2_000_000_000)), Some((-2, 0)));
    assert_eq!(timestamp_of(Ok(u128::MAX)), None);
    let now = now_rfc3339().unwrap();
    assert_eq!(now.len(), 20);
    assert!(now.ends_with('Z'));
}
