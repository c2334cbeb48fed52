use codexs::accounts_store::{
    add_new_record, apply_usage_refresh, current_account, delete_account, find_account, list_accounts,
    upsert_account, AccountsStore, UsageUpdate,
};
use codexs::models::{ExtractedAuth, StoreSettings};
use codexs::usage::{
    should_retry_with_token_refresh, FetchedUsage, UsageAction, UsageEvent, UsagePhase,
    UsageResolver,
};
use serde_json::Value;

fn auth(account_id: &str, email: Option<&str>, plan: Option<&str>) -> ExtractedAuth {
    ExtractedAuth {
        account_id: account_id.to_string(),
        access_token: format!("token-{account_id}"),
        email: email.map(str::to_string),
        plan_type: plan.map(str::to_string),
    }
}

fn update(usage: Option<u32>, error: Option<&str>) -> UsageUpdate<u32> {
    UsageUpdate {
        auth_json: Value::String("creds".to_string()),
        email: None,
        plan_type: None,
        usage,
        usage_error: error.map(str::to_string),
    }
}

fn empty_store() -> AccountsStore<u32> {
    AccountsStore { accounts: Vec::new(), settings: StoreSettings {} }
}

#[test]
fn upsert_keeps_one_record_per_account() {
    let mut store = empty_store();
    let a = upsert_account(&mut store, &auth("acc-1", Some("a@x"), Some("plus")), update(Some(3), None), "  ", "Codex acc-1", 100, Some("acc-1")).unwrap();
    assert_eq!(store.accounts.len(), 1);
    assert_eq!(a.label, "Codex acc-1");
    assert_eq!(a.email.as_deref(), Some("a@x"));
    assert_eq!(a.plan_type.as_deref(), Some("plus"));
    assert_eq!((a.added_at, a.updated_at), (100, 100));
    assert_eq!(a.usage, Some(3));
    assert!(a.is_current);
    assert_eq!(a.id.len(), 36);
    assert_eq!(a.id.as_bytes()[14], b'4');
    assert!(matches!(a.id.as_bytes()[19], b'8' | b'9' | b'a' | b'b'));
    let id = a.id.clone();

    let b = upsert_account(&mut store, &auth("acc-1", None, None), update(None, Some("down")), " work ", "x", 200, None).unwrap();
    assert_eq!(store.accounts.len(), 1);
    assert_eq!(b.id, id);
    assert_eq!(b.label, "work");
    assert_eq!(b.email.as_deref(), Some("a@x"));
    assert_eq!(b.plan_type.as_deref(), Some("plus"));
    assert_eq!((b.added_at, b.updated_at), (100, 200));
    assert_eq!(b.usage, Some(3));
    assert_eq!(b.usage_error.as_deref(), Some("down"));
    assert!(!b.is_current);

    upsert_account(&mut store, &auth("acc-2", None, None), update(None, None), "", "other", 150, None).unwrap();
    assert_eq!(store.accounts.len(), 2);
    assert_ne!(store.accounts[0].id, store.accounts[1].id);
}

#[test]
fn listing_puts_the_current_account_first() {
    let mut store = empty_store();
    upsert_account(&mut store, &auth("a", None, None), update(None, None), "b-label", "", 10, None).unwrap();
    upsert_account(&mut store, &auth("b", None, None), update(None, None), "a-label", "", 10, None).unwrap();
    upsert_account(&mut store, &auth("c", None, None), update(None, None), "c-label", "", 30, None).unwrap();
    upsert_account(&mut store, &auth("d", None, None), update(None, None), "d-label", "", 5, None).unwrap();
    let listed = list_accounts(&store, Some("d"));
    let labels: Vec<&str> = listed.iter().map(|a| a.label.as_str()).collect();
    assert_eq!(labels, vec!["d-label", "c-label", "a-label", "b-label"]);
    assert!(listed[0].is_current);
    assert!(listed[1..].iter().all(|a| !a.is_current));
}

#[test]
fn lookups_by_id_and_account_id() {
    let mut store = empty_store();
    let a = upsert_account(&mut store, &auth("acc-9", Some("n@x"), None), update(None, None), "l", "", 1, None).unwrap();
    assert_eq!(find_account(&store, &a.id).map(|s| s.account_id.as_str()), Some("acc-9"));
    assert!(find_account(&store, "missing").is_none());
    let current = current_account(&store, "acc-9").unwrap();
    assert!(current.is_current);
    assert_eq!(current.email.as_deref(), Some("n@x"));
    assert!(current_account(&store, "acc-0").is_none());
}

#[test]
fn refresh_updates_usage_and_keeps_what_it_does_not_learn() {
    let mut store = empty_store();
    let a = upsert_account(&mut store, &auth("acc", Some("a@x"), Some("plus")), update(Some(1), None), "l", "", 1, None).unwrap();
    let mut up = update(Some(9), None);
    up.plan_type = Some("pro".to_string());
    let r = apply_usage_refresh(&mut store, &a.id, up, 50, Some("acc")).unwrap();
    assert_eq!(r.usage, Some(9));
    assert_eq!(r.plan_type.as_deref(), Some("pro"));
    assert_eq!(r.email.as_deref(), Some("a@x"));
    assert_eq!(r.updated_at, 50);
    assert!(r.is_current);
    let r = apply_usage_refresh(&mut store, &a.id, update(None, Some("timeout")), 60, None).unwrap();
    assert_eq!(r.usage, Some(9));
    assert_eq!(r.usage_error.as_deref(), Some("timeout"));
    assert_eq!(
        apply_usage_refresh(&mut store, "nope", update(None, None), 1, None).err(),
        Some("账号已被删除，无法刷新".to_string())
    );
}

#[test]
fn refresh_after_delete_is_refused() {
    let mut store = empty_store();
    let a = upsert_account(&mut store, &auth("acc", None, None), update(None, None), "l", "", 1, None).unwrap();
    upsert_account(&mut store, &auth("acc-2", None, None), update(None, None), "m", "", 1, None).unwrap();
    assert_eq!(delete_account(&mut store, &a.id), Ok(()));
    assert_eq!(store.accounts.len(), 1);
    assert!(apply_usage_refresh(&mut store, &a.id, update(None, None), 2, None).is_err());
    assert_eq!(delete_account(&mut store, &a.id), Err("未找到要删除的账号".to_string()));
    assert_eq!(store.accounts.len(), 1);
}

#[test]
fn retry_with_refreshed_credentials() {
    let no_plan: Result<FetchedUsage<u32>, String> = Ok(FetchedUsage { plan_type: None, usage: 1 });
    assert!(should_retry_with_token_refresh(&no_plan));
    let plan: Result<FetchedUsage<u32>, String> = Ok(FetchedUsage { plan_type: Some("plus".to_string()), usage: 1 });
    assert!(!should_retry_with_token_refresh(&plan));
    for msg in ["HTTP 401", "Unauthorized", "INVALID_TOKEN", "token Expired"] {
        let e: Result<FetchedUsage<u32>, String> = Err(msg.to_string());
        assert!(should_retry_with_token_refresh(&e), "{msg}");
    }
    let e: Result<FetchedUsage<u32>, String> = Err("timeout".to_string());
    assert!(!should_retry_with_token_refresh(&e));
}

fn done(action: Option<UsageAction<u32>>) -> UsageUpdate<u32> {
    match action {
        Some(UsageAction::Done(u)) => u,
        _ => panic!("the check should be over"),
    }
}

#[test]
fn usage_check_without_refresh() {
    let (mut r, first) = UsageResolver::<u32>::new(Value::Null, Some("fb@x".to_string()), None);
    assert!(matches!(first, UsageAction::Extract(Value::Null)));
    assert_eq!(r.phase(), UsagePhase::FirstAuth);
    let next = r.step(UsageEvent::Extracted(Ok(auth("acc", None, Some("plus")))));
    assert!(matches!(next, Some(UsageAction::Fetch { ref access_token, ref account_id }) if access_token == "token-acc" && account_id == "acc"));
    let u = done(r.step(UsageEvent::Fetched(Ok(FetchedUsage { plan_type: Some("pro".to_string()), usage: 7 }))));
    assert_eq!(u.email.as_deref(), Some("fb@x"));
    assert_eq!(u.plan_type.as_deref(), Some("pro"));
    assert_eq!(u.usage, Some(7));
    assert_eq!(u.usage_error, None);
    assert_eq!(r.phase(), UsagePhase::Done);
    assert!(r.step(UsageEvent::Fetched(Err("late".to_string()))).is_none());
}

#[test]
fn usage_check_with_failed_refresh() {
    let (mut r, _) = UsageResolver::<u32>::new(Value::Null, None, Some("free".to_string()));
    r.step(UsageEvent::Extracted(Ok(auth("acc", Some("a@x"), None))));
    assert!(r.step(UsageEvent::Refreshed(Err("early".to_string()))).is_none());
    assert_eq!(r.phase(), UsagePhase::FirstFetch);
    let next = r.step(UsageEvent::Fetched(Err("401".to_string())));
    assert!(matches!(next, Some(UsageAction::Refresh(Value::Null))));
    let u = done(r.step(UsageEvent::Refreshed(Err("boom".to_string()))));
    assert_eq!(u.usage, None);
    assert_eq!(u.usage_error.as_deref(), Some("401 | 令牌刷新失败: boom"));
    assert_eq!(u.email.as_deref(), Some("a@x"));
    assert_eq!(u.plan_type.as_deref(), Some("free"));
}

#[test]
fn usage_check_with_refreshed_credentials() {
    let (mut r, _) = UsageResolver::<u32>::new(Value::Null, None, None);
    r.step(UsageEvent::Extracted(Ok(auth("acc", Some("a@x"), Some("plus")))));
    r.step(UsageEvent::Fetched(Ok(FetchedUsage { plan_type: None, usage: 1 })));
    let fresh = Value::String("fresh".to_string());
    let next = r.step(UsageEvent::Refreshed(Ok(fresh.clone())));
    assert!(matches!(next, Some(UsageAction::Extract(ref v)) if *v == fresh));
    r.step(UsageEvent::Extracted(Ok(auth("acc", None, None))));
    assert_eq!(r.phase(), UsagePhase::SecondFetch);
    let u = done(r.step(UsageEvent::Fetched(Ok(FetchedUsage { plan_type: None, usage: 4 }))));
    assert_eq!(u.auth_json, fresh);
    assert_eq!(u.usage, Some(4));
    assert_eq!(u.email, None);
    assert_eq!(u.plan_type, None);
}

#[test]
fn usage_check_with_unreadable_credentials() {
    let (mut r, _) = UsageResolver::<u32>::new(Value::Null, Some("fb@x".to_string()), Some("free".to_string()));
    let u = done(r.step(UsageEvent::Extracted(Err("no tokens".to_string()))));
    assert_eq!(u.usage_error.as_deref(), Some("no tokens"));
    assert_eq!(u.email.as_deref(), Some("fb@x"));
    assert_eq!(u.plan_type.as_deref(), Some("free"));

    let (mut s, _) = UsageResolver::<u32>::new(Value::Null, Some("fb@x".to_string()), None);
    s.step(UsageEvent::Extracted(Ok(auth("acc", None, Some("plus")))));
    s.step(UsageEvent::Fetched(Err("expired".to_string())));
    s.step(UsageEvent::Refreshed(Ok(Value::Bool(true))));
    let u = done(s.step(UsageEvent::Extracted(Err("broken".to_string()))));
    assert_eq!(u.auth_json, Value::Bool(true));
    assert_eq!(u.usage_error.as_deref(), Some("broken"));
    assert_eq!(u.email.as_deref(), Some("fb@x"));
    assert_eq!(u.plan_type.as_deref(), Some("plus"));
}

#[test]
fn add_new_record_keeps_the_drawn_id() {
    let mut store = empty_store();
    let a = add_new_record(&mut store, &auth("acc-9", Some("n@x"), None), update(Some(7), None), "", "Codex acc-9", 42, "fixed-id".to_string(), Some("other"));
    assert_eq!(store.accounts.len(), 1);
    assert_eq!(store.accounts[0].id, "fixed-id");
    assert_eq!(a.id, "fixed-id");
    assert_eq!(a.label, "Codex acc-9");
    assert_eq!(a.email.as_deref(), Some("n@x"));
    assert_eq!((a.added_at, a.updated_at), (42, 42));
    assert_eq!(a.usage, Some(7));
    assert!(!a.is_current);
    let b = add_new_record(&mut store, &auth("acc-10", None, None), update(None, None), " mine ", "x", 43, "second".to_string(), Some("acc-10"));
    assert_eq!(store.accounts.len(), 2);
    assert_eq!(store.accounts[1].id, "second");
    assert_eq!(b.label, "mine");
    assert!(b.is_current);
}
