use codexs::ssh::{
    add_ssh_server, dedupe_ssh_servers, default_ssh_servers_version, delete_ssh_server,
    expand_home_path, normalize_loaded_state, normalize_ssh_server, same_ssh_server,
    sort_ssh_servers, ssh_server_id_for, unique_ssh_server_id, AddServerOutcome, SshServer,
    SshServersState,
};
use codexs::ssh_config::parse_ssh_config_content;
use codexs::sync::{scp_arguments, scp_failure, scp_remote_target, switch_actions, sync_result_line};

fn server(id: &str, name: &str, host: &str, user: &str) -> SshServer {
    SshServer {
        id: id.to_string(),
        name: name.to_string(),
        host: host.to_string(),
        port: 22,
        username: user.to_string(),
        auth_method: "password".to_string(),
        key_path: None,
    }
}

#[test]
fn parsed_config_skips_patterns_and_keeps_names_distinct() {
    let config = "Host good !bad *.x q?z\n  User u\nHost GOOD\n  HostName h2\n";
    let servers = parse_ssh_config_content(config, None, "me");
    assert_eq!(servers.len(), 1);
    assert_eq!(servers[0].name, "GOOD");
    assert_eq!(servers[0].host, "h2");
    assert_eq!(servers[0].username, "me");
    assert_eq!(servers[0].id, "");
}

#[test]
fn match_block_closes_the_open_host_block() {
    let config = "Host a\nMatch all\n  User x\n  Port 99\n";
    let servers = parse_ssh_config_content(config, None, "me");
    assert_eq!(servers.len(), 1);
    assert_eq!(servers[0].name, "a");
    assert_eq!(servers[0].host, "a");
    assert_eq!(servers[0].username, "me");
    assert_eq!(servers[0].port, 22);
}

#[test]
fn settings_outside_a_host_block_are_ignored() {
    let config = "User x\nHostName nowhere\nHost a\n";
    let servers = parse_ssh_config_content(config, None, "me");
    assert_eq!(servers.len(), 1);
    assert_eq!(servers[0].username, "me");
    assert_eq!(servers[0].host, "a");
}

#[test]
fn quoted_values_comments_and_bad_ports() {
    let config = "Host a # the first\n  HostName \"example.com\"\n  Port abc\n  IdentityFile '~/k'\n";
    let servers = parse_ssh_config_content(config, Some("/home/u"), "me");
    assert_eq!(servers.len(), 1);
    assert_eq!(servers[0].host, "example.com");
    assert_eq!(servers[0].port, 22);
    assert_eq!(servers[0].auth_method, "key");
    assert_eq!(servers[0].key_path.as_deref(), Some("/home/u/k"));
}

#[test]
fn crlf_lines_and_keyword_case() {
    let config = "HOST a\r\n  port 2022\r\n  USER root\r\n";
    let servers = parse_ssh_config_content(config, None, "me");
    assert_eq!(servers.len(), 1);
    assert_eq!(servers[0].port, 2022);
    assert_eq!(servers[0].username, "root");
}

#[test]
fn parsed_servers_are_sorted_by_name() {
    let config = "Host zeta Alpha beta\n";
    let servers = parse_ssh_config_content(config, None, "me");
    let names: Vec<&str> = servers.iter().map(|s| s.name.as_str()).collect();
    assert_eq!(names, vec!["Alpha", "beta", "zeta"]);
}

#[test]
fn empty_config_has_no_servers() {
    assert!(parse_ssh_config_content("", None, "me").is_empty());
    assert!(parse_ssh_config_content("# only a comment\n\n", None, "me").is_empty());
}

#[test]
fn expand_home_path_resolves_only_a_leading_tilde() {
    assert_eq!(expand_home_path("~/.ssh/id", Some("/Users/t")), "/Users/t/.ssh/id");
    assert_eq!(expand_home_path("~/.ssh/id", None), "~/.ssh/id");
    assert_eq!(expand_home_path("/etc/key", Some("/Users/t")), "/etc/key");
    assert_eq!(expand_home_path("~user/key", Some("/Users/t")), "~user/key");
}

#[test]
fn normalize_rejects_each_missing_field() {
    let mut s = server("", " ", "h", "u");
    assert_eq!(normalize_ssh_server(s.clone(), None).unwrap_err(), "服务器名称不能为空");
    s.name = "n".to_string();
    s.host = "  ".to_string();
    assert_eq!(normalize_ssh_server(s.clone(), None).unwrap_err(), "服务器地址不能为空");
    s.host = "h".to_string();
    s.username = "".to_string();
    assert_eq!(normalize_ssh_server(s.clone(), None).unwrap_err(), "用户名不能为空");
    s.username = "u".to_string();
    s.auth_method = "token".to_string();
    assert_eq!(
        normalize_ssh_server(s.clone(), None).unwrap_err(),
        "认证方式必须是 key 或 password"
    );
    s.auth_method = "key".to_string();
    s.key_path = Some("   ".to_string());
    assert_eq!(normalize_ssh_server(s, None).unwrap_err(), "密钥认证需要提供密钥路径");
}

#[test]
fn normalize_trims_and_fills_defaults() {
    let s = SshServer {
        id: " id-1 ".to_string(),
        name: " web ".to_string(),
        host: " 10.0.0.1 ".to_string(),
        port: 0,
        username: " ubuntu ".to_string(),
        auth_method: " KEY ".to_string(),
        key_path: Some(" ~/.ssh/id ".to_string()),
    };
    let n = normalize_ssh_server(s, Some("/home/u")).unwrap();
    assert_eq!(n.id, "id-1");
    assert_eq!(n.name, "web");
    assert_eq!(n.host, "10.0.0.1");
    assert_eq!(n.port, 22);
    assert_eq!(n.username, "ubuntu");
    assert_eq!(n.auth_method, "key");
    assert_eq!(n.key_path.as_deref(), Some("/home/u/.ssh/id"));

    let mut p = server("", "db", "db.internal", "admin");
    p.port = 2200;
    p.key_path = Some("ignored".to_string());
    let n = normalize_ssh_server(p, None).unwrap();
    assert_eq!(n.port, 2200);
    assert_eq!(n.key_path, None);
}

#[test]
fn same_server_ignores_case_of_name_and_host_only() {
    let a = server("1", "Web", "Example.COM", "u");
    let b = server("2", "web", "example.com", "u");
    assert!(same_ssh_server(&a, &a));
    assert!(same_ssh_server(&a, &b));
    assert!(same_ssh_server(&b, &a));
    let mut c = b.clone();
    c.port = 23;
    assert!(!same_ssh_server(&a, &c));
    let mut d = b.clone();
    d.username = "U".to_string();
    assert!(!same_ssh_server(&a, &d));
}

#[test]
fn sort_orders_by_name_then_host_then_user() {
    let servers = vec![
        server("1", "beta", "h", "u"),
        server("2", "Alpha", "h2", "u"),
        server("3", "alpha", "h1", "z"),
        server("4", "alpha", "h1", "a"),
    ];
    let ids: Vec<String> = sort_ssh_servers(servers).into_iter().map(|s| s.id).collect();
    assert_eq!(ids, vec!["4", "3", "2", "1"]);
}

#[test]
fn dedupe_lets_the_later_server_take_the_earlier_place() {
    let servers = vec![
        server("1", "web", "a", "u"),
        server("2", "db", "b", "u"),
        server("3", "WEB", "c", "u"),
    ];
    let ids: Vec<String> = dedupe_ssh_servers(servers).into_iter().map(|s| s.id).collect();
    assert_eq!(ids, vec!["3", "2"]);
}

#[test]
fn unique_id_prefers_a_free_given_id() {
    let existing = vec![server("taken", "a", "h", "u")];
    assert_eq!(unique_ssh_server_id(&existing, Some(" mine ")), "mine");
    let fresh = unique_ssh_server_id(&existing, Some("taken"));
    assert!(fresh.starts_with("ssh-"));
    assert_ne!(fresh, "taken");
    assert!(unique_ssh_server_id(&existing, None).starts_with("ssh-"));
    assert!(unique_ssh_server_id(&[], Some("   ")).starts_with("ssh-"));
}

#[test]
fn added_server_is_found_again_with_its_id() {
    let mut state = SshServersState::new();
    let first = add_ssh_server(&mut state, server("web-1", "web", "10.0.0.1", "u"), None).unwrap();
    assert!(matches!(first, AddServerOutcome::Added(ref id) if id == "web-1"));
    assert_eq!(state.servers.len(), 1);
    let again = add_ssh_server(&mut state, server("", " WEB ", "10.0.0.1", "u"), None).unwrap();
    assert!(matches!(again, AddServerOutcome::Existing(ref id) if id == "web-1"));
    assert_eq!(state.servers.len(), 1);
}

#[test]
fn add_refuses_a_name_in_use_and_bad_input() {
    let mut state = SshServersState::new();
    add_ssh_server(&mut state, server("", "web", "10.0.0.1", "u"), None).unwrap();
    let err = add_ssh_server(&mut state, server("", "Web", "10.0.0.2", "u"), None).unwrap_err();
    assert_eq!(err, "服务器名称已存在: Web");
    let err = add_ssh_server(&mut state, server("", "", "10.0.0.2", "u"), None).unwrap_err();
    assert_eq!(err, "服务器名称不能为空");
    assert_eq!(state.servers.len(), 1);
}

#[test]
fn added_servers_keep_distinct_ids_in_order() {
    let mut state = SshServersState::new();
    add_ssh_server(&mut state, server("x", "zeta", "h1", "u"), None).unwrap();
    add_ssh_server(&mut state, server("x", "alpha", "h2", "u"), None).unwrap();
    assert_eq!(state.servers.len(), 2);
    assert_eq!(state.servers[0].name, "alpha");
    assert_eq!(state.servers[1].name, "zeta");
    assert_ne!(state.servers[0].id, state.servers[1].id);
    assert_eq!(state.servers[1].id, "x");
}

#[test]
fn delete_removes_the_server_with_the_trimmed_id() {
    let mut state = SshServersState::new();
    add_ssh_server(&mut state, server("a", "web", "h1", "u"), None).unwrap();
    add_ssh_server(&mut state, server("b", "db", "h2", "u"), None).unwrap();
    assert_eq!(delete_ssh_server(&mut state, " a "), Ok(()));
    assert_eq!(state.servers.len(), 1);
    assert_eq!(state.servers[0].id, "b");
    assert_eq!(delete_ssh_server(&mut state, "a"), Err("未找到服务器: a".to_string()));
    assert_eq!(state.servers.len(), 1);
}

#[test]
fn loaded_state_gets_a_version_and_order() {
    assert_eq!(default_ssh_servers_version(), 1);
    let state = SshServersState {
        version: 0,
        servers: vec![server("1", "b", "h", "u"), server("2", "a", "h", "u")],
        auto_sync_enabled: true,
    };
    let loaded = normalize_loaded_state(state);
    assert_eq!(loaded.version, 1);
    assert!(loaded.auto_sync_enabled);
    assert_eq!(loaded.servers[0].name, "a");
    let kept = normalize_loaded_state(SshServersState { version: 3, servers: vec![], auto_sync_enabled: false });
    assert_eq!(kept.version, 3);
    let fresh = SshServersState::new();
    assert_eq!(fresh.version, 1);
    assert!(fresh.servers.is_empty());
    assert!(!fresh.auto_sync_enabled);
}

#[test]
fn scp_command_lines() {
    let mut s = server("1", "web", "10.0.0.8", "ubuntu");
    s.port = 2222;
    assert_eq!(scp_remote_target(&s, "auth.json"), "ubuntu@10.0.0.8:.codex/auth.json");
    assert_eq!(
        scp_arguments(&s, "/tmp/auth.json", "auth.json"),
        vec!["-P", "2222", "/tmp/auth.json", "ubuntu@10.0.0.8:.codex/auth.json"]
    );
    s.key_path = Some("/k/id".to_string());
    assert_eq!(
        scp_arguments(&s, "/tmp/c.toml", "config.toml"),
        vec!["-P", "2222", "-i", "/k/id", "/tmp/c.toml", "ubuntu@10.0.0.8:.codex/config.toml"]
    );
    assert_eq!(scp_failure("auth.json", "  denied \n"), "auth.json: denied");
}

#[test]
fn sync_report_lines() {
    let ok: Result<(), String> = Ok(());
    let e1: Result<(), String> = Err("auth.json: x".to_string());
    let e2: Result<(), String> = Err("config.toml: y".to_string());
    assert_eq!(sync_result_line("web", &ok, &ok), "✓ web");
    assert_eq!(sync_result_line("web", &e1, &ok), "✗ web: auth.json: x");
    assert_eq!(sync_result_line("web", &ok, &e2), "✗ web: config.toml: y");
    assert_eq!(sync_result_line("web", &e1, &e2), "✗ web: auth.json: x | config.toml: y");
}

#[test]
fn clock_ids_are_hexadecimal() {
    assert_eq!(ssh_server_id_for(0), "ssh-0");
    assert_eq!(ssh_server_id_for(255), "ssh-ff");
    assert_eq!(ssh_server_id_for(0x1a2b3c), "ssh-1a2b3c");
    assert_eq!(ssh_server_id_for(u128::MAX), format!("ssh-{}", "f".repeat(32)));
    let id = unique_ssh_server_id(&[], None);
    let digits = id.strip_prefix("ssh-").unwrap();
    assert!(!digits.is_empty());
    assert!(digits.chars().all(|c| c.is_ascii_digit() || ('a'..='f').contains(&c)));
}

#[test]
fn joined_home_paths() {
    assert_eq!(expand_home_path("~/", Some("/h")), "/h/");
    assert_eq!(expand_home_path("~//abs/key", Some("/h")), "/abs/key");
    assert_eq!(expand_home_path("~/x", Some("/")), "/x");
    assert_eq!(expand_home_path("~/x", Some("/h/")), "/h/x");
}

#[test]
fn normalising_twice_changes_nothing() {
    let s = SshServer {
        id: " a ".to_string(),
        name: " web ".to_string(),
        host: " h ".to_string(),
        port: 0,
        username: " u ".to_string(),
        auth_method: " Key ".to_string(),
        key_path: Some(" ~/.ssh/id ".to_string()),
    };
    let once = normalize_ssh_server(s, Some("/Users/t")).unwrap();
    let twice = normalize_ssh_server(once.clone(), Some("/Users/t")).unwrap();
    assert_eq!(once, twice);
    assert_eq!(once.key_path.as_deref(), Some("/Users/t/.ssh/id"));
}

#[test]
fn comments_are_ignored() {
    let with = "Host a # first\n  HostName h#x\n  User u # me\n# Host b\n";
    let without = "Host a \n  HostName h\n  User u \n\n";
    assert_eq!(
        parse_ssh_config_content(with, None, "me"),
        parse_ssh_config_content(without, None, "me")
    );
    assert_eq!(parse_ssh_config_content(with, None, "me")[0].host, "h");
}

#[test]
fn what_a_switch_sets_off() {
    assert_eq!(switch_actions(true, 2, false), (true, false));
    assert_eq!(switch_actions(true, 0, true), (false, true));
    assert_eq!(switch_actions(false, 3, true), (false, true));
}
