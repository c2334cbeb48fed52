use codexs::sessions::{extract_session_from_command, parse_native_codex_resume_process};
use codexs::ssh_config::parse_ssh_config_content;

#[test]
fn parses_basic_ssh_config_entries() {
    let config = r#"
            Host web-prod
              HostName 10.0.0.8
              User ubuntu
              Port 2222
              IdentityFile ~/.ssh/id_ed25519

            Host db-prod
              HostName db.internal
              User admin
        "#;

    let servers = parse_ssh_config_content(config, Some("/Users/tester"), "");
    assert_eq!(servers.len(), 2);

    let db = servers
        .iter()
        .find(|server| server.name == "db-prod")
        .unwrap();
    assert_eq!(db.host, "db.internal");
    assert_eq!(db.username, "admin");
    assert_eq!(db.port, 22);
    assert_eq!(db.auth_method, "password");
    assert_eq!(db.key_path, None);

    let web = servers
        .iter()
        .find(|server| server.name == "web-prod")
        .unwrap();
    assert_eq!(web.host, "10.0.0.8");
    assert_eq!(web.username, "ubuntu");
    assert_eq!(web.port, 2222);
    assert_eq!(web.auth_method, "key");
    assert!(web
        .key_path
        .as_deref()
        .unwrap_or_default()
        .ends_with(".ssh/id_ed25519"));
}

#[test]
fn skips_wildcards_and_expands_multi_host_entries() {
    let config = r#"
            Host *.internal
              User ignored

            Host api-stage api-canary
              HostName 172.16.0.20
              User deploy
              Port 2200
        "#;

    let servers = parse_ssh_config_content(config, Some("/Users/tester"), "");
    assert_eq!(servers.len(), 2);
    assert!(servers.iter().all(|server| server.name != "*.internal"));
    assert!(servers.iter().any(|server| server.name == "api-stage"));
    assert!(servers.iter().any(|server| server.name == "api-canary"));
    assert!(servers.iter().all(|server| server.host == "172.16.0.20"));
    assert!(servers.iter().all(|server| server.username == "deploy"));
    assert!(servers.iter().all(|server| server.port == 2200));
}

#[test]
fn extracts_session_id_from_resume_command() {
    let command = "/opt/homebrew/lib/node_modules/@openai/codex/node_modules/@openai/codex-darwin-arm64/vendor/aarch64-apple-darwin/codex/codex resume 019ccb6b-a99e-7293-8c80-a0613c5bc3ce";
    let session_id = extract_session_from_command(command);
    assert_eq!(
        session_id.as_deref(),
        Some("019ccb6b-a99e-7293-8c80-a0613c5bc3ce")
    );
}

#[test]
fn parses_native_codex_resume_process_line() {
    let line = "51943 ttys018 /opt/homebrew/lib/node_modules/@openai/codex/node_modules/@openai/codex-darwin-arm64/vendor/aarch64-apple-darwin/codex/codex resume";
    let process = parse_native_codex_resume_process(line).unwrap();
    assert_eq!(process.pid, 51943);
    assert_eq!(process.tty, "ttys018");
    assert_eq!(
        process.command,
        "/opt/homebrew/lib/node_modules/@openai/codex/node_modules/@openai/codex-darwin-arm64/vendor/aarch64-apple-darwin/codex/codex resume"
    );
}

#[test]
fn ignores_non_resume_codex_processes() {
    assert!(parse_native_codex_resume_process(
        "59385 ttys003 /opt/homebrew/lib/node_modules/@openai/codex/node_modules/@openai/codex-darwin-arm64/vendor/aarch64-apple-darwin/codex/codex mcp-server"
    )
    .is_none());
    assert!(parse_native_codex_resume_process(
        "51941 ttys018 node /opt/homebrew/bin/codex resume 019ccb6b-a99e-7293-8c80-a0613c5bc3ce"
    )
    .is_none());
}
