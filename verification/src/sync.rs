//! Copying the Codex credentials to SSH servers with `scp`: the command
//! lines and the report line of each server.
use vstd::prelude::*;
use crate::order::views;
use crate::ssh::SshServer;
use crate::text::{chars_of, chars_of_string, concat, decimal, decimal_u64, string_of, trim, trim_chars};

verus! {

/// Where `scp` puts `file` on the server: `user@host:.codex/<file>`.
pub open spec fn remote_target_spec(username: Seq<char>, host: Seq<char>, file: Seq<char>) -> Seq<char> {
    username + "@"@ + host + ":.codex/"@ + file
}

/// The `scp` destination of `file` in the server's `.codex` directory.
pub fn scp_remote_target(server: &SshServer, file: &str) -> (r: String)
    ensures
        r@ == remote_target_spec(server.username@, server.host@, file@),
{
    let m = concat(chars_of_string(&server.username).as_slice(), chars_of("@").as_slice());
    let m = concat(m.as_slice(), chars_of_string(&server.host).as_slice());
    let m = concat(m.as_slice(), chars_of(":.codex/").as_slice());
    let m = concat(m.as_slice(), chars_of(file).as_slice());
    string_of(m.as_slice())
}

/// The arguments of `scp` that copy `local_path` to `file` on the server:
/// the port, the key when there is one, the source and the destination.
pub open spec fn scp_arguments_spec(server: crate::ssh::SshServerView, local_path: Seq<char>, file: Seq<char>) -> Seq<Seq<char>> {
    seq!["-P"@, decimal(server.port as nat)] + (match server.key_path {
        Some(k) => seq!["-i"@, k],
        None => Seq::<Seq<char>>::empty(),
    }) + seq![local_path, remote_target_spec(server.username, server.host, file)]
}

/// The arguments of the `scp` command that copies `local_path` to `file` in
/// the server's `.codex` directory.
pub fn scp_arguments(server: &SshServer, local_path: &str, file: &str) -> (r: Vec<String>)
    ensures
        views(r@) == scp_arguments_spec(server@, local_path@, file@),
{
    let mut args: Vec<String> = Vec::new();
    args.push(crate::text::owned("-P"));
    args.push(string_of(decimal_u64(server.port as u64).as_slice()));
    match &server.key_path {
        Some(k) => {
            args.push(crate::text::owned("-i"));
            args.push(k.clone());
        },
        None => {},
    }
    args.push(crate::text::owned(local_path));
    args.push(scp_remote_target(server, file));
    assert(views(args@) =~= scp_arguments_spec(server@, local_path@, file@));
    args
}

/// The failure of copying one file: its name, then what `scp` wrote on
/// standard error, trimmed.
pub fn scp_failure(file_label: &str, stderr: &str) -> (r: String)
    ensures
        r@ == file_label@ + ": "@ + trim(stderr@),
{
    let m = concat(chars_of(file_label).as_slice(), chars_of(": ").as_slice());
    let t = trim_chars(chars_of(stderr).as_slice());
    string_of(concat(m.as_slice(), t.as_slice()).as_slice())
}

/// The report line of one server: `✓ name` when both copies succeeded, else
/// `✗ name: ` followed by the failures, joined by ` | `.
pub open spec fn sync_line_spec(name: Seq<char>, auth: Result<(), Seq<char>>, config: Result<(), Seq<char>>) -> Seq<char> {
    match (auth, config) {
        (Ok(()), Ok(())) => "✓ "@ + name,
        (Err(e1), Ok(())) => "✗ "@ + name + ": "@ + e1,
        (Ok(()), Err(e2)) => "✗ "@ + name + ": "@ + e2,
        (Err(e1), Err(e2)) => "✗ "@ + name + ": "@ + e1 + " | "@ + e2,
    }
}

pub open spec fn unit_view(r: Result<(), String>) -> Result<(), Seq<char>> {
    match r {
        Ok(()) => Ok(()),
        Err(e) => Err(e@),
    }
}

/// The report line of one server after copying the credentials and the
/// configuration.
pub fn sync_result_line(name: &str, auth: &Result<(), String>, config: &Result<(), String>) -> (r: String)
    ensures
        r@ == sync_line_spec(name@, unit_view(*auth), unit_view(*config)),
{
    let n = chars_of(name);
    match (auth, config) {
        (Ok(()), Ok(())) => string_of(concat(chars_of("✓ ").as_slice(), n.as_slice()).as_slice()),
        (Err(e1), Ok(())) => {
            let m = concat(chars_of("✗ ").as_slice(), n.as_slice());
            let m = concat(m.as_slice(), chars_of(": ").as_slice());
            string_of(concat(m.as_slice(), chars_of_string(e1).as_slice()).as_slice())
        },
        (Ok(()), Err(e2)) => {
            let m = concat(chars_of("✗ ").as_slice(), n.as_slice());
            let m = concat(m.as_slice(), chars_of(": ").as_slice());
            string_of(concat(m.as_slice(), chars_of_string(e2).as_slice()).as_slice())
        },
        (Err(e1), Err(e2)) => {
            let m = concat(chars_of("✗ ").as_slice(), n.as_slice());
            let m = concat(m.as_slice(), chars_of(": ").as_slice());
            let m = concat(m.as_slice(), chars_of_string(e1).as_slice());
            let m = concat(m.as_slice(), chars_of(" | ").as_slice());
            string_of(concat(m.as_slice(), chars_of_string(e2).as_slice()).as_slice())
        },
    }
}

/// What switching to another account sets off: copying the credentials to
/// the SSH servers, when automatic sync is on and there is a server; and
/// resuming the Codex sessions, when the switch asks for it.
pub fn switch_actions(auto_sync_enabled: bool, server_count: usize, auto_resume: bool) -> (r: (bool, bool))
    ensures
        r == (auto_sync_enabled && server_count > 0, auto_resume),
{
    (auto_sync_enabled && server_count > 0, auto_resume)
}

} // verus!
