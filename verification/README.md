# codexs

The bookkeeping behind the Codexs desktop helper, which generates and
manages Codex accounts, resumes Codex CLI sessions and copies the Codex
credentials to SSH servers. The library is written in Verus: its functions carry
contracts (all but the methods of the generation's stop switch, a std atomic
flag that other threads change and whose value Verus does not see), and the
properties the application relies on are proved as lemmas.

## Layout

- `src/` — the verified library.
  - `text.rs`: the string operations the rest is stated in (trimming, case
    folding, splitting, parsing numbers), as specifications and verified code.
  - `order.rs`: a verified stable insertion sort over a key of each type.
  - `ssh.rs`, `ssh_config.rs`, `sync.rs`: SSH server records, their
    normalisation, ordering, de-duplication and ids; reading `~/.ssh/config`;
    the `scp` command lines and report lines.
  - `sessions.rs`, `resume.rs`: finding `codex` sessions in `ps` output, the
    session ids they resume, and the scripts and verdicts that resume them.
  - `accounts_state.rs`, `generation.rs`, `jwt.rs`: generated accounts, which
    of them are imported, batch generation, and the address in an `id_token`.
  - `accounts_store.rs`, `usage.rs`: managed accounts and the state machine of
    a usage check.
  - `models.rs`, `json.rs`, `control.rs`: shared records, the JSON value the
    records carry, and the stop switch of a generation.
  - `clock.rs`: the system clock read without failing, and the current time
    as RFC 3339 text.
- `tests/` — tests of the library on concrete values.
- `app/` — the Tauri application around the library: commands, files,
  processes and the serde forms of the records.
