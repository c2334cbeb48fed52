//! Reading `~/.ssh/config`: the `Host` blocks that name concrete hosts become
//! [`SshServer`] records.
use vstd::prelude::*;
use crate::order::{lemma_stable_sorted_from_input, lemma_views_index, stable_sorted, views};
use crate::ssh::{
    SshServer, SshServerView, dedupe_ssh_servers, deduped, expand_home, expand_home_path,
    lemma_deduped_from_input, lemma_deduped_names_distinct, sort_ssh_servers,
};
use crate::text::{
    before_char, before_first, chars_eq, chars_of, chars_of_string, contains_char,
    chars_start_with, eq_ignore_case, join_with, lemma_before_char_facts, lemma_split_on_join,
    find_char, lemma_find_char_facts, lemma_find_char_is, lemma_split_on_nonempty, lemma_trim_push_ws, lines,
    strip_cr, trim_start, lemma_split_on_pieces, is_ws, lemma_split_ws_words, lemma_trim_no_ws, lower, parse_u16, parse_u16_spec, slice_of, split_at_char, split_on,
    split_whitespace, split_ws, starts_with, string_of, to_lower, trim, trim_chars, trim_matches,
    trim_matches_char, word_len, word_length,
};

verus! {

/// The `Host` block being read: its aliases and the settings seen so far.
pub struct PendingView {
    pub aliases: Seq<Seq<char>>,
    pub host_name: Option<Seq<char>>,
    pub user: Option<Seq<char>>,
    pub port: Option<u16>,
    pub identity_file: Option<Seq<char>>,
}

/// No block is open.
pub open spec fn empty_pending() -> PendingView {
    PendingView { aliases: seq![], host_name: None, user: None, port: None, identity_file: None }
}

/// A configuration value without surrounding whitespace and quotes: trimmed,
/// then stripped of `"` at both ends, then of `'`.
pub open spec fn unquote(v: Seq<char>) -> Seq<char> {
    trim_matches(trim_matches(trim(v), '"'), '\'')
}

/// An alias that is a pattern (`*`, `?`) or a negation (`!`), not a host.
pub open spec fn is_pattern_alias(a: Seq<char>) -> bool {
    a.contains('*') || a.contains('?') || starts_with(a, "!"@)
}

/// The server that one concrete alias of a block stands for.
pub open spec fn host_server(alias: Seq<char>, p: PendingView, default_user: Seq<char>) -> SshServerView {
    SshServerView {
        id: seq![],
        name: alias,
        host: match p.host_name {
            Some(h) => h,
            None => alias,
        },
        port: match p.port {
            Some(x) => x,
            None => 22,
        },
        username: match p.user {
            Some(u) => u,
            None => default_user,
        },
        auth_method: if p.identity_file is Some {
            "key"@
        } else {
            "password"@
        },
        key_path: p.identity_file,
    }
}

/// The servers of a block's first `aliases.len()` aliases.
pub open spec fn alias_servers(aliases: Seq<Seq<char>>, p: PendingView, default_user: Seq<char>) -> Seq<SshServerView>
    decreases aliases.len(),
{
    if aliases.len() == 0 {
        seq![]
    } else {
        let rest = alias_servers(aliases.drop_last(), p, default_user);
        let a = aliases.last();
        if is_pattern_alias(a) || trim(a).len() == 0 {
            rest
        } else {
            rest.push(host_server(trim(a), p, default_user))
        }
    }
}

/// Closing a block adds the servers of its concrete aliases.
pub open spec fn flush(servers: Seq<SshServerView>, p: PendingView, default_user: Seq<char>) -> Seq<SshServerView> {
    servers + alias_servers(p.aliases, p, default_user)
}

/// The servers read so far and the block still open.
pub struct ParseState {
    pub servers: Seq<SshServerView>,
    pub pending: PendingView,
}

/// A significant line split into its lower-cased keyword (up to the first
/// whitespace character) and its trimmed value (after that character).
pub open spec fn keyword_of(l: Seq<char>) -> Seq<char> {
    lower(trim(l.take(word_len(l) as int)))
}

pub open spec fn value_of(l: Seq<char>) -> Seq<char> {
    if word_len(l) < l.len() {
        trim(l.skip(word_len(l) + 1int))
    } else {
        seq![]
    }
}

/// The effect of one line: text after `#` is a comment; `Host` opens a
/// block (closing the previous one) whose aliases are the words of its
/// value; `Match` closes the open block; inside a block `HostName`, `User`,
/// `Port` and `IdentityFile` set the block's settings, and every other line
/// is ignored.
pub open spec fn apply_line(st: ParseState, line: Seq<char>, home: Option<Seq<char>>, default_user: Seq<char>) -> ParseState {
    let l = trim(before_char(line, '#'));
    let k = keyword_of(l);
    let v = value_of(l);
    let p = st.pending;
    if l.len() == 0 {
        st
    } else if k == "host"@ {
        ParseState {
            servers: flush(st.servers, p, default_user),
            pending: PendingView { aliases: split_ws(v), ..empty_pending() },
        }
    } else if k == "match"@ {
        ParseState { servers: flush(st.servers, p, default_user), pending: empty_pending() }
    } else if p.aliases.len() == 0 {
        st
    } else if k == "hostname"@ {
        ParseState { pending: PendingView { host_name: Some(unquote(v)), ..p }, ..st }
    } else if k == "user"@ {
        ParseState { pending: PendingView { user: Some(unquote(v)), ..p }, ..st }
    } else if k == "port"@ {
        ParseState { pending: PendingView { port: parse_u16_spec(v), ..p }, ..st }
    } else if k == "identityfile"@ && unquote(v).len() > 0 {
        ParseState {
            pending: PendingView { identity_file: Some(expand_home(unquote(v), home)), ..p },
            ..st
        }
    } else {
        st
    }
}

/// The state after the given lines, starting with no servers and no block.
pub open spec fn apply_lines(lines: Seq<Seq<char>>, home: Option<Seq<char>>, default_user: Seq<char>) -> ParseState
    decreases lines.len(),
{
    if lines.len() == 0 {
        ParseState { servers: seq![], pending: empty_pending() }
    } else {
        apply_line(apply_lines(lines.drop_last(), home, default_user), lines.last(), home, default_user)
    }
}

/// The servers an SSH configuration describes: the concrete aliases of every
/// `Host` block, sorted as [`crate::ssh::sort_ssh_servers`] sorts, and with
/// later duplicates of a name replacing earlier ones.
///
/// Lines are taken between `\n` characters; a `\r` before the `\n` and an
/// empty last piece make no difference, since lines are trimmed and blank
/// ones skipped.
pub open spec fn parse_config_spec(content: Seq<char>, home: Option<Seq<char>>, default_user: Seq<char>) -> Seq<SshServerView> {
    let st = apply_lines(split_on(content, '\n'), home, default_user);
    deduped(stable_sorted::<SshServer>(flush(st.servers, st.pending, default_user)))
}

/// A name under which a server read from a configuration can stand: a
/// non-empty word, without whitespace, that is no pattern.
pub open spec fn concrete_host_name(n: Seq<char>) -> bool {
    &&& n.len() > 0
    &&& forall|k: int| 0 <= k < n.len() ==> !is_ws(#[trigger] n[k])
    &&& !is_pattern_alias(n)
}

spec fn all_concrete(s: Seq<SshServerView>) -> bool {
    forall|i: int| 0 <= i < s.len() ==> concrete_host_name(#[trigger] s[i].name)
}

spec fn words_without_ws(a: Seq<Seq<char>>) -> bool {
    forall|i: int, k: int| 0 <= i < a.len() && 0 <= k < a[i].len() ==> !is_ws(#[trigger] a[i][k])
}

proof fn lemma_alias_servers_concrete(aliases: Seq<Seq<char>>, p: PendingView, default_user: Seq<char>)
    requires
        words_without_ws(aliases),
    ensures
        all_concrete(alias_servers(aliases, p, default_user)),
    decreases aliases.len(),
{
    if aliases.len() > 0 {
        let front = aliases.drop_last();
        assert forall|i: int, k: int| 0 <= i < front.len() && 0 <= k < front[i].len() implies !is_ws(
            #[trigger] front[i][k],
        ) by {
            assert(front[i] == aliases[i]);
        }
        lemma_alias_servers_concrete(front, p, default_user);
        let a = aliases.last();
        assert forall|k: int| 0 <= k < a.len() implies !is_ws(a[k]) by {
            assert(a == aliases[aliases.len() - 1]);
        }
        lemma_trim_no_ws(a);
    }
}

proof fn lemma_flush_concrete(servers: Seq<SshServerView>, p: PendingView, default_user: Seq<char>)
    requires
        all_concrete(servers),
        words_without_ws(p.aliases),
    ensures
        all_concrete(flush(servers, p, default_user)),
{
    lemma_alias_servers_concrete(p.aliases, p, default_user);
    let extra = alias_servers(p.aliases, p, default_user);
    let r = flush(servers, p, default_user);
    assert forall|i: int| 0 <= i < r.len() implies concrete_host_name(#[trigger] r[i].name) by {
        if i < servers.len() {
            assert(r[i] == servers[i]);
        } else {
            assert(r[i] == extra[i - servers.len()]);
        }
    }
}

proof fn lemma_apply_lines_concrete(lines: Seq<Seq<char>>, home: Option<Seq<char>>, default_user: Seq<char>)
    ensures
        all_concrete(apply_lines(lines, home, default_user).servers),
        words_without_ws(apply_lines(lines, home, default_user).pending.aliases),
    decreases lines.len(),
{
    if lines.len() > 0 {
        lemma_apply_lines_concrete(lines.drop_last(), home, default_user);
        let st = apply_lines(lines.drop_last(), home, default_user);
        let l = trim(before_char(lines.last(), '#'));
        lemma_flush_concrete(st.servers, st.pending, default_user);
        lemma_split_ws_words(value_of(l));
        assert(words_without_ws(empty_pending().aliases));
    }
}

/// Law: every server read from an SSH configuration stands for a concrete
/// host (its name is a non-empty word with no `*` or `?` and no leading
/// `!`), and no two of them share a name, ignoring ASCII case.
pub proof fn lemma_parsed_servers_concrete_and_distinct(
    content: Seq<char>,
    home: Option<Seq<char>>,
    default_user: Seq<char>,
)
    ensures
        forall|i: int|
            0 <= i < parse_config_spec(content, home, default_user).len() ==> concrete_host_name(
                #[trigger] parse_config_spec(content, home, default_user)[i].name,
            ),
        forall|i: int, j: int|
            0 <= i < j < parse_config_spec(content, home, default_user).len() ==> !eq_ignore_case(
                #[trigger] parse_config_spec(content, home, default_user)[i].name,
                #[trigger] parse_config_spec(content, home, default_user)[j].name,
            ),
{
    let st = apply_lines(split_on(content, '\n'), home, default_user);
    lemma_apply_lines_concrete(split_on(content, '\n'), home, default_user);
    lemma_flush_concrete(st.servers, st.pending, default_user);
    let all = flush(st.servers, st.pending, default_user);
    let sorted = stable_sorted::<SshServer>(all);
    lemma_stable_sorted_from_input::<SshServer>(all);
    assert forall|i: int| 0 <= i < sorted.len() implies concrete_host_name(#[trigger] sorted[i].name) by {
        assert(all.contains(sorted[i]));
    }
    lemma_deduped_from_input(sorted);
    let r = deduped(sorted);
    assert forall|i: int| 0 <= i < r.len() implies concrete_host_name(#[trigger] r[i].name) by {
        assert(sorted.contains(r[i]));
    }
    lemma_deduped_names_distinct(sorted);
}

/// Each line cut before its first `#`.
pub open spec fn cut_comments(ls: Seq<Seq<char>>) -> Seq<Seq<char>> {
    ls.map_values(|l: Seq<char>| before_char(l, '#'))
}

/// The configuration with everything from the first `#` of each line on
/// removed, its lines joined by `\n` again.
pub open spec fn without_comments(content: Seq<char>) -> Seq<char> {
    join_with(cut_comments(split_on(content, '\n')), "\n"@)
}

proof fn lemma_apply_lines_cut(ls: Seq<Seq<char>>, home: Option<Seq<char>>, default_user: Seq<char>)
    ensures
        apply_lines(cut_comments(ls), home, default_user) == apply_lines(ls, home, default_user),
    decreases ls.len(),
{
    if ls.len() > 0 {
        let c = cut_comments(ls);
        assert(c.drop_last() =~= cut_comments(ls.drop_last()));
        lemma_apply_lines_cut(ls.drop_last(), home, default_user);
        lemma_before_char_facts(ls.last(), '#');
        assert(c.last() == before_char(ls.last(), '#'));
    }
}

/// Law: everything from the first `#` of a line on is a comment: removing
/// it from every line leaves the servers read unchanged.
pub proof fn lemma_comments_ignored(content: Seq<char>, home: Option<Seq<char>>, default_user: Seq<char>)
    ensures
        parse_config_spec(without_comments(content), home, default_user) == parse_config_spec(
            content,
            home,
            default_user,
        ),
{
    reveal_strlit("\n");
    assert("\n"@ == seq!['\n']);
    let ls = split_on(content, '\n');
    let c = cut_comments(ls);
    lemma_split_on_nonempty(content, '\n');
    lemma_split_on_pieces(content, '\n');
    assert forall|i: int, k: int| 0 <= i < c.len() && 0 <= k < c[i].len() implies #[trigger] c[i][k] != '\n' by {
        lemma_find_char_facts(ls[i], '#');
        assert(c[i] == before_char(ls[i], '#'));
        assert(c[i][k] == ls[i][k]);
    }
    lemma_split_on_join(c, '\n');
    lemma_apply_lines_cut(ls, home, default_user);
}

/// What a line leaves once its comment is cut and it is trimmed; the only
/// thing about a line that reading the configuration looks at.
pub open spec fn effective_line(l: Seq<char>) -> Seq<char> {
    trim(before_char(l, '#'))
}

proof fn lemma_apply_lines_effective(
    a: Seq<Seq<char>>,
    b: Seq<Seq<char>>,
    home: Option<Seq<char>>,
    default_user: Seq<char>,
)
    requires
        a.len() == b.len(),
        forall|i: int| 0 <= i < a.len() ==> effective_line(#[trigger] a[i]) == effective_line(b[i]),
    ensures
        apply_lines(a, home, default_user) == apply_lines(b, home, default_user),
    decreases a.len(),
{
    if a.len() > 0 {
        lemma_apply_lines_effective(a.drop_last(), b.drop_last(), home, default_user);
        assert(effective_line(a[a.len() - 1]) == effective_line(b[b.len() - 1]));
    }
}

/// A `\r` at the end of a line makes no difference to it.
proof fn lemma_effective_strip_cr(l: Seq<char>)
    ensures
        effective_line(strip_cr(l)) == effective_line(l),
{
    if l.len() > 0 && l.last() == '\r' {
        let x = l.drop_last();
        assert(l =~= x.push('\r'));
        lemma_find_char_facts(x, '#');
        let f = find_char(x, '#');
        if f < x.len() {
            assert forall|k: int| 0 <= k < f implies #[trigger] l[k] != '#' by {
                assert(l[k] == x[k]);
            }
            assert(l[f as int] == x[f as int]);
            lemma_find_char_is(l, '#', f as int);
            assert(l.take(f as int) =~= x.take(f as int));
        } else {
            assert forall|k: int| 0 <= k < l.len() implies #[trigger] l[k] != '#' by {
                if k < x.len() {
                    assert(l[k] == x[k]);
                }
            }
            lemma_find_char_is(l, '#', l.len() as int);
            assert(l.take(l.len() as int) =~= l);
            assert(x.take(x.len() as int) =~= x);
            lemma_trim_push_ws(x, '\r');
        }
    }
}

/// The configuration rebuilt from its lines, as `str::lines` gives them,
/// each cut before its first `#`, joined by `\n`.
pub open spec fn without_comment_lines(content: Seq<char>) -> Seq<char> {
    join_with(cut_comments(lines(content)), "\n"@)
}

/// Law: everything from the first `#` of a line on is a comment: rebuilding
/// the configuration from its lines with those parts removed (which also
/// drops a `\r` before each `\n` and an empty last line) leaves the servers
/// read unchanged.
pub proof fn lemma_comment_lines_ignored(content: Seq<char>, home: Option<Seq<char>>, default_user: Seq<char>)
    ensures
        parse_config_spec(without_comment_lines(content), home, default_user) == parse_config_spec(
            content,
            home,
            default_user,
        ),
{
    reveal_strlit("\n");
    assert("\n"@ == seq!['\n']);
    let p = split_on(content, '\n');
    lemma_split_on_nonempty(content, '\n');
    lemma_split_on_pieces(content, '\n');
    let k = p.len() - 1;
    let ls = lines(content);
    let c = cut_comments(ls);
    let c2 = without_comment_lines(content);
    let front = p.take(k);
    let mapped = front.map_values(|x: Seq<char>| strip_cr(x));
    // the stripped lines read as the pieces they come from
    assert forall|i: int| 0 <= i < mapped.len() implies effective_line(#[trigger] mapped[i])
        == effective_line(front[i]) by {
        lemma_effective_strip_cr(front[i]);
    }
    lemma_apply_lines_effective(mapped, front, home, default_user);
    // an empty last piece reads as nothing
    let e = Seq::<char>::empty();
    assert(effective_line(e) == e) by {
        lemma_find_char_facts(e, '#');
        assert(before_char(e, '#') =~= e);
        assert(trim_start(e) == e);
    }
    if p[k].len() == 0 {
        assert(ls =~= mapped);
        assert(p =~= front.push(p[k]));
        assert(p[k] =~= e);
    } else {
        assert(ls =~= mapped.push(p[k]));
        assert(p =~= front.push(p[k]));
        assert(ls.drop_last() =~= mapped);
        assert(p.drop_last() =~= front);
    }
    // so the lines read as the pieces of the content
    assert(apply_lines(ls, home, default_user) == apply_lines(p, home, default_user));
    lemma_apply_lines_cut(ls, home, default_user);
    if ls.len() == 0 {
        assert(c =~= Seq::<Seq<char>>::empty());
        assert(c2 =~= e);
        lemma_find_char_facts(e, '\n');
        assert(split_on(c2, '\n') =~= seq![e]);
        let one = seq![e];
        assert(one.drop_last() =~= Seq::<Seq<char>>::empty());
    } else {
        assert forall|i: int, j: int| 0 <= i < c.len() && 0 <= j < c[i].len() implies #[trigger] c[i][j]
            != '\n' by {
            lemma_find_char_facts(ls[i], '#');
            assert(c[i] == before_char(ls[i], '#'));
            assert(c[i][j] == ls[i][j]);
            if i < k {
                assert(ls[i] == strip_cr(front[i]));
                assert(front[i] == p[i]);
                assert(ls[i][j] == p[i][j]);
            } else {
                assert(ls[i] == p[k]);
                assert(ls[i][j] == p[k][j]);
            }
        }
        lemma_split_on_join(c, '\n');
    }
}

/// The `Host` block being read.
struct PendingSshHost {
    aliases: Vec<Vec<char>>,
    host_name: Option<Vec<char>>,
    user: Option<Vec<char>>,
    port: Option<u16>,
    identity_file: Option<Vec<char>>,
}

/// The characters of an optional character vector.
pub open spec fn opt_seq(o: Option<Vec<char>>) -> Option<Seq<char>> {
    match o {
        Some(v) => Some(v@),
        None => None,
    }
}

impl View for PendingSshHost {
    type V = PendingView;

    closed spec fn view(&self) -> PendingView {
        PendingView {
            aliases: views(self.aliases@),
            host_name: opt_seq(self.host_name),
            user: opt_seq(self.user),
            port: self.port,
            identity_file: opt_seq(self.identity_file),
        }
    }
}

impl PendingSshHost {
    fn empty() -> (r: Self)
        ensures
            r@ == empty_pending(),
    {
        let r = PendingSshHost {
            aliases: Vec::new(),
            host_name: None,
            user: None,
            port: None,
            identity_file: None,
        };
        assert(r@.aliases =~= Seq::<Seq<char>>::empty());
        r
    }
}

fn copy_opt(o: &Option<Vec<char>>) -> (r: Option<Vec<char>>)
    ensures
        opt_seq(r) == opt_seq(*o),
{
    match o {
        Some(v) => Some(slice_of(v.as_slice(), 0, v.len())),
        None => None,
    }
}

/// The server that the concrete alias `alias` of `pending` stands for.
fn server_for_alias(alias: &[char], pending: &PendingSshHost, default_username: &str) -> (r: SshServer)
    ensures
        r@ == host_server(alias@, pending@, default_username@),
{
    let host = match &pending.host_name {
        Some(h) => string_of(h.as_slice()),
        None => string_of(alias),
    };
    let username = match &pending.user {
        Some(u) => string_of(u.as_slice()),
        None => crate::text::owned(default_username),
    };
    let key_path = match &pending.identity_file {
        Some(k) => Some(string_of(k.as_slice())),
        None => None,
    };
    let auth_method = if pending.identity_file.is_some() {
        crate::text::owned("key")
    } else {
        crate::text::owned("password")
    };
    SshServer {
        id: String::new(),
        name: string_of(alias),
        host,
        port: match pending.port {
            Some(p) => p,
            None => 22,
        },
        username,
        auth_method,
        key_path,
    }
}

/// Closes the open block: appends a server for each of its concrete aliases
/// and leaves no block open.
fn push_pending_ssh_hosts(pending: &mut PendingSshHost, servers: &mut Vec<SshServer>, default_username: &str)
    ensures
        views(final(servers)@) == flush(views(old(servers)@), old(pending)@, default_username@),
        final(pending)@ == empty_pending(),
{
    let ghost p = pending@;
    let ghost start = views(servers@);
    let n = pending.aliases.len();
    let mut i: usize = 0;
    assert(p.aliases.take(0) =~= Seq::<Seq<char>>::empty());
    assert(start + alias_servers(p.aliases.take(0), p, default_username@) =~= start);
    while i < n
        invariant
            n == pending.aliases@.len(),
            p == pending@,
            i <= n,
            views(servers@) == start + alias_servers(p.aliases.take(i as int), p, default_username@),
        decreases n - i,
    {
        proof {
            lemma_views_index(pending.aliases@, i as int);
            let t = p.aliases.take(i + 1int);
            assert(t.drop_last() =~= p.aliases.take(i as int));
            assert(t.last() == pending.aliases@[i as int]@);
        }
        let alias = pending.aliases[i].as_slice();
        let star = contains_char(alias, '*');
        let question = contains_char(alias, '?');
        let bang = chars_of("!");
        let negated = chars_start_with(alias, bang.as_slice());
        if !(star || question || negated) {
            let trimmed = trim_chars(alias);
            if trimmed.len() > 0 {
                let server = server_for_alias(trimmed.as_slice(), pending, default_username);
                let ghost before = views(servers@);
                servers.push(server);
                assert(views(servers@) =~= before.push(server@));
            }
        }
        i = i + 1;
    }
    assert(p.aliases.take(n as int) =~= p.aliases);
    *pending = PendingSshHost::empty();
}

/// Whether the keyword is the given word.
fn is_word(k: &[char], w: &str) -> (r: bool)
    ensures
        r == (k@ == w@),
{
    let wc = chars_of(w);
    chars_eq(k, wc.as_slice())
}

/// `unquote` of a value.
fn unquote_ssh_value(v: &[char]) -> (r: Vec<char>)
    ensures
        r@ == unquote(v@),
{
    let t = trim_chars(v);
    let a = trim_matches_char(t.as_slice(), '"');
    trim_matches_char(a.as_slice(), '\'')
}

/// Applies one line of the configuration.
fn apply_config_line(
    line: &[char],
    pending: &mut PendingSshHost,
    servers: &mut Vec<SshServer>,
    home_dir: Option<&str>,
    default_username: &str,
)
    ensures
        ({
            let st = apply_line(
                ParseState { servers: views(old(servers)@), pending: old(pending)@ },
                line@,
                match home_dir {
                    Some(h) => Some(h@),
                    None => None,
                },
                default_username@,
            );
            &&& views(final(servers)@) == st.servers
            &&& final(pending)@ == st.pending
        }),
{
    let before = before_first(line, '#');
    let l = trim_chars(before.as_slice());
    if l.len() == 0 {
        return;
    }
    let w = word_length(l.as_slice());
    let first = slice_of(l.as_slice(), 0, w);
    let first_t = trim_chars(first.as_slice());
    let keyword = to_lower(first_t.as_slice());
    let value = if w < l.len() {
        let rest = slice_of(l.as_slice(), w + 1, l.len());
        trim_chars(rest.as_slice())
    } else {
        Vec::new()
    };
    assert(first@ =~= l@.take(w as int));
    if w < l.len() {
        assert(l@.skip(w + 1int) =~= l@.subrange(w + 1int, l@.len() as int));
    }
    assert(value@ == crate::ssh_config::value_of(l@));
    if is_word(keyword.as_slice(), "host") {
        push_pending_ssh_hosts(pending, servers, default_username);
        pending.aliases = split_whitespace(value.as_slice());
    } else if is_word(keyword.as_slice(), "match") {
        push_pending_ssh_hosts(pending, servers, default_username);
    } else if pending.aliases.len() == 0 {
    } else if is_word(keyword.as_slice(), "hostname") {
        pending.host_name = Some(unquote_ssh_value(value.as_slice()));
    } else if is_word(keyword.as_slice(), "user") {
        pending.user = Some(unquote_ssh_value(value.as_slice()));
    } else if is_word(keyword.as_slice(), "port") {
        pending.port = parse_u16(value.as_slice());
    } else if is_word(keyword.as_slice(), "identityfile") {
        let f = unquote_ssh_value(value.as_slice());
        if f.len() > 0 {
            let fs = string_of(f.as_slice());
            let expanded = expand_home_path(fs.as_str(), home_dir);
            pending.identity_file = Some(chars_of_string(&expanded));
        }
    }
}

/// Reads the servers described by an SSH configuration. `home_dir` resolves
/// a leading `~/` of `IdentityFile`; `default_username` stands for a block
/// without `User`.
pub fn parse_ssh_config_content(content: &str, home_dir: Option<&str>, default_username: &str) -> (r: Vec<SshServer>)
    ensures
        views(r@) == parse_config_spec(content@, match home_dir {
            Some(h) => Some(h@),
            None => None,
        }, default_username@),
{
    let ghost home = match home_dir {
        Some(h) => Some(h@),
        None => None,
    };
    let chars = chars_of(content);
    let lines = split_at_char(chars.as_slice(), '\n');
    let ghost lv = views(lines@);
    let mut servers: Vec<SshServer> = Vec::new();
    let mut current = PendingSshHost::empty();
    let mut i: usize = 0;
    assert(lv.take(0) =~= Seq::<Seq<char>>::empty());
    assert(views(servers@) =~= Seq::<SshServerView>::empty());
    while i < lines.len()
        invariant
            lv == views(lines@),
            lv == split_on(content@, '\n'),
            home == match home_dir {
                Some(h) => Some(h@),
                None => None,
            },
            i <= lines@.len(),
            ({
                let st = apply_lines(lv.take(i as int), home, default_username@);
                views(servers@) == st.servers && current@ == st.pending
            }),
        decreases lines@.len() - i,
    {
        let ghost t = lv.take(i + 1int);
        proof {
            lemma_views_index(lines@, i as int);
            assert(t.drop_last() =~= lv.take(i as int));
            assert(t.last() == lines@[i as int]@);
            let st = apply_lines(lv.take(i as int), home, default_username@);
            assert(ParseState { servers: views(servers@), pending: current@ } == st);
        }
        let line = lines[i].as_slice();
        assert(line@ == t.last());
        apply_config_line(line, &mut current, &mut servers, home_dir, default_username);
        assert(apply_lines(t, home, default_username@) == apply_line(
            apply_lines(t.drop_last(), home, default_username@),
            t.last(),
            home,
            default_username@,
        ));
        i = i + 1;
    }
    assert(lv.take(i as int) =~= lv);
    push_pending_ssh_hosts(&mut current, &mut servers, default_username);
    let sorted = sort_ssh_servers(servers);
    dedupe_ssh_servers(sorted)
}

} // verus!
