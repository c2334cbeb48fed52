//! SSH servers: the record kept for each remote host, its normalisation,
//! ordering, de-duplication and identity.
use vstd::prelude::*;
use crate::order::{
    SortKey, lemma_stable_sorted_is_permutation, lemma_views_index, stable_sort, stable_sorted, views,
};
use crate::text::{
    chars_eq, chars_eq_ignore_case, chars_lt, chars_of, chars_of_string, chars_start_with, concat,
    eq_ignore_case, lemma_lex_lt_irreflexive, lemma_lex_lt_transitive, lemma_trim_ends,
    lemma_trim_idempotent, lemma_trim_lower, lemma_trim_of_solid,
    lex_lt, lower, owned, slice_of, starts_with, string_of, to_lower, trim, trim_chars,
};

verus! {

/// A remote host to which the Codex credentials can be copied.
#[derive(Debug, Clone, PartialEq, Eq)]
pub struct SshServer {
    pub id: String,
    pub name: String,
    pub host: String,
    pub port: u16,
    pub username: String,
    pub auth_method: String,
    pub key_path: Option<String>,
}

/// The abstract value of an [`SshServer`]: its fields as character sequences.
pub struct SshServerView {
    pub id: Seq<char>,
    pub name: Seq<char>,
    pub host: Seq<char>,
    pub port: u16,
    pub username: Seq<char>,
    pub auth_method: Seq<char>,
    pub key_path: Option<Seq<char>>,
}

/// The characters of an optional string.
pub open spec fn opt_chars(o: Option<String>) -> Option<Seq<char>> {
    match o {
        Some(s) => Some(s@),
        None => None,
    }
}

impl View for SshServer {
    type V = SshServerView;

    open spec fn view(&self) -> SshServerView {
        SshServerView {
            id: self.id@,
            name: self.name@,
            host: self.host@,
            port: self.port,
            username: self.username@,
            auth_method: self.auth_method@,
            key_path: opt_chars(self.key_path),
        }
    }
}

/// Servers are listed by name ignoring ASCII case, then by host, then by
/// user name.
impl SortKey for SshServer {
    open spec fn key_lt(a: SshServerView, b: SshServerView) -> bool {
        ||| lex_lt(lower(a.name), lower(b.name))
        ||| lower(a.name) == lower(b.name) && lex_lt(a.host, b.host)
        ||| lower(a.name) == lower(b.name) && a.host == b.host && lex_lt(a.username, b.username)
    }

    fn sorts_before(&self, other: &Self) -> (r: bool) {
        let a = to_lower(chars_of_string(&self.name).as_slice());
        let b = to_lower(chars_of_string(&other.name).as_slice());
        if chars_lt(a.as_slice(), b.as_slice()) {
            return true;
        }
        if !chars_eq(a.as_slice(), b.as_slice()) {
            return false;
        }
        let ha = chars_of_string(&self.host);
        let hb = chars_of_string(&other.host);
        if chars_lt(ha.as_slice(), hb.as_slice()) {
            return true;
        }
        if !chars_eq(ha.as_slice(), hb.as_slice()) {
            return false;
        }
        let ua = chars_of_string(&self.username);
        let ub = chars_of_string(&other.username);
        chars_lt(ua.as_slice(), ub.as_slice())
    }

    proof fn lemma_key_lt_irreflexive(a: SshServerView) {
        lemma_lex_lt_irreflexive(lower(a.name));
        lemma_lex_lt_irreflexive(a.host);
        lemma_lex_lt_irreflexive(a.username);
    }

    proof fn lemma_key_lt_transitive(a: SshServerView, b: SshServerView, c: SshServerView) {
        if lex_lt(lower(a.name), lower(b.name)) && lex_lt(lower(b.name), lower(c.name)) {
            lemma_lex_lt_transitive(lower(a.name), lower(b.name), lower(c.name));
        }
        if lower(a.name) == lower(b.name) && lower(b.name) == lower(c.name) {
            if lex_lt(a.host, b.host) && lex_lt(b.host, c.host) {
                lemma_lex_lt_transitive(a.host, b.host, c.host);
            }
            if a.host == b.host && b.host == c.host && lex_lt(a.username, b.username) && lex_lt(
                b.username,
                c.username,
            ) {
                lemma_lex_lt_transitive(a.username, b.username, c.username);
            }
        }
    }
}

/// Sorts servers by name ignoring ASCII case, then host, then user name,
/// keeping the given order among servers that agree on all three.
pub fn sort_ssh_servers(servers: Vec<SshServer>) -> (r: Vec<SshServer>)
    ensures
        views(r@) == stable_sorted::<SshServer>(views(servers@)),
        r@.to_multiset() == servers@.to_multiset(),
{
    stable_sort(servers)
}

/// Two servers denote the same remote account: names and hosts agree
/// ignoring ASCII case, and port, user name, authentication method and key
/// path agree exactly.
pub open spec fn same_server_spec(a: SshServerView, b: SshServerView) -> bool {
    &&& eq_ignore_case(a.name, b.name)
    &&& eq_ignore_case(a.host, b.host)
    &&& a.port == b.port
    &&& a.username == b.username
    &&& a.auth_method == b.auth_method
    &&& a.key_path == b.key_path
}

/// Whether two servers denote the same remote account.
pub fn same_ssh_server(left: &SshServer, right: &SshServer) -> (r: bool)
    ensures
        r == same_server_spec(left@, right@),
{
    let ln = chars_of_string(&left.name);
    let rn = chars_of_string(&right.name);
    if !chars_eq_ignore_case(ln.as_slice(), rn.as_slice()) {
        return false;
    }
    let lh = chars_of_string(&left.host);
    let rh = chars_of_string(&right.host);
    if !chars_eq_ignore_case(lh.as_slice(), rh.as_slice()) {
        return false;
    }
    if left.port != right.port {
        return false;
    }
    if !(left.username == right.username) {
        return false;
    }
    if !(left.auth_method == right.auth_method) {
        return false;
    }
    match (&left.key_path, &right.key_path) {
        (Some(a), Some(b)) => *a == *b,
        (None, None) => true,
        _ => false,
    }
}

/// `PathBuf::from(home).join(rest)` as a string, on Unix (where the
/// application runs): an absolute `rest` (one that starts with `/`) replaces
/// `home`; otherwise `rest` follows `home`, with a `/` between them unless
/// `home` is empty or already ends with one.
pub open spec fn path_joined(home: Seq<char>, rest: Seq<char>) -> Seq<char> {
    if rest.len() > 0 && rest[0] == '/' {
        rest
    } else if home.len() > 0 && home.last() != '/' {
        home + "/"@ + rest
    } else {
        home + rest
    }
}

/// Joins `rest` onto the directory `home` as `PathBuf::join` does on Unix:
/// an absolute `rest` stands alone, otherwise a `/` goes between the two
/// where `home` does not already end with one.
fn join_path(home: &str, rest: &str) -> (r: String)
    ensures
        r@ == path_joined(home@, rest@),
{
    let h = chars_of(home);
    let t = chars_of(rest);
    if t.len() > 0 && t[0] == '/' {
        string_of(t.as_slice())
    } else if h.len() > 0 && h[h.len() - 1] != '/' {
        let sep = chars_of("/");
        let hs = concat(h.as_slice(), sep.as_slice());
        let all = concat(hs.as_slice(), t.as_slice());
        string_of(all.as_slice())
    } else {
        let all = concat(h.as_slice(), t.as_slice());
        string_of(all.as_slice())
    }
}

/// A path with a leading `~/` resolved against the home directory, when
/// one is known.
pub open spec fn expand_home(path: Seq<char>, home: Option<Seq<char>>) -> Seq<char> {
    if starts_with(path, "~/"@) && home is Some {
        path_joined(home->0, path.skip(2))
    } else {
        path
    }
}

/// Resolves a leading `~/` of `path` against `home_dir`.
pub fn expand_home_path(path: &str, home_dir: Option<&str>) -> (r: String)
    ensures
        r@ == expand_home(path@, match home_dir {
            Some(h) => Some(h@),
            None => None,
        }),
{
    let p = chars_of(path);
    let prefix = chars_of("~/");
    proof {
        reveal_strlit("~/");
    }
    if chars_start_with(p.as_slice(), prefix.as_slice()) {
        if let Some(home) = home_dir {
            let rest = slice_of(p.as_slice(), 2, p.len());
            let rest_s = string_of(rest.as_slice());
            return join_path(home, rest_s.as_str());
        }
    }
    owned(path)
}

/// The normalised form of a server entered by hand, or the message that
/// rejects it.
pub open spec fn normalize_spec(v: SshServerView, home: Option<Seq<char>>) -> Result<SshServerView, Seq<char>> {
    let name = trim(v.name);
    let host = trim(v.host);
    let username = trim(v.username);
    let auth = lower(trim(v.auth_method));
    let key = trim(
        match v.key_path {
            Some(k) => k,
            None => Seq::empty(),
        },
    );
    if name.len() == 0 {
        Err("服务器名称不能为空"@)
    } else if host.len() == 0 {
        Err("服务器地址不能为空"@)
    } else if username.len() == 0 {
        Err("用户名不能为空"@)
    } else if auth != "key"@ && auth != "password"@ {
        Err("认证方式必须是 key 或 password"@)
    } else if auth == "key"@ && key.len() == 0 {
        Err("密钥认证需要提供密钥路径"@)
    } else {
        Ok(
            SshServerView {
                id: trim(v.id),
                name,
                host,
                port: if v.port == 0 {
                    22
                } else {
                    v.port
                },
                username,
                auth_method: auth,
                key_path: if auth == "key"@ {
                    Some(expand_home(key, home))
                } else {
                    None
                },
            },
        )
    }
}

/// The view of a result whose both sides have character views.
pub open spec fn server_result_view(r: Result<SshServer, String>) -> Result<SshServerView, Seq<char>> {
    match r {
        Ok(s) => Ok(s@),
        Err(e) => Err(e@),
    }
}

/// The trimmed characters of a string.
fn trimmed(s: &String) -> (r: Vec<char>)
    ensures
        r@ == trim(s@),
{
    let c = chars_of_string(s);
    trim_chars(c.as_slice())
}

/// Checks and tidies a server entered by hand: trims every field, folds the
/// authentication method to lower case, requires a name, host, user and a
/// method of `key` or `password` (with a key path for `key`), resolves a
/// leading `~/` of the key path, drops the key path for `password`, and
/// makes port 0 mean 22.
pub fn normalize_ssh_server(server: SshServer, home_dir: Option<&str>) -> (r: Result<SshServer, String>)
    ensures
        server_result_view(r) == normalize_spec(server@, match home_dir {
            Some(h) => Some(h@),
            None => None,
        }),
{
    let name = trimmed(&server.name);
    if name.len() == 0 {
        return Err(owned("服务器名称不能为空"));
    }
    let host = trimmed(&server.host);
    if host.len() == 0 {
        return Err(owned("服务器地址不能为空"));
    }
    let username = trimmed(&server.username);
    if username.len() == 0 {
        return Err(owned("用户名不能为空"));
    }
    let auth_t = trimmed(&server.auth_method);
    let auth = to_lower(auth_t.as_slice());
    let key_word = chars_of("key");
    let password_word = chars_of("password");
    let is_key = chars_eq(auth.as_slice(), key_word.as_slice());
    if !is_key && !chars_eq(auth.as_slice(), password_word.as_slice()) {
        return Err(owned("认证方式必须是 key 或 password"));
    }
    let key_path = if is_key {
        let raw = match &server.key_path {
            Some(k) => chars_of_string(k),
            None => Vec::new(),
        };
        assert(raw@ == match server@.key_path {
            Some(k) => k,
            None => Seq::<char>::empty(),
        });
        let key = trim_chars(raw.as_slice());
        if key.len() == 0 {
            return Err(owned("密钥认证需要提供密钥路径"));
        }
        let key_s = string_of(key.as_slice());
        Some(expand_home_path(key_s.as_str(), home_dir))
    } else {
        None
    };
    let id = trimmed(&server.id);
    Ok(
        SshServer {
            id: string_of(id.as_slice()),
            name: string_of(name.as_slice()),
            host: string_of(host.as_slice()),
            port: if server.port == 0 {
                22
            } else {
                server.port
            },
            username: string_of(username.as_slice()),
            auth_method: string_of(auth.as_slice()),
            key_path,
        },
    )
}


/// The first position in `d` of a server named `name` ignoring ASCII case,
/// or `d.len()` when there is none.
pub open spec fn find_name(d: Seq<SshServerView>, name: Seq<char>) -> int
    decreases d.len(),
{
    if d.len() == 0 {
        0
    } else if eq_ignore_case(d[0].name, name) {
        0
    } else {
        1 + find_name(d.drop_first(), name)
    }
}

/// Servers taken in order, each replacing the earlier one of the same name
/// (ignoring ASCII case) in that one's place, or else appended.
pub open spec fn deduped(s: Seq<SshServerView>) -> Seq<SshServerView>
    decreases s.len(),
{
    if s.len() == 0 {
        s
    } else {
        let d = deduped(s.drop_last());
        let i = find_name(d, s.last().name);
        if i < d.len() {
            d.update(i, s.last())
        } else {
            d.push(s.last())
        }
    }
}

proof fn lemma_find_name_facts(d: Seq<SshServerView>, name: Seq<char>)
    ensures
        0 <= find_name(d, name) <= d.len(),
        forall|k: int| 0 <= k < find_name(d, name) ==> !eq_ignore_case(#[trigger] d[k].name, name),
        find_name(d, name) < d.len() ==> eq_ignore_case(d[find_name(d, name)].name, name),
    decreases d.len(),
{
    if d.len() > 0 && !eq_ignore_case(d[0].name, name) {
        lemma_find_name_facts(d.drop_first(), name);
        assert forall|k: int| 0 <= k < find_name(d, name) implies !eq_ignore_case(
            #[trigger] d[k].name,
            name,
        ) by {
            if k > 0 {
                assert(d[k] == d.drop_first()[k - 1]);
            }
        }
    }
}

proof fn lemma_find_name_is(d: Seq<SshServerView>, name: Seq<char>, i: int)
    requires
        0 <= i <= d.len(),
        forall|k: int| 0 <= k < i ==> !eq_ignore_case(#[trigger] d[k].name, name),
        i < d.len() ==> eq_ignore_case(d[i].name, name),
    ensures
        find_name(d, name) == i,
    decreases i,
{
    if i > 0 {
        assert forall|k: int| 0 <= k < i - 1 implies !eq_ignore_case(
            #[trigger] d.drop_first()[k].name,
            name,
        ) by {
            assert(d.drop_first()[k] == d[k + 1]);
        }
        if i - 1 < d.drop_first().len() {
            assert(d.drop_first()[i - 1] == d[i]);
        }
        lemma_find_name_is(d.drop_first(), name, i - 1);
    }
}

/// Law: after de-duplication no two servers share a name ignoring ASCII
/// case.
pub proof fn lemma_deduped_names_distinct(s: Seq<SshServerView>)
    ensures
        forall|i: int, j: int|
            0 <= i < j < deduped(s).len() ==> !eq_ignore_case(
                #[trigger] deduped(s)[i].name,
                #[trigger] deduped(s)[j].name,
            ),
    decreases s.len(),
{
    if s.len() > 0 {
        lemma_deduped_names_distinct(s.drop_last());
        let d = deduped(s.drop_last());
        let x = s.last();
        lemma_find_name_facts(d, x.name);
        let i = find_name(d, x.name);
        let r = deduped(s);
        assert forall|a: int, b: int| 0 <= a < b < r.len() implies !eq_ignore_case(
            #[trigger] r[a].name,
            #[trigger] r[b].name,
        ) by {
            if i < d.len() {
                if a == i {
                    assert(eq_ignore_case(d[i].name, x.name));
                    assert(!eq_ignore_case(d[i].name, d[b].name));
                } else if b == i {
                    assert(!eq_ignore_case(d[a].name, d[i].name));
                } else {
                    assert(r[a] == d[a] && r[b] == d[b]);
                }
            } else {
                if b == d.len() {
                    assert(r[a] == d[a]);
                } else {
                    assert(r[a] == d[a] && r[b] == d[b]);
                }
            }
        }
    }
}

/// The position of the first server in `d` named `name` ignoring ASCII
/// case, or `d.len()`.
fn position_of_name(d: &Vec<SshServer>, name: &String) -> (r: usize)
    ensures
        r == find_name(views(d@), name@),
        r <= d@.len(),
{
    let target = chars_of_string(name);
    let ghost dv = views(d@);
    let mut j: usize = 0;
    while j < d.len()
        invariant
            dv == views(d@),
            j <= d@.len(),
            target@ == name@,
            forall|k: int| 0 <= k < j ==> !eq_ignore_case(#[trigger] dv[k].name, name@),
        decreases d@.len() - j,
    {
        let other = chars_of_string(&d[j].name);
        proof {
            lemma_views_index(d@, j as int);
        }
        if chars_eq_ignore_case(other.as_slice(), target.as_slice()) {
            proof {
                lemma_find_name_is(dv, name@, j as int);
            }
            return j;
        }
        j = j + 1;
    }
    proof {
        lemma_find_name_is(dv, name@, j as int);
    }
    j
}

/// Removes servers whose name repeats an earlier one ignoring ASCII case:
/// the later server takes the earlier one's place.
pub fn dedupe_ssh_servers(servers: Vec<SshServer>) -> (r: Vec<SshServer>)
    ensures
        views(r@) == deduped(views(servers@)),
{
    let mut rest = servers;
    let mut out: Vec<SshServer> = Vec::new();
    let ghost original = views(rest@);
    let ghost mut done: nat = 0;
    assert(original.take(0) =~= Seq::<SshServerView>::empty());
    assert(views(out@) =~= Seq::<SshServerView>::empty());
    while rest.len() > 0
        invariant
            done <= original.len(),
            views(rest@) == original.skip(done as int),
            views(out@) == deduped(original.take(done as int)),
        decreases rest@.len(),
    {
        let ghost before_rest = views(rest@);
        let ghost old_rest = rest@;
        let server = rest.remove(0);
        proof {
            lemma_views_index(old_rest, 0);
        }
        assert(server@ == original[done as int]);
        let ghost ov = views(out@);
        let j = position_of_name(&out, &server.name);
        let found = j < out.len();
        proof {
            let t = original.take(done + 1int);
            assert(t.drop_last() =~= original.take(done as int));
            assert(t.last() == server@);
        }
        if found {
            out.set(j, server);
            assert(views(out@) =~= ov.update(j as int, original[done as int]));
        } else {
            out.push(server);
            assert(views(out@) =~= ov.push(original[done as int]));
        }
        proof {
            done = done + 1;
        }
        assert(views(rest@) =~= original.skip(done as int)) by {
            assert(views(rest@) =~= before_rest.drop_first());
        }
    }
    assert(original.take(done as int) =~= original);
    out
}


/// The servers' ids.
pub open spec fn server_ids(s: Seq<SshServerView>) -> Seq<Seq<char>> {
    s.map_values(|v: SshServerView| v.id)
}

/// The lower-case hexadecimal digit with value `d` (below 16).
pub open spec fn hex_digit_char(d: nat) -> char {
    if d < 10 {
        (d + 48) as char
    } else {
        (d + 87) as char
    }
}

/// `n` in lower-case hexadecimal, as `format!("{n:x}")` writes it.
pub open spec fn lower_hex(n: nat) -> Seq<char>
    decreases n,
{
    if n < 16 {
        seq![hex_digit_char(n)]
    } else {
        lower_hex(n / 16).push(hex_digit_char(n % 16))
    }
}

/// The id made from a clock reading: `ssh-` and the reading in hex.
pub open spec fn clock_server_id(nanos: nat) -> Seq<char> {
    "ssh-"@ + lower_hex(nanos)
}

fn hex_digits(n: u128) -> (r: Vec<char>)
    ensures
        r@ == lower_hex(n as nat),
    decreases n,
{
    let d = n % 16;
    let c: char = if d < 10 {
        ((d as u8) + 48) as char
    } else {
        ((d as u8) + 87) as char
    };
    if n < 16 {
        let mut r: Vec<char> = Vec::new();
        r.push(c);
        assert(r@ =~= seq![hex_digit_char(n as nat)]);
        r
    } else {
        let mut r = hex_digits(n / 16);
        r.push(c);
        r
    }
}

/// The server id made from the clock reading `nanos`: `ssh-` followed by
/// the reading in lower-case hexadecimal.
pub fn ssh_server_id_for(nanos: u128) -> (r: String)
    ensures
        r@ == clock_server_id(nanos as nat),
{
    let head = chars_of("ssh-");
    string_of(concat(head.as_slice(), hex_digits(nanos).as_slice()).as_slice())
}

/// A new server id from the clock.
fn generate_ssh_server_id() -> (r: String)
    ensures
        exists|n: nat| r@ == clock_server_id(n),
{
    ssh_server_id_for(crate::clock::clock_nanos())
}

fn id_in_use(existing: &[SshServer], candidate: &Vec<char>) -> (r: bool)
    ensures
        r == server_ids(views(existing@)).contains(candidate@),
{
    let ghost ids = server_ids(views(existing@));
    let mut i: usize = 0;
    while i < existing.len()
        invariant
            ids == server_ids(views(existing@)),
            i <= existing@.len(),
            forall|k: int| 0 <= k < i ==> ids[k] != candidate@,
        decreases existing@.len() - i,
    {
        proof {
            lemma_views_index(existing@, i as int);
        }
        let id = chars_of_string(&existing[i].id);
        if chars_eq(id.as_slice(), candidate.as_slice()) {
            assert(ids[i as int] == candidate@);
            return true;
        }
        i = i + 1;
    }
    false
}

/// `k` characters `0`.
pub open spec fn zeros(k: nat) -> Seq<char> {
    Seq::new(k, |i: int| '0')
}

/// An id for a new server that no existing server has: `preferred`
/// (trimmed) when it is not blank and free, else one made from the clock:
/// `ssh-` and a clock reading in hexadecimal.
///
/// The clock is asked again while it gives a taken id. A loop here must be
/// bounded, so after `usize::MAX` taken ids in a row (which no clock gives)
/// the last one is lengthened with `0` until it is longer than every
/// existing id, which makes it free; an id is padded only then.
#[verifier::loop_isolation(false)]
pub fn unique_ssh_server_id(existing: &[SshServer], preferred: Option<&str>) -> (r: String)
    ensures
        !server_ids(views(existing@)).contains(r@),
        ({
            let p = trim(
                match preferred {
                    Some(x) => x@,
                    None => Seq::<char>::empty(),
                },
            );
            if p.len() > 0 && !server_ids(views(existing@)).contains(p) {
                r@ == p
            } else {
                exists|n: nat, k: nat|
                    r@ == clock_server_id(n) + zeros(k) && (k > 0
                        ==> server_ids(views(existing@)).contains(clock_server_id(n)))
            }
        }),
{
    let ghost ids = server_ids(views(existing@));
    let pref = match preferred {
        Some(x) => trim_chars(chars_of(x).as_slice()),
        None => Vec::new(),
    };
    if pref.len() > 0 && !id_in_use(existing, &pref) {
        return string_of(pref.as_slice());
    }
    let mut attempts: usize = 0;
    let mut candidate = chars_of_string(&generate_ssh_server_id());
    while attempts < usize::MAX
        invariant
            ids == server_ids(views(existing@)),
            exists|n: nat| candidate@ == clock_server_id(n),
        decreases usize::MAX - attempts,
    {
        if !id_in_use(existing, &candidate) {
            let r = string_of(candidate.as_slice());
            assert(r@ == clock_server_id(choose|n: nat| candidate@ == clock_server_id(n)) + zeros(0));
            return r;
        }
        candidate = chars_of_string(&generate_ssh_server_id());
        attempts = attempts + 1;
    }
    let ghost n0: nat = choose|n: nat| candidate@ == clock_server_id(n);
    assert(candidate@ == clock_server_id(n0) + zeros(0));
    if !id_in_use(existing, &candidate) {
        return string_of(candidate.as_slice());
    }
    let mut longest: usize = 0;
    let mut i: usize = 0;
    while i < existing.len()
        invariant
            ids == server_ids(views(existing@)),
            i <= existing@.len(),
            forall|k: int| 0 <= k < i ==> ids[k].len() <= longest,
        decreases existing@.len() - i,
    {
        proof {
            lemma_views_index(existing@, i as int);
        }
        let n = chars_of_string(&existing[i].id).len();
        if n > longest {
            longest = n;
        }
        i = i + 1;
    }
    let ghost mut k: nat = 0;
    while candidate.len() <= longest
        invariant
            forall|j: int| 0 <= j < ids.len() ==> ids[j].len() <= longest,
            candidate@ == clock_server_id(n0) + zeros(k),
        decreases longest + 1 - candidate@.len(),
    {
        candidate.push('0');
        proof {
            k = k + 1;
        }
        assert(candidate@ =~= clock_server_id(n0) + zeros(k));
    }
    assert forall|j: int| 0 <= j < ids.len() implies ids[j] != candidate@ by {
        assert(ids[j].len() <= longest);
    }
    string_of(candidate.as_slice())
}

/// What is kept about the SSH servers.
#[derive(Debug, Clone)]
pub struct SshServersState {
    pub version: u8,
    pub servers: Vec<SshServer>,
    pub auto_sync_enabled: bool,
}

/// The version of the servers file that this program writes.
pub fn default_ssh_servers_version() -> (r: u8)
    ensures
        r == 1,
{
    1
}

impl SshServersState {
    /// No servers, automatic sync off.
    pub fn new() -> (r: Self)
        ensures
            r.version == 1,
            r.servers@.len() == 0,
            !r.auto_sync_enabled,
    {
        SshServersState { version: default_ssh_servers_version(), servers: Vec::new(), auto_sync_enabled: false }
    }
}

impl Default for SshServersState {
    /// No servers, automatic sync off, the current version.
    fn default() -> (r: Self)
        ensures
            r.version == 1,
            r.servers@.len() == 0,
            !r.auto_sync_enabled,
    {
        SshServersState::new()
    }
}

/// Tidies a state read from disk: version 0 becomes the current version and
/// the servers are put in order.
pub fn normalize_loaded_state(state: SshServersState) -> (r: SshServersState)
    ensures
        r.version == (if state.version == 0 {
            1
        } else {
            state.version
        }),
        views(r.servers@) == stable_sorted::<SshServer>(views(state.servers@)),
        r.auto_sync_enabled == state.auto_sync_enabled,
{
    let version = if state.version == 0 {
        default_ssh_servers_version()
    } else {
        state.version
    };
    SshServersState { version, servers: sort_ssh_servers(state.servers), auto_sync_enabled: state.auto_sync_enabled }
}

/// How adding a server ended.
#[derive(Debug)]
pub enum AddServerOutcome {
    /// The same server is already there, with this id; nothing changed.
    Existing(String),
    /// The server was added under this id.
    Added(String),
}

/// The position of the first server that is the same as `v`, or the number
/// of servers.
pub open spec fn find_same(s: Seq<SshServerView>, v: SshServerView) -> int
    decreases s.len(),
{
    if s.len() == 0 {
        0
    } else if same_server_spec(s[0], v) {
        0
    } else {
        1 + find_same(s.drop_first(), v)
    }
}

proof fn lemma_find_same_is(s: Seq<SshServerView>, v: SshServerView, i: int)
    requires
        0 <= i <= s.len(),
        forall|k: int| 0 <= k < i ==> !same_server_spec(#[trigger] s[k], v),
        i < s.len() ==> same_server_spec(s[i], v),
    ensures
        find_same(s, v) == i,
    decreases i,
{
    if i > 0 {
        assert forall|k: int| 0 <= k < i - 1 implies !same_server_spec(#[trigger] s.drop_first()[k], v) by {
            assert(s.drop_first()[k] == s[k + 1]);
        }
        if i - 1 < s.drop_first().len() {
            assert(s.drop_first()[i - 1] == s[i]);
        }
        lemma_find_same_is(s.drop_first(), v, i - 1);
    }
}

/// Law: two servers whose names differ, even ignoring ASCII case, are never
/// the same server; so a server whose name no listed server has is never
/// answered as one already there, nor refused for its name, and adding it
/// adds it.
pub proof fn lemma_new_name_is_a_new_server(s: Seq<SshServerView>, a: SshServerView, b: SshServerView)
    ensures
        same_server_spec(a, b) ==> eq_ignore_case(a.name, b.name),
        (forall|k: int| 0 <= k < s.len() ==> !eq_ignore_case(#[trigger] s[k].name, b.name)) ==> find_same(
            s,
            b,
        ) == s.len(),
{
    if forall|k: int| 0 <= k < s.len() ==> !eq_ignore_case(#[trigger] s[k].name, b.name) {
        lemma_find_same_is(s, b, s.len() as int);
    }
}

/// Law: what identifies a server is everything but its id: two servers are
/// the same exactly when their names and hosts match ignoring ASCII case
/// and their ports, users, ways to log in and key files are equal; so a
/// server that differs from another in any of these is a new server, and
/// one that differs only in its id or in the case of its name or host is
/// the same.
pub proof fn lemma_server_identity(a: SshServerView, b: SshServerView)
    ensures
        same_server_spec(a, b) ==> eq_ignore_case(a.host, b.host) && a.port == b.port && a.username
            == b.username && a.auth_method == b.auth_method && a.key_path == b.key_path,
        eq_ignore_case(a.name, b.name) && eq_ignore_case(a.host, b.host) && a.port == b.port
            && a.username == b.username && a.auth_method == b.auth_method && a.key_path == b.key_path
            ==> same_server_spec(a, b),
        same_server_spec(a, b) ==> same_server_spec(SshServerView { id: b.id, ..a }, b),
{
}

/// Adds a server entered by hand. It is normalised first (its errors are
/// returned); the same server already there is answered with its id;
/// another server with the same name (ignoring ASCII case) is an error;
/// otherwise the server is added under a free id (its own trimmed id when
/// that is free) and the servers are put in order.
#[verifier::loop_isolation(false)]
pub fn add_ssh_server(state: &mut SshServersState, server: SshServer, home_dir: Option<&str>) -> (r: Result<AddServerOutcome, String>)
    ensures
        ({
            let home = match home_dir {
                Some(h) => Some(h@),
                None => None,
            };
            let old_s = views(old(state).servers@);
            match normalize_spec(server@, home) {
                Err(m) => r matches Err(e) && e@ == m && final(state).servers@ == old(state).servers@,
                Ok(n) => {
                    let p = find_same(old_s, n);
                    if p < old_s.len() {
                        &&& r matches Ok(AddServerOutcome::Existing(id)) && id@ == old_s[p].id
                        &&& final(state).servers@ == old(state).servers@
                    } else if exists|k: int| 0 <= k < old_s.len() && eq_ignore_case(#[trigger] old_s[k].name, n.name) {
                        &&& r matches Err(e) && e@ == "服务器名称已存在: "@ + n.name
                        &&& final(state).servers@ == old(state).servers@
                    } else {
                        &&& r matches Ok(AddServerOutcome::Added(id))
                        &&& !server_ids(old_s).contains(id@)
                        &&& (n.id.len() > 0 && !server_ids(old_s).contains(n.id) ==> id@ == n.id)
                        &&& views(final(state).servers@) == stable_sorted::<SshServer>(
                            old_s.push(SshServerView { id: id@, ..n }),
                        )
                    }
                },
            }
        }),
        final(state).version == old(state).version,
        final(state).auto_sync_enabled == old(state).auto_sync_enabled,
{
    let ghost old_s = views(state.servers@);
    let ghost given = server@;
    let normalized = match normalize_ssh_server(server, home_dir) {
        Ok(n) => n,
        Err(e) => return Err(e),
    };
    let mut i: usize = 0;
    while i < state.servers.len()
        invariant
            old_s == views(state.servers@),
            i <= state.servers@.len(),
            forall|k: int| 0 <= k < i ==> !same_server_spec(#[trigger] old_s[k], normalized@),
        decreases state.servers@.len() - i,
    {
        proof {
            lemma_views_index(state.servers@, i as int);
        }
        if same_ssh_server(&state.servers[i], &normalized) {
            proof {
                lemma_find_same_is(old_s, normalized@, i as int);
            }
            return Ok(AddServerOutcome::Existing(state.servers[i].id.clone()));
        }
        i = i + 1;
    }
    proof {
        lemma_find_same_is(old_s, normalized@, i as int);
    }
    let name = chars_of_string(&normalized.name);
    let mut j: usize = 0;
    while j < state.servers.len()
        invariant
            old_s == views(state.servers@),
            name@ == normalized@.name,
            j <= state.servers@.len(),
            forall|k: int| 0 <= k < j ==> !eq_ignore_case(#[trigger] old_s[k].name, normalized@.name),
        decreases state.servers@.len() - j,
    {
        proof {
            lemma_views_index(state.servers@, j as int);
        }
        let other = chars_of_string(&state.servers[j].name);
        if chars_eq_ignore_case(other.as_slice(), name.as_slice()) {
            let m = concat(chars_of("服务器名称已存在: ").as_slice(), name.as_slice());
            return Err(string_of(m.as_slice()));
        }
        j = j + 1;
    }
    let id = unique_ssh_server_id(state.servers.as_slice(), Some(normalized.id.as_str()));
    proof {
        lemma_trim_idempotent(given.id);
    }
    let ghost n = normalized@;
    let added = SshServer {
        id: id.clone(),
        name: normalized.name,
        host: normalized.host,
        port: normalized.port,
        username: normalized.username,
        auth_method: normalized.auth_method,
        key_path: normalized.key_path,
    };
    let mut servers: Vec<SshServer> = Vec::new();
    std::mem::swap(&mut servers, &mut state.servers);
    servers.push(added);
    assert(views(servers@) =~= old_s.push(SshServerView { id: id@, ..n }));
    state.servers = sort_ssh_servers(servers);
    Ok(AddServerOutcome::Added(id))
}

/// Removes the servers whose id is `id` trimmed; an error naming it when
/// there is none.
pub fn delete_ssh_server(state: &mut SshServersState, id: &str) -> (r: Result<(), String>)
    ensures
        views(final(state).servers@) == views(old(state).servers@).filter(
            |v: SshServerView| v.id != trim(id@),
        ),
        r is Ok <==> server_ids(views(old(state).servers@)).contains(trim(id@)),
        r matches Err(e) ==> e@ == "未找到服务器: "@ + trim(id@),
        final(state).version == old(state).version,
        final(state).auto_sync_enabled == old(state).auto_sync_enabled,
{
    let ghost sv = views(state.servers@);
    let target = trim_chars(chars_of(id).as_slice());
    let ghost pred = |v: SshServerView| v.id != target@;
    let mut kept: Vec<SshServer> = Vec::new();
    let mut rest: Vec<SshServer> = Vec::new();
    std::mem::swap(&mut rest, &mut state.servers);
    let ghost mut done: int = 0;
    let mut removed = false;
    assert(sv.take(0).filter(pred) =~= Seq::<SshServerView>::empty());
    assert(views(kept@) =~= Seq::<SshServerView>::empty());
    while rest.len() > 0
        invariant
            0 <= done <= sv.len(),
            views(rest@) == sv.skip(done),
            views(kept@) == sv.take(done).filter(pred),
            pred == (|v: SshServerView| v.id != target@),
            removed <==> exists|i: int| 0 <= i < done && (#[trigger] sv[i]).id == target@,
        decreases rest@.len(),
    {
        let ghost old_rest = rest@;
        let a = rest.remove(0);
        proof {
            lemma_views_index(old_rest, 0);
            assert(a@ == sv[done]);
            let t = sv.take(done + 1);
            assert(t.drop_last() =~= sv.take(done));
            assert(t.last() == a@);
            reveal_with_fuel(Seq::<_>::filter, 1);
        }
        let field = chars_of_string(&a.id);
        if chars_eq(field.as_slice(), target.as_slice()) {
            removed = true;
        } else {
            let ghost before = views(kept@);
            kept.push(a);
            assert(views(kept@) =~= before.push(sv[done]));
        }
        proof {
            done = done + 1;
        }
        assert(views(rest@) =~= sv.skip(done)) by {
            assert(views(rest@) =~= views(old_rest).drop_first());
        }
    }
    assert(sv.take(done) =~= sv);
    state.servers = kept;
    proof {
        if removed {
            let i = choose|i: int| 0 <= i < sv.len() && (#[trigger] sv[i]).id == target@;
            assert(server_ids(sv)[i] == target@);
        }
        if server_ids(sv).contains(target@) {
            let i = choose|i: int| 0 <= i < server_ids(sv).len() && server_ids(sv)[i] == target@;
            assert(sv[i].id == target@);
        }
    }
    if !removed {
        let m = concat(chars_of("未找到服务器: ").as_slice(), target.as_slice());
        return Err(string_of(m.as_slice()));
    }
    Ok(())
}


/// Law: being the same server is reflexive and symmetric.
pub proof fn lemma_same_server_reflexive_symmetric(a: SshServerView, b: SshServerView)
    ensures
        same_server_spec(a, a),
        same_server_spec(a, b) ==> same_server_spec(b, a),
{
}

proof fn lemma_expanded_key_is_stable(k: Seq<char>, home: Option<Seq<char>>)
    requires
        k.len() > 0,
        trim(k) == k,
        home matches Some(h) ==> h.len() > 0 && h[0] == '/',
    ensures
        ({
            let e = expand_home(k, home);
            &&& e.len() > 0
            &&& trim(e) == e
            &&& expand_home(e, home) == e
        }),
{
    reveal_strlit("~/");
    reveal_strlit("/");
    lemma_trim_ends(k);
    if starts_with(k, "~/"@) && home is Some {
        let h = home->0;
        let rest = k.skip(2);
        let e = path_joined(h, rest);
        if rest.len() > 0 && rest[0] == '/' {
            assert(rest.last() == k.last());
            assert(e[0] == '/');
            lemma_trim_of_solid(rest);
            assert(!starts_with(e, "~/"@)) by {
                if e.len() >= 2 {
                    assert(e.take(2)[0] == e[0]);
                    assert("~/"@[0] == '~');
                }
            }
        } else {
            if h.last() != '/' {
                assert(e == h + "/"@ + rest);
            } else {
                assert(e == h + rest);
            }
            assert(e[0] == '/');
            if rest.len() > 0 {
                assert(e.last() == rest.last());
                assert(rest.last() == k.last());
            } else {
                assert(e.last() == '/');
            }
            lemma_trim_of_solid(e);
            assert(!starts_with(e, "~/"@)) by {
                if e.len() >= 2 {
                    assert(e.take(2)[0] == e[0]);
                    assert("~/"@[0] == '~');
                }
            }
        }
    }
}

/// Law: normalising a server that was normalised already changes nothing,
/// when the home directory is unknown or an absolute path.
pub proof fn lemma_normalize_idempotent(v: SshServerView, home: Option<Seq<char>>)
    requires
        normalize_spec(v, home) is Ok,
        home matches Some(h) ==> h.len() > 0 && h[0] == '/',
    ensures
        normalize_spec(normalize_spec(v, home)->Ok_0, home) == normalize_spec(v, home),
{
    let n = normalize_spec(v, home)->Ok_0;
    lemma_trim_idempotent(v.name);
    lemma_trim_idempotent(v.host);
    lemma_trim_idempotent(v.username);
    lemma_trim_idempotent(v.id);
    lemma_trim_idempotent(v.auth_method);
    lemma_trim_lower(trim(v.auth_method));
    assert(trim(n.auth_method) == n.auth_method);
    assert(lower(trim(n.auth_method)) == n.auth_method);
    if n.auth_method == "key"@ {
        let key = trim(
            match v.key_path {
                Some(k) => k,
                None => Seq::empty(),
            },
        );
        lemma_trim_idempotent(
            match v.key_path {
                Some(k) => k,
                None => Seq::empty(),
            },
        );
        lemma_expanded_key_is_stable(key, home);
    }
}

/// No two servers share an id.
pub open spec fn ids_distinct(s: Seq<SshServerView>) -> bool {
    forall|i: int, j: int| 0 <= i < j < s.len() ==> (#[trigger] s[i]).id != (#[trigger] s[j]).id
}

/// No two servers share a name, ignoring ASCII case.
pub open spec fn names_distinct(s: Seq<SshServerView>) -> bool {
    forall|i: int, j: int|
        0 <= i < j < s.len() ==> !eq_ignore_case((#[trigger] s[i]).name, (#[trigger] s[j]).name)
}

proof fn lemma_find_same_facts(s: Seq<SshServerView>, v: SshServerView)
    ensures
        0 <= find_same(s, v) <= s.len(),
        forall|k: int| 0 <= k < find_same(s, v) ==> !same_server_spec(#[trigger] s[k], v),
        find_same(s, v) < s.len() ==> same_server_spec(s[find_same(s, v)], v),
    decreases s.len(),
{
    if s.len() > 0 && !same_server_spec(s[0], v) {
        lemma_find_same_facts(s.drop_first(), v);
        assert forall|k: int| 0 <= k < find_same(s, v) implies !same_server_spec(#[trigger] s[k], v) by {
            if k > 0 {
                assert(s[k] == s.drop_first()[k - 1]);
            }
        }
        if find_same(s, v) < s.len() {
            assert(s[find_same(s, v)] == s.drop_first()[find_same(s, v) - 1]);
        }
    }
}

proof fn lemma_sorted_element_from_input(s: Seq<SshServerView>, i: int)
    requires
        0 <= i < stable_sorted::<SshServer>(s).len(),
    ensures
        exists|a: int| 0 <= a < s.len() && s[a] == stable_sorted::<SshServer>(s)[i],
{
    broadcast use vstd::seq_lib::group_to_multiset_ensures;

    let r = stable_sorted::<SshServer>(s);
    lemma_stable_sorted_is_permutation::<SshServer>(s);
    assert(r.to_multiset().count(r[i]) > 0);
    assert(s.contains(r[i]));
}

/// Law: adding a server as [`add_ssh_server`] adds one (under an id no
/// server has, with a name no server has) keeps the ids distinct and the
/// names distinct ignoring ASCII case.
pub proof fn lemma_add_keeps_servers_distinct(s: Seq<SshServerView>, n: SshServerView, id: Seq<char>)
    requires
        ids_distinct(s),
        names_distinct(s),
        !server_ids(s).contains(id),
        forall|k: int| 0 <= k < s.len() ==> !eq_ignore_case(#[trigger] s[k].name, n.name),
    ensures
        ids_distinct(stable_sorted::<SshServer>(s.push(SshServerView { id, ..n }))),
        names_distinct(stable_sorted::<SshServer>(s.push(SshServerView { id, ..n }))),
{
    let e = SshServerView { id, ..n };
    let t = s.push(e);
    assert forall|i: int, j: int| 0 <= i < j < t.len() implies (#[trigger] t[i]).id != (
    #[trigger] t[j]).id && !eq_ignore_case(t[i].name, t[j].name) by {
        if j == s.len() {
            assert(server_ids(s)[i] == s[i].id);
            assert(t[i] == s[i]);
        } else {
            assert(t[i] == s[i] && t[j] == s[j]);
        }
    }
    assert(t.no_duplicates());
    lemma_stable_sorted_is_permutation::<SshServer>(t);
    t.lemma_multiset_has_no_duplicates();
    let r = stable_sorted::<SshServer>(t);
    r.lemma_multiset_has_no_duplicates_conv();
    assert forall|i: int, j: int| 0 <= i < j < r.len() implies (#[trigger] r[i]).id != (
    #[trigger] r[j]).id && !eq_ignore_case(r[i].name, r[j].name) by {
        lemma_sorted_element_from_input(t, i);
        lemma_sorted_element_from_input(t, j);
        let a = choose|a: int| 0 <= a < t.len() && t[a] == r[i];
        let b = choose|b: int| 0 <= b < t.len() && t[b] == r[j];
        assert(r[i] != r[j]);
        if a < b {
            assert(t[a].id != t[b].id && !eq_ignore_case(t[a].name, t[b].name));
        } else {
            assert(t[b].id != t[a].id && !eq_ignore_case(t[b].name, t[a].name));
        }
    }
}

/// Law: a server that was just added is found again: once it is there,
/// [`add_ssh_server`] answers the same server with the id it was added
/// under.
pub proof fn lemma_added_server_found_again(s: Seq<SshServerView>, n: SshServerView, id: Seq<char>)
    requires
        find_same(s, n) == s.len(),
    ensures
        ({
            let r = stable_sorted::<SshServer>(s.push(SshServerView { id, ..n }));
            &&& find_same(r, n) < r.len()
            &&& r[find_same(r, n)].id == id
        }),
{
    broadcast use vstd::seq_lib::group_to_multiset_ensures;

    let e = SshServerView { id, ..n };
    let t = s.push(e);
    let r = stable_sorted::<SshServer>(t);
    lemma_find_same_facts(s, n);
    lemma_find_same_facts(r, n);
    lemma_stable_sorted_is_permutation::<SshServer>(t);
    assert(t[s.len() as int] == e);
    assert(t.to_multiset().count(e) > 0);
    assert(r.contains(e));
    let q = choose|q: int| 0 <= q < r.len() && r[q] == e;
    assert(same_server_spec(r[q], n));
    let p = find_same(r, n);
    assert(p <= q);
    assert(p < r.len());
    lemma_sorted_element_from_input(t, p);
    let a = choose|a: int| 0 <= a < t.len() && t[a] == r[p];
    if a < s.len() {
        assert(t[a] == s[a]);
        assert(!same_server_spec(s[a], n));
    }
}

/// Law: every server that de-duplication keeps was given to it.
pub proof fn lemma_deduped_from_input(s: Seq<SshServerView>)
    ensures
        forall|i: int| 0 <= i < deduped(s).len() ==> s.contains(#[trigger] deduped(s)[i]),
    decreases s.len(),
{
    if s.len() > 0 {
        lemma_deduped_from_input(s.drop_last());
        let d = deduped(s.drop_last());
        let x = s.last();
        lemma_find_name_facts(d, x.name);
        let r = deduped(s);
        assert forall|i: int| 0 <= i < r.len() implies s.contains(#[trigger] r[i]) by {
            if r[i] == x {
                assert(s[s.len() - 1] == x);
            } else {
                assert(r[i] == d[i]);
                assert(s.drop_last().contains(d[i]));
                let j = choose|j: int| 0 <= j < s.drop_last().len() && s.drop_last()[j] == d[i];
                assert(s[j] == d[i]);
            }
        }
    }
}

} // verus!
