//! The managed Codex accounts: their records, how a fresh login or a usage
//! refresh updates them, and how they are listed.
use vstd::prelude::*;
use crate::accounts_state::{account_label_spec, normalize_account_label};
use crate::models::{ExtractedAuth, ExtractedAuthView, StoreSettings};
use crate::order::{SortKey, lemma_views_index, stable_sort, stable_sorted, views};
use crate::ssh::{hex_digit_char, opt_chars};
use crate::text::{
    chars_eq, chars_lt, chars_of, chars_of_string, lemma_lex_lt_irreflexive,
    lemma_lex_lt_transitive, lex_lt, owned, trim,
};

verus! {

/// A managed account as the store keeps it. `U` is the usage snapshot.
pub struct StoredAccount<U> {
    pub id: String,
    pub label: String,
    pub email: Option<String>,
    pub account_id: String,
    pub plan_type: Option<String>,
    pub auth_json: serde_json::Value,
    pub added_at: i64,
    pub updated_at: i64,
    pub usage: Option<U>,
    pub usage_error: Option<String>,
}

pub struct StoredAccountView<U> {
    pub id: Seq<char>,
    pub label: Seq<char>,
    pub email: Option<Seq<char>>,
    pub account_id: Seq<char>,
    pub plan_type: Option<Seq<char>>,
    pub auth_json: serde_json::Value,
    pub added_at: i64,
    pub updated_at: i64,
    pub usage: Option<U>,
    pub usage_error: Option<Seq<char>>,
}

impl<U> View for StoredAccount<U> {
    type V = StoredAccountView<U>;

    open spec fn view(&self) -> StoredAccountView<U> {
        StoredAccountView {
            id: self.id@,
            label: self.label@,
            email: opt_chars(self.email),
            account_id: self.account_id@,
            plan_type: opt_chars(self.plan_type),
            auth_json: self.auth_json,
            added_at: self.added_at,
            updated_at: self.updated_at,
            usage: self.usage,
            usage_error: opt_chars(self.usage_error),
        }
    }
}

/// A managed account as the user sees it: its record and whether it is the
/// one Codex uses now.
pub struct Account<U> {
    pub id: String,
    pub label: String,
    pub email: Option<String>,
    pub account_id: String,
    pub plan_type: Option<String>,
    pub auth_json: serde_json::Value,
    pub added_at: i64,
    pub updated_at: i64,
    pub usage: Option<U>,
    pub usage_error: Option<String>,
    pub is_current: bool,
}

pub struct AccountView<U> {
    pub stored: StoredAccountView<U>,
    pub is_current: bool,
}

impl<U> View for Account<U> {
    type V = AccountView<U>;

    open spec fn view(&self) -> AccountView<U> {
        AccountView {
            stored: StoredAccountView {
                id: self.id@,
                label: self.label@,
                email: opt_chars(self.email),
                account_id: self.account_id@,
                plan_type: opt_chars(self.plan_type),
                auth_json: self.auth_json,
                added_at: self.added_at,
                updated_at: self.updated_at,
                usage: self.usage,
                usage_error: opt_chars(self.usage_error),
            },
            is_current: self.is_current,
        }
    }
}

/// The store of managed accounts.
pub struct AccountsStore<U> {
    pub accounts: Vec<StoredAccount<U>>,
    pub settings: StoreSettings,
}

/// What a usage check found out about an account: the credentials to keep
/// (possibly refreshed), the address and plan, and the usage or the error.
pub struct UsageUpdate<U> {
    pub auth_json: serde_json::Value,
    pub email: Option<String>,
    pub plan_type: Option<String>,
    pub usage: Option<U>,
    pub usage_error: Option<String>,
}

pub struct UsageUpdateView<U> {
    pub auth_json: serde_json::Value,
    pub email: Option<Seq<char>>,
    pub plan_type: Option<Seq<char>>,
    pub usage: Option<U>,
    pub usage_error: Option<Seq<char>>,
}

impl<U> View for UsageUpdate<U> {
    type V = UsageUpdateView<U>;

    open spec fn view(&self) -> UsageUpdateView<U> {
        UsageUpdateView {
            auth_json: self.auth_json,
            email: opt_chars(self.email),
            plan_type: opt_chars(self.plan_type),
            usage: self.usage,
            usage_error: opt_chars(self.usage_error),
        }
    }
}

/// `a.or(b)`.
pub open spec fn or_else<T>(a: Option<T>, b: Option<T>) -> Option<T> {
    if a is Some {
        a
    } else {
        b
    }
}

/// An optional string given as a string slice.
pub open spec fn opt_str(o: Option<&str>) -> Option<Seq<char>> {
    match o {
        Some(s) => Some(s@),
        None => None,
    }
}

/// The record as the user sees it: current when `current` is its Codex
/// account id.
pub open spec fn account_of<U>(s: StoredAccountView<U>, current: Option<Seq<char>>) -> AccountView<U> {
    AccountView { stored: s, is_current: current == Some(s.account_id) }
}

fn copy_string(s: &String) -> (r: String)
    ensures
        r@ == s@,
{
    s.clone()
}

fn copy_opt(o: &Option<String>) -> (r: Option<String>)
    ensures
        opt_chars(r) == opt_chars(*o),
{
    match o {
        Some(s) => Some(s.clone()),
        None => None,
    }
}

impl<U: Copy> StoredAccount<U> {
    /// The record as the user sees it, given the Codex account id in use.
    pub fn to_account(&self, current_account_id: Option<&str>) -> (r: Account<U>)
        ensures
            r@ == account_of(self@, opt_str(current_account_id)),
    {
        let is_current = match current_account_id {
            Some(id) => {
                let a = chars_of(id);
                let b = chars_of_string(&self.account_id);
                chars_eq(a.as_slice(), b.as_slice())
            },
            None => false,
        };
        Account {
            id: copy_string(&self.id),
            label: copy_string(&self.label),
            email: copy_opt(&self.email),
            account_id: copy_string(&self.account_id),
            plan_type: copy_opt(&self.plan_type),
            auth_json: self.auth_json.clone(),
            added_at: self.added_at,
            updated_at: self.updated_at,
            usage: self.usage,
            usage_error: copy_opt(&self.usage_error),
            is_current,
        }
    }
}

/// Accounts are listed with the current one first, then the most recently
/// updated, then by label.
impl<U> SortKey for Account<U> {
    open spec fn key_lt(a: AccountView<U>, b: AccountView<U>) -> bool {
        ||| a.is_current && !b.is_current
        ||| a.is_current == b.is_current && a.stored.updated_at > b.stored.updated_at
        ||| a.is_current == b.is_current && a.stored.updated_at == b.stored.updated_at && lex_lt(
            a.stored.label,
            b.stored.label,
        )
    }

    fn sorts_before(&self, other: &Self) -> (r: bool) {
        if self.is_current != other.is_current {
            return self.is_current;
        }
        if self.updated_at != other.updated_at {
            return self.updated_at > other.updated_at;
        }
        let a = chars_of_string(&self.label);
        let b = chars_of_string(&other.label);
        chars_lt(a.as_slice(), b.as_slice())
    }

    proof fn lemma_key_lt_irreflexive(a: AccountView<U>) {
        lemma_lex_lt_irreflexive(a.stored.label);
    }

    proof fn lemma_key_lt_transitive(a: AccountView<U>, b: AccountView<U>, c: AccountView<U>) {
        if a.is_current == b.is_current && b.is_current == c.is_current && a.stored.updated_at
            == b.stored.updated_at && b.stored.updated_at == c.stored.updated_at && lex_lt(
            a.stored.label,
            b.stored.label,
        ) && lex_lt(b.stored.label, c.stored.label) {
            lemma_lex_lt_transitive(a.stored.label, b.stored.label, c.stored.label);
        }
    }
}

/// The managed accounts as the user sees them: the current one first, then
/// the most recently updated, then by label.
pub fn list_accounts<U: Copy>(store: &AccountsStore<U>, current_account_id: Option<&str>) -> (r: Vec<Account<U>>)
    ensures
        views(r@) == stable_sorted::<Account<U>>(
            views(store.accounts@).map_values(
                |s: StoredAccountView<U>| account_of(s, opt_str(current_account_id)),
            ),
        ),
{
    let ghost sv = views(store.accounts@);
    let ghost cur = opt_str(current_account_id);
    let ghost f = |s: StoredAccountView<U>| account_of(s, cur);
    let mut out: Vec<Account<U>> = Vec::new();
    let mut i: usize = 0;
    while i < store.accounts.len()
        invariant
            sv == views(store.accounts@),
            cur == opt_str(current_account_id),
            f == (|s: StoredAccountView<U>| account_of(s, cur)),
            i <= store.accounts@.len(),
            views(out@) == sv.take(i as int).map_values(f),
        decreases store.accounts@.len() - i,
    {
        proof {
            lemma_views_index(store.accounts@, i as int);
        }
        let a = store.accounts[i].to_account(current_account_id);
        let ghost before = views(out@);
        out.push(a);
        assert(views(out@) =~= sv.take(i + 1int).map_values(f)) by {
            assert(views(out@) =~= before.push(a@));
            assert(sv.take(i + 1int) =~= sv.take(i as int).push(sv[i as int]));
        }
        i = i + 1;
    }
    assert(sv.take(i as int) =~= sv);
    assert(sv.map_values(f) =~= views(store.accounts@).map_values(
        |s: StoredAccountView<U>| account_of(s, opt_str(current_account_id)),
    ));
    stable_sort(out)
}

/// The position of the first record whose `id` (when `by_id`) or Codex
/// account id (otherwise) is `key`, or the number of records.
pub open spec fn position_of<U>(s: Seq<StoredAccountView<U>>, key: Seq<char>, by_id: bool) -> int
    decreases s.len(),
{
    if s.len() == 0 {
        0
    } else if (if by_id {
        s[0].id
    } else {
        s[0].account_id
    }) == key {
        0
    } else {
        1 + position_of(s.drop_first(), key, by_id)
    }
}

proof fn lemma_position_of_is<U>(s: Seq<StoredAccountView<U>>, key: Seq<char>, by_id: bool, i: int)
    requires
        0 <= i <= s.len(),
        forall|k: int|
            0 <= k < i ==> (if by_id {
                (#[trigger] s[k]).id
            } else {
                s[k].account_id
            }) != key,
        i < s.len() ==> (if by_id {
            s[i].id
        } else {
            s[i].account_id
        }) == key,
    ensures
        position_of(s, key, by_id) == i,
    decreases i,
{
    if i > 0 {
        assert forall|k: int| 0 <= k < i - 1 implies (if by_id {
            (#[trigger] s.drop_first()[k]).id
        } else {
            s.drop_first()[k].account_id
        }) != key by {
            assert(s.drop_first()[k] == s[k + 1]);
        }
        if i - 1 < s.drop_first().len() {
            assert(s.drop_first()[i - 1] == s[i]);
        }
        lemma_position_of_is(s.drop_first(), key, by_id, i - 1);
    }
}

/// The position of the first record with the given id (`by_id`) or Codex
/// account id.
fn find_position<U>(accounts: &Vec<StoredAccount<U>>, key: &str, by_id: bool) -> (r: usize)
    ensures
        r == position_of(views(accounts@), key@, by_id),
        r <= accounts@.len(),
{
    let ghost sv = views(accounts@);
    let k = chars_of(key);
    let mut i: usize = 0;
    while i < accounts.len()
        invariant
            sv == views(accounts@),
            k@ == key@,
            i <= accounts@.len(),
            forall|m: int|
                0 <= m < i ==> (if by_id {
                    (#[trigger] sv[m]).id
                } else {
                    sv[m].account_id
                }) != key@,
        decreases accounts@.len() - i,
    {
        proof {
            lemma_views_index(accounts@, i as int);
        }
        let field = if by_id {
            chars_of_string(&accounts[i].id)
        } else {
            chars_of_string(&accounts[i].account_id)
        };
        if chars_eq(field.as_slice(), k.as_slice()) {
            proof {
                lemma_position_of_is(sv, key@, by_id, i as int);
            }
            return i;
        }
        i = i + 1;
    }
    proof {
        lemma_position_of_is(sv, key@, by_id, i as int);
    }
    i
}

/// The record with the given id, if any.
pub fn find_account<'a, U>(store: &'a AccountsStore<U>, id: &str) -> (r: Option<&'a StoredAccount<U>>)
    ensures
        ({
            let p = position_of(views(store.accounts@), id@, true);
            if p < store.accounts@.len() {
                r == Some(&store.accounts@[p])
            } else {
                r is None
            }
        }),
{
    let p = find_position(&store.accounts, id, true);
    if p < store.accounts.len() {
        Some(&store.accounts[p])
    } else {
        None
    }
}

/// The record of the Codex account in use, as the user sees it.
pub fn current_account<U: Copy>(store: &AccountsStore<U>, current_account_id: &str) -> (r: Option<Account<U>>)
    ensures
        ({
            let sv = views(store.accounts@);
            let p = position_of(sv, current_account_id@, false);
            if p < sv.len() {
                r matches Some(a) && a@ == account_of(sv[p], Some(current_account_id@))
            } else {
                r is None
            }
        }),
{
    let p = find_position(&store.accounts, current_account_id, false);
    if p < store.accounts.len() {
        proof {
            lemma_views_index(store.accounts@, p as int);
        }
        Some(store.accounts[p].to_account(Some(current_account_id)))
    } else {
        None
    }
}


/// A lower-case hexadecimal digit.
pub open spec fn is_lower_hex_digit(c: char) -> bool {
    ('0' <= c && c <= '9') || ('a' <= c && c <= 'f')
}

/// The text of a random (version 4) UUID as `uuid::Uuid` displays it: 36
/// characters, `-` at positions 8, 13, 18 and 23 and lower-case hexadecimal
/// digits elsewhere, the version `4` at position 14 and the variant (one of
/// `8`, `9`, `a`, `b`) at position 19.
pub open spec fn uuid_v4_text(s: Seq<char>) -> bool {
    &&& s.len() == 36
    &&& forall|i: int|
        0 <= i < 36 ==> if i == 8 || i == 13 || i == 18 || i == 23 {
            #[trigger] s[i] == '-'
        } else {
            is_lower_hex_digit(s[i])
        }
    &&& s[14] == '4'
    &&& s[19] == '8' || s[19] == '9' || s[19] == 'a' || s[19] == 'b'
}

/// Sixteen bytes from the operating system's random source, through
/// `getrandom::fill`; `None` when the source fails. Nothing is stated of
/// the bytes: they are random.
#[verifier::external_body]
fn random_bytes() -> (r: Option<[u8; 16]>) {
    let mut bytes = [0u8; 16];
    match getrandom::fill(&mut bytes) {
        Ok(()) => Some(bytes),
        Err(_) => None,
    }
}

/// The hexadecimal digit at place `i` (0 to 31) of the version 4 UUID made
/// of the bytes `b`: the high then the low half of each byte, except that
/// place 12 is the version `4` and place 16 keeps only the two low bits of
/// its half above the variant bit `8`.
pub open spec fn uuid_nibble(b: Seq<u8>, i: int) -> nat {
    let byte = b[i / 2] as nat;
    if i == 12 {
        4
    } else if i == 16 {
        8 + (byte / 16) % 4
    } else if i % 2 == 0 {
        byte / 16
    } else {
        byte % 16
    }
}

/// The hexadecimal place shown at text position `p` of a hyphenated UUID.
pub open spec fn uuid_place(p: int) -> int {
    if p < 8 {
        p
    } else if p < 13 {
        p - 1
    } else if p < 18 {
        p - 2
    } else if p < 23 {
        p - 3
    } else {
        p - 4
    }
}

/// `uuid::Builder::from_random_bytes(b).into_uuid()` as `Display` writes
/// it: the lower-case hyphenated text of the bytes with the version and
/// variant bits set.
pub open spec fn uuid_v4_string(b: Seq<u8>) -> Seq<char> {
    Seq::new(
        36,
        |p: int|
            if p == 8 || p == 13 || p == 18 || p == 23 {
                '-'
            } else {
                hex_digit_char(uuid_nibble(b, uuid_place(p)))
            },
    )
}

/// The version 4 UUID made of the random bytes `bytes` by
/// `uuid::Builder::from_random_bytes` (which sets the version and variant
/// bits, as `with_version` and `with_variant` show), displayed in its
/// lower-case hyphenated form (`format_hyphenated`). Stated:
/// `uuid_v4_string` of the bytes.
#[verifier::external_body]
fn uuid_v4_from(bytes: [u8; 16]) -> (r: String)
    ensures
        r@ == uuid_v4_string(bytes@),
{
    uuid::Builder::from_random_bytes(bytes).into_uuid().to_string()
}

proof fn lemma_uuid_v4_string_shape(b: Seq<u8>)
    requires
        b.len() == 16,
    ensures
        uuid_v4_text(uuid_v4_string(b)),
{
    let s = uuid_v4_string(b);
    assert forall|p: int| 0 <= p < 36 implies if p == 8 || p == 13 || p == 18 || p == 23 {
        #[trigger] s[p] == '-'
    } else {
        is_lower_hex_digit(s[p])
    } by {
        if !(p == 8 || p == 13 || p == 18 || p == 23) {
            let i = uuid_place(p);
            let byte = b[i / 2] as nat;
            assert(byte < 256);
            assert(uuid_nibble(b, i) < 16) by {
                if i == 16 {
                    assert((byte / 16) % 4 < 4);
                }
            }
        }
    }
    assert(uuid_place(14) == 12);
    assert(uuid_place(19) == 16);
    let v = (b[8] as nat / 16) % 4;
    assert(v < 4);
}

/// A fresh identifier for a new record: a random (version 4) UUID, as
/// `uuid::Uuid::new_v4()` makes, from the operating system's random source;
/// `None` when that source fails. Its random digits are not stated, nor that
/// no record has it already.
fn new_account_id() -> (r: Option<String>)
    ensures
        r matches Some(s) ==> uuid_v4_text(s@),
{
    match random_bytes() {
        Some(bytes) => {
            let s = uuid_v4_from(bytes);
            proof {
                lemma_uuid_v4_string_shape(bytes@);
            }
            Some(s)
        },
        None => None,
    }
}

/// `usage`/`usage_error` after a check: a new snapshot replaces the old one
/// and clears the error; otherwise the snapshot stays and the error is the
/// check's.
pub open spec fn merge_usage<U>(e: StoredAccountView<U>, up: UsageUpdateView<U>) -> StoredAccountView<U> {
    if up.usage is Some {
        StoredAccountView { usage: up.usage, usage_error: None, ..e }
    } else {
        StoredAccountView { usage_error: up.usage_error, ..e }
    }
}

/// Adding the account that Codex is logged in to: the record with its Codex
/// account id is relabelled and updated from the check (address and plan
/// from the check, else from the credentials, else as they were), or a new
/// record is added. Answers the store and the record written.
pub open spec fn upsert_spec<U>(
    s: Seq<StoredAccountView<U>>,
    ex: ExtractedAuthView,
    up: UsageUpdateView<U>,
    label: Seq<char>,
    fallback_label: Seq<char>,
    now: i64,
    new_id: Seq<char>,
) -> (Seq<StoredAccountView<U>>, StoredAccountView<U>) {
    let lbl = account_label_spec(label, fallback_label);
    let p = position_of(s, ex.account_id, false);
    if p < s.len() {
        let u = merge_usage(
            StoredAccountView {
                label: lbl,
                email: or_else(or_else(up.email, ex.email), s[p].email),
                plan_type: or_else(or_else(up.plan_type, ex.plan_type), s[p].plan_type),
                auth_json: up.auth_json,
                updated_at: now,
                ..s[p]
            },
            up,
        );
        (s.update(p, u), u)
    } else {
        let n = StoredAccountView {
            id: new_id,
            label: lbl,
            email: or_else(up.email, ex.email),
            account_id: ex.account_id,
            plan_type: or_else(up.plan_type, ex.plan_type),
            auth_json: up.auth_json,
            added_at: now,
            updated_at: now,
            usage: up.usage,
            usage_error: up.usage_error,
        };
        (s.push(n), n)
    }
}

fn or_else_string(a: Option<String>, b: Option<String>) -> (r: Option<String>)
    ensures
        opt_chars(r) == or_else(opt_chars(a), opt_chars(b)),
{
    match a {
        Some(x) => Some(x),
        None => b,
    }
}

/// The record `e` updated by a usage check `up` taken at `now`, with its
/// address and plan falling back as given.
fn updated_record<U: Copy>(
    e: &StoredAccount<U>,
    label: String,
    email: Option<String>,
    plan_type: Option<String>,
    up: UsageUpdate<U>,
    now: i64,
) -> (r: StoredAccount<U>)
    ensures
        r@ == merge_usage(
            StoredAccountView {
                label: label@,
                email: opt_chars(email),
                plan_type: opt_chars(plan_type),
                auth_json: up@.auth_json,
                updated_at: now,
                ..e@
            },
            up@,
        ),
{
    let has_usage = up.usage.is_some();
    StoredAccount {
        id: copy_string(&e.id),
        label,
        email,
        account_id: copy_string(&e.account_id),
        plan_type,
        auth_json: up.auth_json,
        added_at: e.added_at,
        updated_at: now,
        usage: if has_usage {
            up.usage
        } else {
            e.usage
        },
        usage_error: if has_usage {
            None
        } else {
            up.usage_error
        },
    }
}

/// Adds or updates the record of the account Codex is logged in to, and
/// answers it as the user sees it. `fallback_label` is the label used when
/// `label` is blank. A new record gets a random id; when the random source
/// fails, nothing changes and the answer is an error.
pub fn upsert_account<U: Copy>(
    store: &mut AccountsStore<U>,
    extracted: &ExtractedAuth,
    update: UsageUpdate<U>,
    label: &str,
    fallback_label: &str,
    now: i64,
    current_account_id: Option<&str>,
) -> (r: Result<Account<U>, String>)
    ensures
        r is Ok ==> exists|new_id: Seq<char>|
            {
                let (s, rec) = #[trigger] upsert_spec(
                    views(old(store).accounts@),
                    extracted@,
                    update@,
                    label@,
                    fallback_label@,
                    now,
                    new_id,
                );
                &&& views(final(store).accounts@) == s
                &&& r->Ok_0@ == account_of(rec, opt_str(current_account_id))
                &&& position_of(views(old(store).accounts@), extracted@.account_id, false)
                    == old(store).accounts@.len() ==> uuid_v4_text(new_id)
            },
        position_of(views(old(store).accounts@), extracted@.account_id, false)
            < old(store).accounts@.len() ==> r is Ok,
        r matches Err(e) ==> e@ == "无法生成账号 id"@ && final(store).accounts@ == old(
            store,
        ).accounts@,
{
    let ghost sv = views(store.accounts@);
    let p = find_position(&store.accounts, extracted.account_id.as_str(), false);
    if p < store.accounts.len() {
        proof {
            lemma_views_index(store.accounts@, p as int);
        }
        let lbl = normalize_account_label(label, fallback_label);
        let email = or_else_string(
            or_else_string(copy_opt(&update.email), copy_opt(&extracted.email)),
            copy_opt(&store.accounts[p].email),
        );
        let plan = or_else_string(
            or_else_string(copy_opt(&update.plan_type), copy_opt(&extracted.plan_type)),
            copy_opt(&store.accounts[p].plan_type),
        );
        let rec = updated_record(&store.accounts[p], lbl, email, plan, update, now);
        let account = rec.to_account(current_account_id);
        let ghost recv = rec@;
        store.accounts.set(p, rec);
        assert(views(store.accounts@) =~= sv.update(p as int, recv));
        assert(upsert_spec(sv, extracted@, update@, label@, fallback_label@, now, Seq::empty()).0
            == views(store.accounts@));
        Ok(account)
    } else {
        let id = match new_account_id() {
            Some(id) => id,
            None => {
                return Err(owned("无法生成账号 id"));
            },
        };
        Ok(add_new_record(store, extracted, update, label, fallback_label, now, id, current_account_id))
    }
}

/// Adds the record of an account that the store does not hold yet, under
/// the id `id`, and answers it as the user sees it: what
/// [`upsert_account`] does once it has drawn the id.
pub fn add_new_record<U: Copy>(
    store: &mut AccountsStore<U>,
    extracted: &ExtractedAuth,
    update: UsageUpdate<U>,
    label: &str,
    fallback_label: &str,
    now: i64,
    id: String,
    current_account_id: Option<&str>,
) -> (r: Account<U>)
    requires
        position_of(views(old(store).accounts@), extracted@.account_id, false) == old(
            store,
        ).accounts@.len(),
    ensures
        ({
            let (s, rec) = upsert_spec(
                views(old(store).accounts@),
                extracted@,
                update@,
                label@,
                fallback_label@,
                now,
                id@,
            );
            &&& views(final(store).accounts@) == s
            &&& r@ == account_of(rec, opt_str(current_account_id))
        }),
{
    let ghost sv = views(store.accounts@);
    let lbl = normalize_account_label(label, fallback_label);
    let rec = StoredAccount {
        id,
        label: lbl,
        email: or_else_string(copy_opt(&update.email), copy_opt(&extracted.email)),
        account_id: copy_string(&extracted.account_id),
        plan_type: or_else_string(copy_opt(&update.plan_type), copy_opt(&extracted.plan_type)),
        auth_json: update.auth_json,
        added_at: now,
        updated_at: now,
        usage: update.usage,
        usage_error: update.usage_error,
    };
    let account = rec.to_account(current_account_id);
    let ghost recv = rec@;
    store.accounts.push(rec);
    assert(views(store.accounts@) =~= sv.push(recv));
    account
}

/// Refreshing the usage of the record with the given id: its time, the
/// credentials and the usage are updated, and the address and plan are the
/// check's, else as they were. An unknown id is an error.
pub open spec fn refresh_spec<U>(
    s: Seq<StoredAccountView<U>>,
    id: Seq<char>,
    up: UsageUpdateView<U>,
    now: i64,
) -> Result<(Seq<StoredAccountView<U>>, StoredAccountView<U>), Seq<char>> {
    let p = position_of(s, id, true);
    if p < s.len() {
        let u = merge_usage(
            StoredAccountView {
                email: or_else(up.email, s[p].email),
                plan_type: or_else(up.plan_type, s[p].plan_type),
                auth_json: up.auth_json,
                updated_at: now,
                ..s[p]
            },
            up,
        );
        Ok((s.update(p, u), u))
    } else {
        Err("账号已被删除，无法刷新"@)
    }
}

/// Stores the outcome of a usage check for the record with the given id and
/// answers the record as the user sees it.
pub fn apply_usage_refresh<U: Copy>(
    store: &mut AccountsStore<U>,
    id: &str,
    update: UsageUpdate<U>,
    now: i64,
    current_account_id: Option<&str>,
) -> (r: Result<Account<U>, String>)
    ensures
        match refresh_spec(views(old(store).accounts@), id@, update@, now) {
            Ok((s, rec)) => {
                &&& views(final(store).accounts@) == s
                &&& r matches Ok(a) && a@ == account_of(rec, opt_str(current_account_id))
            },
            Err(m) => {
                &&& views(final(store).accounts@) == views(old(store).accounts@)
                &&& r matches Err(e) && e@ == m
            },
        },
{
    let ghost sv = views(store.accounts@);
    let p = find_position(&store.accounts, id, true);
    if p >= store.accounts.len() {
        return Err(owned("账号已被删除，无法刷新"));
    }
    proof {
        lemma_views_index(store.accounts@, p as int);
    }
    let label = copy_string(&store.accounts[p].label);
    let email = or_else_string(copy_opt(&update.email), copy_opt(&store.accounts[p].email));
    let plan = or_else_string(copy_opt(&update.plan_type), copy_opt(&store.accounts[p].plan_type));
    let rec = updated_record(&store.accounts[p], label, email, plan, update, now);
    let account = rec.to_account(current_account_id);
    let ghost recv = rec@;
    store.accounts.set(p, rec);
    assert(views(store.accounts@) =~= sv.update(p as int, recv));
    Ok(account)
}

/// The records other than those with the given id, in order.
pub open spec fn without_id<U>(s: Seq<StoredAccountView<U>>, id: Seq<char>) -> Seq<StoredAccountView<U>> {
    s.filter(|x: StoredAccountView<U>| x.id != id)
}

/// Removes the records with the given id; an error when there is none.
pub fn delete_account<U>(store: &mut AccountsStore<U>, id: &str) -> (r: Result<(), String>)
    ensures
        views(final(store).accounts@) == without_id(views(old(store).accounts@), id@),
        r is Ok <==> exists|i: int|
            0 <= i < old(store).accounts@.len() && (#[trigger] views(old(store).accounts@)[i]).id
                == id@,
        r matches Err(e) ==> e@ == "未找到要删除的账号"@,
{
    let ghost sv = views(store.accounts@);
    let ghost pred = |s: StoredAccountView<U>| s.id != id@;
    let key = chars_of(id);
    let mut kept: Vec<StoredAccount<U>> = Vec::new();
    let mut rest: Vec<StoredAccount<U>> = Vec::new();
    std::mem::swap(&mut rest, &mut store.accounts);
    let ghost mut done: int = 0;
    let mut removed = false;
    assert(sv.take(0).filter(pred) =~= Seq::<StoredAccountView<U>>::empty());
    assert(views(kept@) =~= Seq::<StoredAccountView<U>>::empty());
    while rest.len() > 0
        invariant
            0 <= done <= sv.len(),
            views(rest@) == sv.skip(done),
            views(kept@) == sv.take(done).filter(pred),
            key@ == id@,
            pred == (|s: StoredAccountView<U>| s.id != id@),
            removed <==> exists|i: int| 0 <= i < done && (#[trigger] sv[i]).id == id@,
        decreases rest@.len(),
    {
        let ghost old_rest = rest@;
        let a = rest.remove(0);
        proof {
            lemma_views_index(old_rest, 0);
            assert(a@ == sv[done]);
            let t = sv.take(done + 1);
            assert(t.drop_last() =~= sv.take(done));
            assert(t.last() == a@);
            reveal_with_fuel(Seq::<_>::filter, 1);
        }
        let field = chars_of_string(&a.id);
        if chars_eq(field.as_slice(), key.as_slice()) {
            removed = true;
        } else {
            let ghost before = views(kept@);
            kept.push(a);
            assert(views(kept@) =~= before.push(sv[done]));
        }
        proof {
            done = done + 1;
        }
        assert(views(rest@) =~= sv.skip(done)) by {
            assert(views(rest@) =~= views(old_rest).drop_first());
        }
    }
    assert(sv.take(done) =~= sv);
    store.accounts = kept;
    if !removed {
        return Err(owned("未找到要删除的账号"));
    }
    Ok(())
}

proof fn lemma_position_of_facts<U>(s: Seq<StoredAccountView<U>>, key: Seq<char>, by_id: bool)
    ensures
        0 <= position_of(s, key, by_id) <= s.len(),
        forall|k: int|
            0 <= k < position_of(s, key, by_id) ==> (if by_id {
                (#[trigger] s[k]).id
            } else {
                s[k].account_id
            }) != key,
        position_of(s, key, by_id) < s.len() ==> (if by_id {
            s[position_of(s, key, by_id)].id
        } else {
            s[position_of(s, key, by_id)].account_id
        }) == key,
    decreases s.len(),
{
    if s.len() > 0 && (if by_id {
        s[0].id
    } else {
        s[0].account_id
    }) != key {
        lemma_position_of_facts(s.drop_first(), key, by_id);
        let p = position_of(s, key, by_id);
        assert forall|k: int| 0 <= k < p implies (if by_id {
            (#[trigger] s[k]).id
        } else {
            s[k].account_id
        }) != key by {
            if k > 0 {
                assert(s[k] == s.drop_first()[k - 1]);
            }
        }
        if p < s.len() {
            assert(s[p] == s.drop_first()[p - 1]);
        }
    }
}

/// No two records are for the same Codex account.
pub open spec fn account_ids_distinct<U>(s: Seq<StoredAccountView<U>>) -> bool {
    forall|i: int, j: int| 0 <= i < j < s.len() ==> (#[trigger] s[i]).account_id != (#[trigger] s[j]).account_id
}

/// Law: adding the account Codex is logged in to keeps one record per Codex
/// account. The record written is the one that its account id finds
/// afterwards, and the store grows only when no record had that id.
pub proof fn lemma_upsert_one_record_per_account<U>(
    s: Seq<StoredAccountView<U>>,
    ex: ExtractedAuthView,
    up: UsageUpdateView<U>,
    label: Seq<char>,
    fallback_label: Seq<char>,
    now: i64,
    new_id: Seq<char>,
)
    requires
        account_ids_distinct(s),
    ensures
        ({
            let (t, rec) = upsert_spec(s, ex, up, label, fallback_label, now, new_id);
            &&& account_ids_distinct(t)
            &&& rec.account_id == ex.account_id
            &&& position_of(t, ex.account_id, false) < t.len()
            &&& t[position_of(t, ex.account_id, false)] == rec
            &&& t.len() == s.len() + (if position_of(s, ex.account_id, false) < s.len() {
                0int
            } else {
                1int
            })
        }),
{
    let key = ex.account_id;
    lemma_position_of_facts(s, key, false);
    let p = position_of(s, key, false);
    let (t, rec) = upsert_spec(s, ex, up, label, fallback_label, now, new_id);
    assert forall|i: int, j: int| 0 <= i < j < t.len() implies (#[trigger] t[i]).account_id != (
    #[trigger] t[j]).account_id by {
        if j < s.len() {
            assert(t[i].account_id == s[i].account_id);
            assert(t[j].account_id == s[j].account_id);
        } else {
            assert(t[i] == s[i]);
        }
    }
    if p < s.len() {
        assert forall|k: int| 0 <= k < p implies (#[trigger] t[k]).account_id != key by {
            assert(t[k] == s[k]);
        }
        lemma_position_of_is(t, key, false, p);
    } else {
        assert forall|k: int| 0 <= k < s.len() implies (#[trigger] t[k]).account_id != key by {
            assert(t[k] == s[k]);
        }
        lemma_position_of_is(t, key, false, s.len() as int);
    }
}

/// Law: adding the account Codex is logged in to stores the credentials
/// and the outcome of the check just made: the record written carries the
/// check's `auth_json` and time, the label given (trimmed; the fallback
/// when blank), and the address and plan of the check, else of the
/// credentials, else (for an existing record) as they were. An existing
/// record of the account keeps
/// its id and the time it was added and is replaced where it stands; it
/// takes the check's usage when the check gave one (and then no error),
/// else keeps its usage and takes the check's error. A new record takes the
/// drawn id, the check's usage and error, and goes last. No record of
/// another account changes.
pub proof fn lemma_upsert_stores_fresh_credentials<U>(
    s: Seq<StoredAccountView<U>>,
    ex: ExtractedAuthView,
    up: UsageUpdateView<U>,
    label: Seq<char>,
    fallback_label: Seq<char>,
    now: i64,
    new_id: Seq<char>,
)
    ensures
        ({
            let (t, rec) = upsert_spec(s, ex, up, label, fallback_label, now, new_id);
            let p = position_of(s, ex.account_id, false);
            &&& rec.auth_json == up.auth_json
            &&& rec.account_id == ex.account_id
            &&& rec.updated_at == now
            &&& rec.label == (if trim(label).len() == 0 {
                fallback_label
            } else {
                trim(label)
            })
            &&& up.email is Some ==> rec.email == up.email
            &&& up.email is None && ex.email is Some ==> rec.email == ex.email
            &&& up.plan_type is Some ==> rec.plan_type == up.plan_type
            &&& up.plan_type is None && ex.plan_type is Some ==> rec.plan_type == ex.plan_type
            &&& forall|k: int|
                0 <= k < s.len() && (#[trigger] s[k]).account_id != ex.account_id ==> t[k] == s[k]
            &&& p < s.len() ==> {
                &&& t.len() == s.len()
                &&& t[p] == rec
                &&& rec.id == s[p].id
                &&& rec.added_at == s[p].added_at
                &&& up.email is None && ex.email is None ==> rec.email == s[p].email
                &&& up.plan_type is None && ex.plan_type is None ==> rec.plan_type == s[p].plan_type
                &&& up.usage is Some ==> rec.usage == up.usage && rec.usage_error is None
                &&& up.usage is None ==> rec.usage == s[p].usage && rec.usage_error
                    == up.usage_error
            }
            &&& p >= s.len() ==> {
                &&& t.len() == s.len() + 1
                &&& t[s.len() as int] == rec
                &&& rec.id == new_id
                &&& rec.added_at == now
                &&& up.email is None && ex.email is None ==> rec.email is None
                &&& up.plan_type is None && ex.plan_type is None ==> rec.plan_type is None
                &&& rec.usage == up.usage
                &&& rec.usage_error == up.usage_error
            }
        }),
{
    lemma_position_of_facts(s, ex.account_id, false);
    let p = position_of(s, ex.account_id, false);
    let (t, rec) = upsert_spec(s, ex, up, label, fallback_label, now, new_id);
    if p < s.len() {
        assert(s[p].account_id == ex.account_id);
        assert(t == s.update(p, rec));
    } else {
        assert(t == s.push(rec));
    }
    assert forall|k: int|
        0 <= k < s.len() && (#[trigger] s[k]).account_id != ex.account_id implies t[k] == s[k] by {
        if p < s.len() {
            assert(k != p);
        }
    }
}

/// Law: a refresh that finds its record stores the credentials and the
/// outcome of the check in it: the record with the given id now carries the
/// check's `auth_json` and time, the check's usage when it gave one (and
/// then no error), else its error, the check's address and plan where it
/// gave them, and keeps its id, account, label and the time it was added; every other record is as it was. A refresh is
/// refused exactly when no record has the id.
pub proof fn lemma_refresh_stores_fresh_credentials<U>(
    s: Seq<StoredAccountView<U>>,
    id: Seq<char>,
    up: UsageUpdateView<U>,
    now: i64,
)
    ensures
        refresh_spec(s, id, up, now) is Err <==> forall|k: int| 0 <= k < s.len() ==> (#[trigger] s[k]).id
            != id,
        refresh_spec(s, id, up, now) matches Ok((t, rec)) ==> {
            let p = position_of(s, id, true);
            &&& 0 <= p < s.len()
            &&& t.len() == s.len()
            &&& t[p] == rec
            &&& forall|k: int| 0 <= k < s.len() && k != p ==> #[trigger] t[k] == s[k]
            &&& rec.id == id
            &&& rec.auth_json == up.auth_json
            &&& rec.updated_at == now
            &&& up.usage is Some ==> rec.usage == up.usage && rec.usage_error is None
            &&& up.usage is None ==> rec.usage == s[p].usage && rec.usage_error == up.usage_error
            &&& rec.account_id == s[p].account_id
            &&& rec.label == s[p].label
            &&& rec.email == (if up.email is Some { up.email } else { s[p].email })
            &&& rec.plan_type == (if up.plan_type is Some { up.plan_type } else { s[p].plan_type })
            &&& rec.added_at == s[p].added_at
        },
{
    lemma_position_of_facts(s, id, true);
    let p = position_of(s, id, true);
    if p < s.len() {
        assert(s[p].id == id);
    }
}

/// Law: once the records with an id are deleted, refreshing that id is
/// refused.
pub proof fn lemma_refresh_after_delete<U>(
    s: Seq<StoredAccountView<U>>,
    id: Seq<char>,
    up: UsageUpdateView<U>,
    now: i64,
)
    ensures
        refresh_spec(without_id(s, id), id, up, now) is Err,
{
    broadcast use vstd::seq_lib::group_filter_ensures;

    let t = without_id(s, id);
    lemma_position_of_facts(t, id, true);
    if position_of(t, id, true) < t.len() {
        assert(t[position_of(t, id, true)].id != id);
    }
}

} // verus!
