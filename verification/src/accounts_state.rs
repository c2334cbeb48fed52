//! Bookkeeping of generated accounts: e-mail normalisation, which accounts
//! have been imported into Codex, and the list the user picks from.
use vstd::prelude::*;
use crate::models::{
    AccountStateEntry, AccountStateEntryView, AccountsState, AppError, AvailableAccount,
    AvailableAccountView, ImportResult,
};
use crate::order::{
    SortKey, is_ordered, lemma_stable_sorted_from_input, lemma_stable_sorted_is_ordered,
    lemma_stable_sorted_is_permutation, lemma_views_index, stable_sort, stable_sorted, views,
};
use crate::clock::{now_rfc3339, rfc3339_utc_seconds};
use crate::jwt::{extract_email_from_id_token, id_token_email_spec, id_token_error_spec};
use crate::ssh::opt_chars;
use crate::text::{
    chars_eq, chars_lt, chars_of, chars_of_string, chars_start_with, concat,
    lemma_lex_lt_irreflexive, lemma_lex_lt_transitive, lemma_trim_idempotent, lemma_trim_lower,
    lex_lt, lines, lower, slice_of,
    split_lines, starts_with, string_of, to_lower, trim, trim_chars,
};

verus! {

/// An e-mail address as the records keep it: trimmed and in ASCII lower
/// case.
pub open spec fn normalize_email_spec(e: Seq<char>) -> Seq<char> {
    lower(trim(e))
}

/// Trims an e-mail address and folds it to ASCII lower case.
pub fn normalize_email(email: &str) -> (r: String)
    ensures
        r@ == normalize_email_spec(email@),
{
    let c = chars_of(email);
    let t = trim_chars(c.as_slice());
    string_of(to_lower(t.as_slice()).as_slice())
}

fn normalized_chars(email: &String) -> (r: Vec<char>)
    ensures
        r@ == normalize_email_spec(email@),
{
    let c = chars_of_string(email);
    let t = trim_chars(c.as_slice());
    to_lower(t.as_slice())
}

/// `@` and `.` replaced by `_`.
pub open spec fn sanitize_spec(e: Seq<char>) -> Seq<char> {
    e.map_values(|c: char| if c == '@' || c == '.' { '_' } else { c })
}

/// The e-mail address made fit for a file name: `@` and `.` become `_`.
pub fn sanitize_email_for_filename(email: &str) -> (r: String)
    ensures
        r@ == sanitize_spec(email@),
{
    let c = chars_of(email);
    let mut out: Vec<char> = Vec::new();
    let mut i: usize = 0;
    while i < c.len()
        invariant
            i <= c@.len(),
            c@ == email@,
            out@ == sanitize_spec(c@.take(i as int)),
        decreases c@.len() - i,
    {
        let ch = c[i];
        out.push(if ch == '@' || ch == '.' { '_' } else { ch });
        i = i + 1;
        assert(out@ =~= sanitize_spec(c@.take(i as int)));
    }
    assert(c@.take(i as int) =~= c@);
    string_of(out.as_slice())
}

/// The label of an account: the given one trimmed, or `fallback` when that
/// is empty.
pub open spec fn account_label_spec(label: Seq<char>, fallback: Seq<char>) -> Seq<char> {
    if trim(label).len() == 0 {
        fallback
    } else {
        trim(label)
    }
}

/// The label to keep for an account.
pub fn normalize_account_label(label: &str, fallback: &str) -> (r: String)
    ensures
        r@ == account_label_spec(label@, fallback@),
{
    let t = trim_chars(chars_of(label).as_slice());
    if t.len() == 0 {
        crate::text::owned(fallback)
    } else {
        string_of(t.as_slice())
    }
}

/// The distinct normalised, non-empty addresses of `es`, in order of first
/// appearance.
pub open spec fn unique_emails_spec(es: Seq<Seq<char>>) -> Seq<Seq<char>>
    decreases es.len(),
{
    if es.len() == 0 {
        seq![]
    } else {
        let prev = unique_emails_spec(es.drop_last());
        let n = normalize_email_spec(es.last());
        if n.len() == 0 || prev.contains(n) {
            prev
        } else {
            prev.push(n)
        }
    }
}

/// Law: the addresses that `unique_emails` keeps are distinct, non-empty and
/// normalised.
pub proof fn lemma_unique_emails_distinct(es: Seq<Seq<char>>)
    ensures
        unique_emails_spec(es).no_duplicates(),
        forall|i: int|
            0 <= i < unique_emails_spec(es).len() ==> (#[trigger] unique_emails_spec(es)[i]).len()
                > 0,
        forall|i: int|
            #![trigger unique_emails_spec(es)[i]]
            0 <= i < unique_emails_spec(es).len() ==> exists|j: int|
                0 <= j < es.len() && unique_emails_spec(es)[i] == normalize_email_spec(
                    #[trigger] es[j],
                ),
    decreases es.len(),
{
    if es.len() > 0 {
        lemma_unique_emails_distinct(es.drop_last());
        let prev = unique_emails_spec(es.drop_last());
        let r = unique_emails_spec(es);
        assert forall|i: int| #![trigger r[i]] 0 <= i < r.len() implies exists|j: int|
            0 <= j < es.len() && r[i] == normalize_email_spec(#[trigger] es[j]) by {
            if i < prev.len() {
                let j = choose|j: int|
                    0 <= j < es.drop_last().len() && prev[i] == normalize_email_spec(
                        #[trigger] es.drop_last()[j],
                    );
                assert(es[j] == es.drop_last()[j]);
            } else {
                assert(r[i] == normalize_email_spec(es[es.len() - 1]));
            }
        }
    }
}

/// Law: no address is lost: every input address that is not blank once
/// normalised is among those `unique_emails` keeps.
pub proof fn lemma_unique_emails_complete(es: Seq<Seq<char>>)
    ensures
        forall|j: int|
            0 <= j < es.len() && normalize_email_spec(#[trigger] es[j]).len() > 0
                ==> unique_emails_spec(es).contains(normalize_email_spec(es[j])),
    decreases es.len(),
{
    if es.len() > 0 {
        let d = es.drop_last();
        lemma_unique_emails_complete(d);
        let prev = unique_emails_spec(d);
        let r = unique_emails_spec(es);
        assert forall|x: Seq<char>| prev.contains(x) implies r.contains(x) by {
            let i = choose|i: int| 0 <= i < prev.len() && prev[i] == x;
            assert(r[i] == x);
        }
        assert forall|j: int|
            0 <= j < es.len() && normalize_email_spec(#[trigger] es[j]).len() > 0 implies r.contains(
            normalize_email_spec(es[j])) by {
            if j < d.len() {
                assert(d[j] == es[j]);
                assert(prev.contains(normalize_email_spec(d[j])));
            } else {
                let n = normalize_email_spec(es.last());
                if !prev.contains(n) {
                    assert(r[prev.len() as int] == n);
                }
            }
        }
    }
}

/// Law: reading more addresses never changes what was kept from the earlier
/// ones: the addresses kept from `es` come first, in the same order, among
/// those kept from `es` followed by `more`.
pub proof fn lemma_unique_emails_extends(es: Seq<Seq<char>>, more: Seq<Seq<char>>)
    ensures
        unique_emails_spec(es).len() <= unique_emails_spec(es + more).len(),
        unique_emails_spec(es + more).take(unique_emails_spec(es).len() as int) == unique_emails_spec(es),
    decreases more.len(),
{
    if more.len() == 0 {
        assert(es + more =~= es);
        assert(unique_emails_spec(es).take(unique_emails_spec(es).len() as int) =~= unique_emails_spec(es));
    } else {
        let m = more.drop_last();
        lemma_unique_emails_extends(es, m);
        assert((es + more).drop_last() =~= es + m);
        let prev = unique_emails_spec(es + m);
        let r = unique_emails_spec(es + more);
        let k = unique_emails_spec(es).len() as int;
        assert(r.take(k) =~= prev.take(k));
    }
}

fn contains_chars(list: &Vec<Vec<char>>, x: &Vec<char>) -> (r: bool)
    ensures
        r == views(list@).contains(x@),
{
    let ghost lv = views(list@);
    let mut i: usize = 0;
    while i < list.len()
        invariant
            lv == views(list@),
            i <= list@.len(),
            forall|k: int| 0 <= k < i ==> lv[k] != x@,
        decreases list@.len() - i,
    {
        proof {
            lemma_views_index(list@, i as int);
        }
        if chars_eq(list[i].as_slice(), x.as_slice()) {
            return true;
        }
        i = i + 1;
    }
    false
}

/// Normalises the addresses and drops empty and repeated ones, keeping the
/// first appearance of each.
pub fn unique_emails(emails: Vec<String>) -> (r: Vec<String>)
    ensures
        views(r@) == unique_emails_spec(views(emails@)),
{
    let ghost ev = views(emails@);
    let mut seen: Vec<Vec<char>> = Vec::new();
    let mut unique: Vec<String> = Vec::new();
    let mut i: usize = 0;
    assert(ev.take(0) =~= Seq::<Seq<char>>::empty());
    assert(views(seen@) =~= Seq::<Seq<char>>::empty());
    assert(views(unique@) =~= Seq::<Seq<char>>::empty());
    while i < emails.len()
        invariant
            ev == views(emails@),
            i <= emails@.len(),
            views(seen@) == unique_emails_spec(ev.take(i as int)),
            views(unique@) == views(seen@),
        decreases emails@.len() - i,
    {
        proof {
            lemma_views_index(emails@, i as int);
            let t = ev.take(i + 1int);
            assert(t.drop_last() =~= ev.take(i as int));
            assert(t.last() == emails@[i as int]@);
        }
        let n = normalized_chars(&emails[i]);
        if n.len() > 0 && !contains_chars(&seen, &n) {
            let s = string_of(n.as_slice());
            let ghost before = views(seen@);
            unique.push(s);
            seen.push(n);
            assert(views(seen@) =~= before.push(n@));
            assert(views(unique@) =~= before.push(n@));
        }
        i = i + 1;
    }
    assert(ev.take(i as int) =~= ev);
    unique
}

/// Entries are kept in order of their address.
impl SortKey for AccountStateEntry {
    open spec fn key_lt(a: AccountStateEntryView, b: AccountStateEntryView) -> bool {
        lex_lt(a.email, b.email)
    }

    fn sorts_before(&self, other: &Self) -> (r: bool) {
        let a = chars_of_string(&self.email);
        let b = chars_of_string(&other.email);
        chars_lt(a.as_slice(), b.as_slice())
    }

    proof fn lemma_key_lt_irreflexive(a: AccountStateEntryView) {
        lemma_lex_lt_irreflexive(a.email);
    }

    proof fn lemma_key_lt_transitive(
        a: AccountStateEntryView,
        b: AccountStateEntryView,
        c: AccountStateEntryView,
    ) {
        lemma_lex_lt_transitive(a.email, b.email, c.email);
    }
}

/// The position of the last entry whose normalised address is `n`, or -1.
pub open spec fn last_entry_with(es: Seq<AccountStateEntryView>, n: Seq<char>) -> int
    decreases es.len(),
{
    if es.len() == 0 {
        -1
    } else if normalize_email_spec(es.last().email) == n {
        es.len() - 1
    } else {
        last_entry_with(es.drop_last(), n)
    }
}

/// The position of the first entry whose normalised address is `n`, or
/// `es.len()`.
pub open spec fn first_entry_with(es: Seq<AccountStateEntryView>, n: Seq<char>) -> int
    decreases es.len(),
{
    if es.len() == 0 {
        0
    } else if normalize_email_spec(es[0].email) == n {
        0
    } else {
        1 + first_entry_with(es.drop_first(), n)
    }
}

/// Marks one address as imported at `ts`: the last of the original entries
/// with that address is updated, or a new entry is added.
pub open spec fn mark_one(
    es: Seq<AccountStateEntryView>,
    orig: Seq<AccountStateEntryView>,
    email: Seq<char>,
    ts: Seq<char>,
) -> Seq<AccountStateEntryView> {
    let n = normalize_email_spec(email);
    let i = last_entry_with(orig, n);
    if i >= 0 {
        es.update(i, AccountStateEntryView { imported: true, imported_at: Some(ts), ..es[i] })
    } else {
        es.push(AccountStateEntryView { email: n, imported: true, imported_at: Some(ts) })
    }
}

/// Marks the given addresses, in order.
pub open spec fn mark_all(
    orig: Seq<AccountStateEntryView>,
    emails: Seq<Seq<char>>,
    ts: Seq<char>,
) -> Seq<AccountStateEntryView>
    decreases emails.len(),
{
    if emails.len() == 0 {
        orig
    } else {
        mark_one(mark_all(orig, emails.drop_last(), ts), orig, emails.last(), ts)
    }
}

proof fn lemma_last_entry_with_facts(es: Seq<AccountStateEntryView>, n: Seq<char>)
    ensures
        -1 <= last_entry_with(es, n) < es.len(),
        last_entry_with(es, n) >= 0 ==> normalize_email_spec(es[last_entry_with(es, n)].email)
            == n,
        forall|k: int|
            last_entry_with(es, n) < k < es.len() ==> normalize_email_spec(#[trigger] es[k].email)
                != n,
    decreases es.len(),
{
    if es.len() > 0 && normalize_email_spec(es.last().email) != n {
        lemma_last_entry_with_facts(es.drop_last(), n);
        assert forall|k: int| last_entry_with(es, n) < k < es.len() implies normalize_email_spec(
            #[trigger] es[k].email,
        ) != n by {
            if k < es.len() - 1 {
                assert(es[k] == es.drop_last()[k]);
            }
        }
    }
}

proof fn lemma_last_entry_with_is(es: Seq<AccountStateEntryView>, n: Seq<char>, i: int)
    requires
        -1 <= i < es.len(),
        i >= 0 ==> normalize_email_spec(es[i].email) == n,
        forall|k: int| i < k < es.len() ==> normalize_email_spec(#[trigger] es[k].email) != n,
    ensures
        last_entry_with(es, n) == i,
    decreases es.len(),
{
    if es.len() > 0 && i < es.len() - 1 {
        assert(normalize_email_spec(es[es.len() - 1].email) != n);
        assert forall|k: int| i < k < es.drop_last().len() implies normalize_email_spec(
            #[trigger] es.drop_last()[k].email,
        ) != n by {
            assert(es.drop_last()[k] == es[k]);
        }
        if i >= 0 {
            assert(es.drop_last()[i] == es[i]);
        }
        lemma_last_entry_with_is(es.drop_last(), n, i);
    }
}

proof fn lemma_mark_all_keeps_prefix_emails(
    orig: Seq<AccountStateEntryView>,
    emails: Seq<Seq<char>>,
    ts: Seq<char>,
)
    ensures
        mark_all(orig, emails, ts).len() >= orig.len(),
        forall|k: int|
            0 <= k < orig.len() ==> (#[trigger] mark_all(orig, emails, ts)[k]).email == orig[k].email,
    decreases emails.len(),
{
    if emails.len() > 0 {
        lemma_mark_all_keeps_prefix_emails(orig, emails.drop_last(), ts);
        lemma_last_entry_with_facts(orig, normalize_email_spec(emails.last()));
    }
}

/// The position of the last of the first `limit` entries whose normalised
/// address is `n`, or -1.
fn last_entry_position(es: &Vec<AccountStateEntry>, limit: usize, n: &Vec<char>) -> (r: Option<usize>)
    requires
        limit <= es@.len(),
    ensures
        match r {
            Some(i) => i == last_entry_with(views(es@).take(limit as int), n@),
            None => last_entry_with(views(es@).take(limit as int), n@) == -1,
        },
{
    let ghost p = views(es@).take(limit as int);
    let mut i: usize = limit;
    while i > 0
        invariant
            p == views(es@).take(limit as int),
            limit <= es@.len(),
            i <= limit,
            forall|k: int| i <= k < limit ==> normalize_email_spec(#[trigger] p[k].email) != n@,
        decreases i,
    {
        proof {
            lemma_views_index(es@, i - 1);
        }
        let e = normalized_chars(&es[i - 1].email);
        if chars_eq(e.as_slice(), n.as_slice()) {
            proof {
                lemma_last_entry_with_is(p, n@, i - 1);
            }
            return Some(i - 1);
        }
        i = i - 1;
    }
    proof {
        lemma_last_entry_with_is(p, n@, -1);
    }
    None
}

/// Records the given addresses as imported at `imported_at`, then orders the
/// entries by address.
pub fn mark_accounts_imported_at(state: &mut AccountsState, imported_emails: &[String], imported_at: &str)
    ensures
        views(final(state).accounts@) == stable_sorted::<AccountStateEntry>(
            mark_all(views(old(state).accounts@), views(imported_emails@), imported_at@),
        ),
{
    let ghost orig = views(state.accounts@);
    let ghost ev = views(imported_emails@);
    let orig_len = state.accounts.len();
    let mut i: usize = 0;
    assert(ev.take(0) =~= Seq::<Seq<char>>::empty());
    while i < imported_emails.len()
        invariant
            orig == views(old(state).accounts@),
            ev == views(imported_emails@),
            orig_len == orig.len(),
            i <= imported_emails@.len(),
            views(state.accounts@) == mark_all(orig, ev.take(i as int), imported_at@),
        decreases imported_emails@.len() - i,
    {
        proof {
            lemma_views_index(imported_emails@, i as int);
            let t = ev.take(i + 1int);
            assert(t.drop_last() =~= ev.take(i as int));
            assert(t.last() == imported_emails@[i as int]@);
            lemma_mark_all_keeps_prefix_emails(orig, ev.take(i as int), imported_at@);
        }
        let n = normalized_chars(&imported_emails[i]);
        let pos = last_entry_position(&state.accounts, orig_len, &n);
        proof {
            let cur = views(state.accounts@);
            // The first `orig_len` entries still have their original addresses.
            assert forall|k: int| 0 <= k < orig_len implies #[trigger] cur.take(orig_len as int)[k].email
                == orig[k].email by {}
            lemma_last_entry_with_facts(cur.take(orig_len as int), n@);
            let li = last_entry_with(cur.take(orig_len as int), n@);
            assert forall|k: int| li < k < orig.len() implies normalize_email_spec(
                #[trigger] orig[k].email,
            ) != n@ by {
                assert(cur.take(orig_len as int)[k].email == orig[k].email);
            }
            if li >= 0 {
                assert(cur.take(orig_len as int)[li].email == orig[li].email);
            }
            lemma_last_entry_with_is(orig, n@, li);
        }
        if let Some(idx) = pos {
            proof {
                lemma_views_index(state.accounts@, idx as int);
            }
            let entry = AccountStateEntry {
                email: state.accounts[idx].email.clone(),
                imported: true,
                imported_at: Some(crate::text::owned(imported_at)),
            };
            let ghost before = views(state.accounts@);
            state.accounts.set(idx, entry);
            assert(views(state.accounts@) =~= before.update(
                idx as int,
                AccountStateEntryView { imported: true, imported_at: Some(imported_at@), ..before[idx as int] },
            ));
        } else {
            let entry = AccountStateEntry {
                email: string_of(n.as_slice()),
                imported: true,
                imported_at: Some(crate::text::owned(imported_at)),
            };
            let ghost before = views(state.accounts@);
            state.accounts.push(entry);
            assert(views(state.accounts@) =~= before.push(
                AccountStateEntryView { email: n@, imported: true, imported_at: Some(imported_at@) },
            ));
        }
        i = i + 1;
    }
    assert(ev.take(i as int) =~= ev);
    let mut accounts: Vec<AccountStateEntry> = Vec::new();
    std::mem::swap(&mut accounts, &mut state.accounts);
    state.accounts = stable_sort(accounts);
}


/// The message of an operation that needs the current time when the clock
/// reads a time that cannot be written.
pub open spec fn clock_error_message() -> Seq<char> {
    "系统时间超出可表示的范围"@
}

/// Records the given addresses as imported now, then orders the entries by
/// address. When the clock reads a time that cannot be written, nothing
/// changes and the answer is an error.
pub fn mark_accounts_imported(state: &mut AccountsState, imported_emails: &[String]) -> (r: Result<(), AppError>)
    ensures
        r is Ok ==> exists|ts: Seq<char>|
            rfc3339_utc_seconds(ts) && views(final(state).accounts@) == stable_sorted::<
                AccountStateEntry,
            >(#[trigger] mark_all(views(old(state).accounts@), views(imported_emails@), ts)),
        r matches Err(e) ==> e.message() == clock_error_message() && final(state).accounts@
            == old(state).accounts@,
{
    match now_rfc3339() {
        Some(imported_at) => {
            mark_accounts_imported_at(state, imported_emails, imported_at.as_str());
            Ok(())
        },
        None => Err(AppError::new(crate::text::owned("系统时间超出可表示的范围"))),
    }
}

/// Records a freshly generated address: an entry with that address (compared
/// normalised) is given the normalised form and its import flag is the
/// answer; otherwise a new entry, not imported, is added, the entries are
/// ordered by address, and the answer is `false`.
pub open spec fn track_spec(es: Seq<AccountStateEntryView>, email: Seq<char>) -> (Seq<AccountStateEntryView>, bool) {
    let n = normalize_email_spec(email);
    let i = first_entry_with(es, n);
    if i < es.len() {
        (es.update(i, AccountStateEntryView { email: n, ..es[i] }), es[i].imported)
    } else {
        (
            stable_sorted::<AccountStateEntry>(
                es.push(AccountStateEntryView { email: n, imported: false, imported_at: None }),
            ),
            false,
        )
    }
}

proof fn lemma_first_entry_with_is(es: Seq<AccountStateEntryView>, n: Seq<char>, i: int)
    requires
        0 <= i <= es.len(),
        forall|k: int| 0 <= k < i ==> normalize_email_spec(#[trigger] es[k].email) != n,
        i < es.len() ==> normalize_email_spec(es[i].email) == n,
    ensures
        first_entry_with(es, n) == i,
    decreases i,
{
    if i > 0 {
        assert forall|k: int| 0 <= k < i - 1 implies normalize_email_spec(
            #[trigger] es.drop_first()[k].email,
        ) != n by {
            assert(es.drop_first()[k] == es[k + 1]);
        }
        if i - 1 < es.drop_first().len() {
            assert(es.drop_first()[i - 1] == es[i]);
        }
        lemma_first_entry_with_is(es.drop_first(), n, i - 1);
    }
}

/// Records a generated address and says whether it was already imported.
pub fn track_generated_account(state: &mut AccountsState, email: &str) -> (r: bool)
    ensures
        (views(final(state).accounts@), r) == track_spec(views(old(state).accounts@), email@),
{
    let ghost es = views(state.accounts@);
    let n = normalized_chars(&crate::text::owned(email));
    let mut i: usize = 0;
    while i < state.accounts.len()
        invariant
            es == views(state.accounts@),
            es == views(old(state).accounts@),
            n@ == normalize_email_spec(email@),
            i <= state.accounts@.len(),
            forall|k: int| 0 <= k < i ==> normalize_email_spec(#[trigger] es[k].email) != n@,
        decreases state.accounts@.len() - i,
    {
        proof {
            lemma_views_index(state.accounts@, i as int);
        }
        let e = normalized_chars(&state.accounts[i].email);
        if chars_eq(e.as_slice(), n.as_slice()) {
            proof {
                lemma_first_entry_with_is(es, n@, i as int);
            }
            let imported = state.accounts[i].imported;
            let entry = AccountStateEntry {
                email: string_of(n.as_slice()),
                imported,
                imported_at: state.accounts[i].imported_at.clone(),
            };
            assert(opt_chars(entry.imported_at) == es[i as int].imported_at);
            state.accounts.set(i, entry);
            assert(views(state.accounts@) =~= es.update(
                i as int,
                AccountStateEntryView { email: n@, ..es[i as int] },
            ));
            return imported;
        }
        i = i + 1;
    }
    proof {
        lemma_first_entry_with_is(es, n@, i as int);
    }
    state.accounts.push(AccountStateEntry { email: string_of(n.as_slice()), imported: false, imported_at: None });
    assert(views(state.accounts@) =~= es.push(
        AccountStateEntryView { email: n@, imported: false, imported_at: None },
    ));
    let mut accounts: Vec<AccountStateEntry> = Vec::new();
    std::mem::swap(&mut accounts, &mut state.accounts);
    state.accounts = stable_sort(accounts);
    false
}

/// Law: normalising an address twice gives what normalising once gives.
pub proof fn lemma_normalize_email_idempotent(e: Seq<char>)
    ensures
        normalize_email_spec(normalize_email_spec(e)) == normalize_email_spec(e),
{
    lemma_trim_lower(trim(e));
    lemma_trim_idempotent(e);
}

/// The records keep each address once, normalised.
pub open spec fn entries_wf(es: Seq<AccountStateEntryView>) -> bool {
    &&& forall|i: int| 0 <= i < es.len() ==> normalize_email_spec(#[trigger] es[i].email) == es[i].email
    &&& forall|i: int, j: int| 0 <= i < j < es.len() ==> (#[trigger] es[i]).email != (#[trigger] es[j]).email
}

proof fn lemma_first_entry_with_facts(es: Seq<AccountStateEntryView>, n: Seq<char>)
    ensures
        0 <= first_entry_with(es, n) <= es.len(),
        forall|k: int| 0 <= k < first_entry_with(es, n) ==> normalize_email_spec(#[trigger] es[k].email) != n,
        first_entry_with(es, n) < es.len() ==> normalize_email_spec(es[first_entry_with(es, n)].email) == n,
    decreases es.len(),
{
    if es.len() > 0 && normalize_email_spec(es[0].email) != n {
        lemma_first_entry_with_facts(es.drop_first(), n);
        assert forall|k: int| 0 <= k < first_entry_with(es, n) implies normalize_email_spec(
            #[trigger] es[k].email,
        ) != n by {
            if k > 0 {
                assert(es[k] == es.drop_first()[k - 1]);
            }
        }
        if first_entry_with(es, n) < es.len() {
            assert(es[first_entry_with(es, n)] == es.drop_first()[first_entry_with(es, n) - 1]);
        }
    }
}

/// In well-formed records the one entry with address `n` is the last one.
proof fn lemma_wf_last_entry(es: Seq<AccountStateEntryView>, i: int)
    requires
        entries_wf(es),
        0 <= i < es.len(),
    ensures
        last_entry_with(es, es[i].email) == i,
{
    assert forall|k: int| i < k < es.len() implies normalize_email_spec(#[trigger] es[k].email) != es[i].email by {
        assert(es[i].email != es[k].email);
    }
    lemma_last_entry_with_is(es, es[i].email, i);
}

proof fn lemma_sorted_entries_wf(t: Seq<AccountStateEntryView>)
    requires
        entries_wf(t),
    ensures
        entries_wf(stable_sorted::<AccountStateEntry>(t)),
{
    broadcast use vstd::seq_lib::group_to_multiset_ensures;

    let r = stable_sorted::<AccountStateEntry>(t);
    lemma_stable_sorted_is_permutation::<AccountStateEntry>(t);
    lemma_stable_sorted_from_input::<AccountStateEntry>(t);
    assert(t.no_duplicates());
    t.lemma_multiset_has_no_duplicates();
    r.lemma_multiset_has_no_duplicates_conv();
    assert forall|i: int| 0 <= i < r.len() implies normalize_email_spec(#[trigger] r[i].email) == r[i].email by {
        assert(t.contains(r[i]));
    }
    assert forall|i: int, j: int| 0 <= i < j < r.len() implies (#[trigger] r[i]).email != (
    #[trigger] r[j]).email by {
        assert(t.contains(r[i]));
        assert(t.contains(r[j]));
        let a = choose|a: int| 0 <= a < t.len() && t[a] == r[i];
        let b = choose|b: int| 0 <= b < t.len() && t[b] == r[j];
        assert(r[i] != r[j]);
        if a < b {
            assert(t[a].email != t[b].email);
        } else {
            assert(t[b].email != t[a].email);
        }
    }
}

/// Law: in records that keep each address once, normalised, tracking an
/// address keeps them so, and the address then reads back with the import
/// flag that tracking answered.
pub proof fn lemma_tracked_address_reads_back(es: Seq<AccountStateEntryView>, email: Seq<char>)
    requires
        entries_wf(es),
    ensures
        entries_wf(track_spec(es, email).0),
        imported_of(track_spec(es, email).0, normalize_email_spec(email)) == track_spec(es, email).1,
{
    broadcast use vstd::seq_lib::group_to_multiset_ensures;

    let n = normalize_email_spec(email);
    lemma_normalize_email_idempotent(email);
    lemma_first_entry_with_facts(es, n);
    let i = first_entry_with(es, n);
    if i < es.len() {
        assert(es.update(i, AccountStateEntryView { email: n, ..es[i] }) =~= es);
        lemma_wf_last_entry(es, i);
    } else {
        let e = AccountStateEntryView { email: n, imported: false, imported_at: None };
        let t = es.push(e);
        assert forall|k: int| 0 <= k < t.len() implies normalize_email_spec(#[trigger] t[k].email) == t[k].email by {
            if k < es.len() {
                assert(t[k] == es[k]);
            }
        }
        assert forall|a: int, b: int| 0 <= a < b < t.len() implies (#[trigger] t[a]).email != (
        #[trigger] t[b]).email by {
            assert(t[a] == es[a]);
            if b < es.len() {
                assert(t[b] == es[b]);
            }
        }
        lemma_sorted_entries_wf(t);
        let r = stable_sorted::<AccountStateEntry>(t);
        lemma_stable_sorted_is_permutation::<AccountStateEntry>(t);
        assert(t[es.len() as int] == e);
        assert(t.to_multiset().count(e) > 0);
        assert(r.contains(e));
        let q = choose|q: int| 0 <= q < r.len() && r[q] == e;
        lemma_wf_last_entry(r, q);
    }
}

spec fn reads_marked(m: Seq<AccountStateEntryView>, orig: Seq<AccountStateEntryView>, n: Seq<char>) -> bool {
    if last_entry_with(orig, n) >= 0 {
        m[last_entry_with(orig, n)].imported
    } else {
        exists|i: int| orig.len() <= i < m.len() && (#[trigger] m[i]).email == n
    }
}

proof fn lemma_mark_all_facts(orig: Seq<AccountStateEntryView>, emails: Seq<Seq<char>>, ts: Seq<char>)
    ensures
        ({
            let m = mark_all(orig, emails, ts);
            &&& m.len() >= orig.len()
            &&& forall|i: int| 0 <= i < orig.len() ==> (#[trigger] m[i]).email == orig[i].email
            &&& forall|i: int|
                orig.len() <= i < m.len() ==> normalize_email_spec((#[trigger] m[i]).email) == m[i].email
                    && m[i].imported
            &&& forall|j: int| 0 <= j < emails.len() ==> reads_marked(m, orig, normalize_email_spec(#[trigger] emails[j]))
        }),
    decreases emails.len(),
{
    lemma_mark_all_keeps_prefix_emails(orig, emails, ts);
    if emails.len() > 0 {
        let front = emails.drop_last();
        lemma_mark_all_facts(orig, front, ts);
        let m0 = mark_all(orig, front, ts);
        let m = mark_all(orig, emails, ts);
        let nl = normalize_email_spec(emails.last());
        lemma_last_entry_with_facts(orig, nl);
        lemma_normalize_email_idempotent(emails.last());
        let idx = last_entry_with(orig, nl);
        assert(m == mark_one(m0, orig, emails.last(), ts));
        assert forall|i: int| orig.len() <= i < m.len() implies normalize_email_spec((#[trigger] m[i]).email)
            == m[i].email && m[i].imported by {
            if i < m0.len() {
                assert(m[i] == m0[i]);
            }
        }
        assert forall|j: int| 0 <= j < emails.len() implies reads_marked(
            m,
            orig,
            normalize_email_spec(#[trigger] emails[j]),
        ) by {
            let n = normalize_email_spec(emails[j]);
            if j < emails.len() - 1 {
                assert(emails[j] == front[j]);
                assert(reads_marked(m0, orig, n));
                lemma_last_entry_with_facts(orig, n);
                if last_entry_with(orig, n) < 0 {
                    let i = choose|i: int| orig.len() <= i < m0.len() && (#[trigger] m0[i]).email == n;
                    assert(m[i] == m0[i]);
                }
            } else {
                if idx < 0 {
                    assert(m[m0.len() as int].email == nl);
                }
            }
        }
    }
}

/// Law: in records that keep each address once, normalised, every address
/// that was marked imported reads as imported afterwards.
pub proof fn lemma_marked_addresses_read_imported(
    orig: Seq<AccountStateEntryView>,
    emails: Seq<Seq<char>>,
    ts: Seq<char>,
    k: int,
)
    requires
        entries_wf(orig),
        0 <= k < emails.len(),
    ensures
        imported_of(
            stable_sorted::<AccountStateEntry>(mark_all(orig, emails, ts)),
            normalize_email_spec(emails[k]),
        ),
{
    broadcast use vstd::seq_lib::group_to_multiset_ensures;

    let m = mark_all(orig, emails, ts);
    let n = normalize_email_spec(emails[k]);
    lemma_mark_all_facts(orig, emails, ts);
    assert(reads_marked(m, orig, normalize_email_spec(emails[k])));
    lemma_last_entry_with_facts(orig, n);
    let idx = last_entry_with(orig, n);
    // every entry of `m` is normalised, and those with address `n` are imported
    assert forall|i: int| 0 <= i < m.len() implies normalize_email_spec(#[trigger] m[i].email) == m[i].email
        && (m[i].email == n ==> m[i].imported) by {
        if i < orig.len() {
            assert(m[i].email == orig[i].email);
            if m[i].email == n {
                lemma_wf_last_entry(orig, i);
            }
        }
    }
    // some entry of `m` has address `n`
    let w = if idx >= 0 {
        assert(m[idx].email == orig[idx].email);
        idx
    } else {
        choose|i: int| orig.len() <= i < m.len() && (#[trigger] m[i]).email == n
    };
    assert(m[w].email == n);
    let r = stable_sorted::<AccountStateEntry>(m);
    lemma_stable_sorted_is_permutation::<AccountStateEntry>(m);
    lemma_stable_sorted_from_input::<AccountStateEntry>(m);
    assert(m.to_multiset().count(m[w]) > 0);
    assert(r.contains(m[w]));
    let q = choose|q: int| 0 <= q < r.len() && r[q] == m[w];
    lemma_last_entry_with_facts(r, n);
    let l = last_entry_with(r, n);
    if l < 0 {
        assert(normalize_email_spec(r[q].email) != n);
        assert(false);
    }
    assert(m.contains(r[l]));
    let a = choose|a: int| 0 <= a < m.len() && m[a] == r[l];
    assert(normalize_email_spec(m[a].email) == m[a].email);
}

/// Law: in records that keep each address once, normalised and in order,
/// tracking an address keeps them so. The answer is whether the entry with
/// the normalised address is marked imported, and exactly one entry has that
/// address afterwards. A known address leaves the records as they were; a
/// new one adds one entry, not imported and with no import time.
pub proof fn lemma_track_generated_account_law(es: Seq<AccountStateEntryView>, email: Seq<char>)
    requires
        entries_wf(es),
        is_ordered::<AccountStateEntry>(es),
    ensures
        ({
            let (t, r) = track_spec(es, email);
            let m = normalize_email_spec(email);
            &&& entries_wf(t)
            &&& is_ordered::<AccountStateEntry>(t)
            &&& r == (exists|i: int| 0 <= i < es.len() && (#[trigger] es[i]).email == m && es[i].imported)
            &&& exists|i: int| 0 <= i < t.len() && (#[trigger] t[i]).email == m
            &&& (exists|i: int| 0 <= i < es.len() && (#[trigger] es[i]).email == m) ==> t == es
            &&& !(exists|i: int| 0 <= i < es.len() && (#[trigger] es[i]).email == m) ==> {
                &&& t.len() == es.len() + 1
                &&& t.contains(AccountStateEntryView { email: m, imported: false, imported_at: None })
            }
        }),
{
    broadcast use vstd::seq_lib::group_to_multiset_ensures;

    lemma_tracked_address_reads_back(es, email);
    let m = normalize_email_spec(email);
    lemma_normalize_email_idempotent(email);
    lemma_first_entry_with_facts(es, m);
    let i = first_entry_with(es, m);
    let (t, r) = track_spec(es, email);
    if i < es.len() {
        assert(es[i].email == m);
        assert(es.update(i, AccountStateEntryView { email: m, ..es[i] }) =~= es);
        assert forall|j: int| 0 <= j < es.len() && (#[trigger] es[j]).email == m && es[j].imported implies r by {
            if j != i {
                if j < i {
                    assert(es[j].email != es[i].email);
                } else {
                    assert(es[i].email != es[j].email);
                }
            }
        }
    } else {
        assert forall|j: int| 0 <= j < es.len() implies (#[trigger] es[j]).email != m by {
            assert(normalize_email_spec(es[j].email) != m);
        }
        let e = AccountStateEntryView { email: m, imported: false, imported_at: None };
        let u = es.push(e);
        lemma_stable_sorted_is_ordered::<AccountStateEntry>(u);
        lemma_stable_sorted_is_permutation::<AccountStateEntry>(u);
        assert(t.to_multiset().len() == u.to_multiset().len());
        assert(u[es.len() as int] == e);
        assert(u.to_multiset().count(e) > 0);
        assert(t.contains(e));
        let q = choose|q: int| 0 <= q < t.len() && t[q] == e;
        assert(t[q].email == m);
    }
}

/// A generated account found among the Codex token files.
#[derive(Debug, Clone)]
pub struct DiscoveredCodexAccount {
    pub email: String,
    pub created_at: String,
}

pub struct DiscoveredView {
    pub email: Seq<char>,
    pub created_at: Seq<char>,
}

impl View for DiscoveredCodexAccount {
    type V = DiscoveredView;

    open spec fn view(&self) -> DiscoveredView {
        DiscoveredView { email: self.email@, created_at: self.created_at@ }
    }
}

/// What a Codex token file says of its account.
#[derive(Debug)]
pub enum TokenFileAccount {
    /// The token holds no address: the file stands for no account.
    NoAddress,
    /// The account, created at the file's `last_refresh`.
    Dated(DiscoveredCodexAccount),
    /// The account with this address, whose `last_refresh` is blank: it
    /// was created when the file was last modified.
    Undated(String),
}

/// Reads the account of a Codex token file from its `id_token` and
/// `last_refresh`: none when the token holds no address; created at
/// `last_refresh`, or, when that is blank, undated (the file's modification
/// time stands for it). A token whose address cannot be read is an error.
pub fn discovered_account(id_token: &str, last_refresh: &str) -> (r: Result<TokenFileAccount, AppError>)
    ensures
        match id_token_email_spec(id_token@) {
            None => r is Err && id_token_error_spec(id_token@, r->Err_0.message()),
            Some(e) => if e.len() == 0 {
                r matches Ok(TokenFileAccount::NoAddress)
            } else if trim(last_refresh@).len() == 0 {
                r matches Ok(TokenFileAccount::Undated(a)) && a@ == e
            } else {
                r matches Ok(TokenFileAccount::Dated(d)) && d.email@ == e && d.created_at@
                    == last_refresh@
            },
        },
{
    let email = extract_email_from_id_token(id_token)?;
    if chars_of(email.as_str()).len() == 0 {
        return Ok(TokenFileAccount::NoAddress);
    }
    if trim_chars(chars_of(last_refresh).as_slice()).len() == 0 {
        return Ok(TokenFileAccount::Undated(email));
    }
    Ok(TokenFileAccount::Dated(DiscoveredCodexAccount { email, created_at: crate::text::owned(last_refresh) }))
}

/// Accounts are listed newest first, then by address.
impl SortKey for AvailableAccount {
    open spec fn key_lt(a: AvailableAccountView, b: AvailableAccountView) -> bool {
        ||| lex_lt(b.created_at, a.created_at)
        ||| a.created_at == b.created_at && lex_lt(a.email, b.email)
    }

    fn sorts_before(&self, other: &Self) -> (r: bool) {
        let a = chars_of_string(&self.created_at);
        let b = chars_of_string(&other.created_at);
        if chars_lt(b.as_slice(), a.as_slice()) {
            return true;
        }
        if !chars_eq(a.as_slice(), b.as_slice()) {
            return false;
        }
        let ea = chars_of_string(&self.email);
        let eb = chars_of_string(&other.email);
        chars_lt(ea.as_slice(), eb.as_slice())
    }

    proof fn lemma_key_lt_irreflexive(a: AvailableAccountView) {
        lemma_lex_lt_irreflexive(a.created_at);
        lemma_lex_lt_irreflexive(a.email);
    }

    proof fn lemma_key_lt_transitive(a: AvailableAccountView, b: AvailableAccountView, c: AvailableAccountView) {
        if lex_lt(b.created_at, a.created_at) && lex_lt(c.created_at, b.created_at) {
            lemma_lex_lt_transitive(c.created_at, b.created_at, a.created_at);
        }
        if a.created_at == b.created_at && b.created_at == c.created_at && lex_lt(a.email, b.email)
            && lex_lt(b.email, c.email) {
            lemma_lex_lt_transitive(a.email, b.email, c.email);
        }
    }
}

/// Whether the records mark `email` as imported: the last entry whose
/// normalised address is `email` decides; no entry means not imported.
pub open spec fn imported_of(es: Seq<AccountStateEntryView>, email: Seq<char>) -> bool {
    let i = last_entry_with(es, email);
    if i >= 0 {
        es[i].imported
    } else {
        false
    }
}

/// The accounts to offer: each discovered account with its import flag,
/// newest first, then by address.
pub open spec fn available_spec(es: Seq<AccountStateEntryView>, ds: Seq<DiscoveredView>) -> Seq<AvailableAccountView> {
    stable_sorted::<AvailableAccount>(
        ds.map_values(
            |d: DiscoveredView|
                AvailableAccountView {
                    email: d.email,
                    created_at: d.created_at,
                    imported: imported_of(es, d.email),
                },
        ),
    )
}

/// Lists the discovered accounts with their import flags from the records,
/// newest first.
pub fn available_accounts(state: &AccountsState, discovered: Vec<DiscoveredCodexAccount>) -> (r: Vec<AvailableAccount>)
    ensures
        views(r@) == available_spec(views(state.accounts@), views(discovered@)),
{
    let ghost es = views(state.accounts@);
    let ghost dv = views(discovered@);
    let ghost f = |d: DiscoveredView|
        AvailableAccountView { email: d.email, created_at: d.created_at, imported: imported_of(es, d.email) };
    let mut out: Vec<AvailableAccount> = Vec::new();
    let mut i: usize = 0;
    while i < discovered.len()
        invariant
            es == views(state.accounts@),
            dv == views(discovered@),
            f == (|d: DiscoveredView|
                AvailableAccountView {
                    email: d.email,
                    created_at: d.created_at,
                    imported: imported_of(es, d.email),
                }),
            i <= discovered@.len(),
            views(out@) == dv.take(i as int).map_values(f),
        decreases discovered@.len() - i,
    {
        proof {
            lemma_views_index(discovered@, i as int);
        }
        let d = &discovered[i];
        let key = chars_of_string(&d.email);
        let pos = last_entry_position(&state.accounts, state.accounts.len(), &key);
        proof {
            assert(es.take(es.len() as int) =~= es);
            lemma_last_entry_with_facts(es, key@);
        }
        let imported = match pos {
            Some(k) => {
                proof {
                    lemma_views_index(state.accounts@, k as int);
                }
                state.accounts[k].imported
            },
            None => false,
        };
        let a = AvailableAccount { email: d.email.clone(), created_at: d.created_at.clone(), imported };
        let ghost before = views(out@);
        out.push(a);
        assert(views(out@) =~= dv.take(i + 1int).map_values(f)) by {
            assert(views(out@) =~= before.push(a@));
            assert(dv.take(i + 1int) =~= dv.take(i as int).push(dv[i as int]));
        }
        i = i + 1;
    }
    assert(dv.take(i as int) =~= dv);
    stable_sort(out)
}

/// The requested addresses that are among the available ones, in order.
pub fn importable_emails(requested: &[String], available: &[String]) -> (r: Vec<String>)
    ensures
        views(r@) == views(requested@).filter(|e: Seq<char>| views(available@).contains(e)),
{
    let ghost rv = views(requested@);
    let ghost av = views(available@);
    let ghost pred = |e: Seq<char>| av.contains(e);
    let mut out: Vec<String> = Vec::new();
    let mut i: usize = 0;
    assert(rv.take(0).filter(pred) =~= Seq::<Seq<char>>::empty());
    assert(views(out@) =~= Seq::<Seq<char>>::empty());
    while i < requested.len()
        invariant
            rv == views(requested@),
            av == views(available@),
            pred == (|e: Seq<char>| av.contains(e)),
            i <= requested@.len(),
            views(out@) == rv.take(i as int).filter(pred),
        decreases requested@.len() - i,
    {
        proof {
            lemma_views_index(requested@, i as int);
            let t = rv.take(i + 1int);
            assert(t.drop_last() =~= rv.take(i as int));
            assert(t.last() == requested@[i as int]@);
            reveal_with_fuel(Seq::<_>::filter, 1);
        }
        let mut j: usize = 0;
        let mut found = false;
        while j < available.len()
            invariant
                av == views(available@),
                j <= available@.len(),
                found ==> av.contains(requested@[i as int]@),
                !found ==> forall|k: int| 0 <= k < j ==> av[k] != requested@[i as int]@,
                i < requested@.len(),
            decreases available@.len() - j,
        {
            proof {
                lemma_views_index(available@, j as int);
            }
            if !found && available[j] == requested[i] {
                found = true;
                assert(av[j as int] == requested@[i as int]@);
            }
            j = j + 1;
        }
        if found {
            let ghost before = views(out@);
            out.push(requested[i].clone());
            assert(views(out@) =~= before.push(rv[i as int]));
        }
        i = i + 1;
    }
    assert(rv.take(i as int) =~= rv);
    out
}


/// The result of an import in which nothing was imported: every requested
/// address counts as skipped.
pub fn nothing_imported(requested: usize) -> (r: ImportResult)
    ensures
        r.requested == requested,
        r.imported == 0,
        r.skipped == requested,
        r.failed == 0,
        r.emails@.len() == 0,
{
    ImportResult { requested, imported: 0, skipped: requested, failed: 0, emails: Vec::new() }
}

/// The addresses that the import script reports as present in Codex: those
/// it added and those it found there already, normalised and without
/// repeats.
pub fn imported_from_summary(added: Vec<String>, skipped_existing: Vec<String>) -> (r: Vec<String>)
    ensures
        views(r@) == unique_emails_spec(views(added@) + views(skipped_existing@)),
{
    let mut all = added;
    let ghost a = views(all@);
    let mut rest = skipped_existing;
    let ghost b = views(rest@);
    all.append(&mut rest);
    assert(views(all@) =~= a + b);
    unique_emails(all)
}

/// `a - b`, or 0 when `b` is larger.
pub open spec fn saturating_sub_spec(a: int, b: int) -> int {
    if a >= b {
        a - b
    } else {
        0
    }
}

/// How an import ended: an error when the script failed and nothing was
/// imported; otherwise the counts, where the skipped ones are those
/// requested but neither imported nor failed (never below zero).
pub open spec fn import_outcome_spec(
    requested: usize,
    imported: Seq<Seq<char>>,
    failed: usize,
    script_succeeded: bool,
    output_summary: Seq<char>,
) -> Result<(usize, usize, usize, usize, Seq<Seq<char>>), Seq<char>> {
    if !script_succeeded && imported.len() == 0 {
        Err("导入脚本执行失败: "@ + output_summary)
    } else {
        Ok(
            (
                requested,
                imported.len() as usize,
                saturating_sub_spec(requested as int, imported.len() + failed) as usize,
                failed,
                imported,
            ),
        )
    }
}

pub open spec fn import_result_view(r: Result<ImportResult, AppError>) -> Result<(usize, usize, usize, usize, Seq<Seq<char>>), Seq<char>> {
    match r {
        Ok(x) => Ok((x.requested, x.imported, x.skipped, x.failed, views(x.emails@))),
        Err(e) => Err(e.message()),
    }
}

/// The result of an import from the addresses now in Codex, the number of
/// files the script could not import, whether the script succeeded and the
/// summary of its output.
pub fn import_outcome(
    requested: usize,
    imported_emails: Vec<String>,
    failed: usize,
    script_succeeded: bool,
    output_summary: &str,
) -> (r: Result<ImportResult, AppError>)
    ensures
        import_result_view(r) == import_outcome_spec(
            requested,
            views(imported_emails@),
            failed,
            script_succeeded,
            output_summary@,
        ),
{
    if !script_succeeded && imported_emails.len() == 0 {
        let m = concat(chars_of("导入脚本执行失败: ").as_slice(), chars_of(output_summary).as_slice());
        return Err(AppError::new(string_of(m.as_slice())));
    }
    let n = imported_emails.len();
    let used = if n > usize::MAX - failed {
        usize::MAX
    } else {
        n + failed
    };
    let skipped = if requested >= used {
        requested - used
    } else {
        0
    };
    Ok(ImportResult { requested, imported: n, skipped, failed, emails: imported_emails })
}

/// The payload of the last line that starts with `SUMMARY_JSON:`.
pub open spec fn last_summary_payload(ls: Seq<Seq<char>>) -> Option<Seq<char>>
    decreases ls.len(),
{
    if ls.len() == 0 {
        None
    } else if starts_with(ls.last(), "SUMMARY_JSON:"@) {
        Some(ls.last().skip(13))
    } else {
        last_summary_payload(ls.drop_last())
    }
}

/// The JSON payload of the import script's last `SUMMARY_JSON:` line.
pub fn summary_json_payload(stdout: &str) -> (r: Option<String>)
    ensures
        opt_chars(r) == last_summary_payload(lines(stdout@)),
{
    let chars = chars_of(stdout);
    let ls = split_lines(chars.as_slice());
    let ghost lv = views(ls@);
    let prefix = chars_of("SUMMARY_JSON:");
    proof {
        reveal_strlit("SUMMARY_JSON:");
    }
    let mut i: usize = ls.len();
    assert(lv.take(i as int) =~= lv);
    while i > 0
        invariant
            lv == views(ls@),
            prefix@ == "SUMMARY_JSON:"@,
            prefix@.len() == 13,
            lv == lines(stdout@),
            i <= ls@.len(),
            last_summary_payload(lv) == last_summary_payload(lv.take(i as int)),
        decreases i,
    {
        proof {
            lemma_views_index(ls@, i - 1);
            let t = lv.take(i as int);
            assert(t.drop_last() =~= lv.take(i - 1));
            assert(t.last() == lv[i - 1]);
        }
        if chars_start_with(ls[i - 1].as_slice(), prefix.as_slice()) {
            let payload = slice_of(ls[i - 1].as_slice(), 13, ls[i - 1].len());
            assert(payload@ =~= lv[i - 1].skip(13));
            assert(lv.take(i as int).last() == lv[i - 1]);
            assert(starts_with(lv.take(i as int).last(), "SUMMARY_JSON:"@));
            assert(last_summary_payload(lv.take(i as int)) == Some(lv[i - 1].skip(13)));
            return Some(string_of(payload.as_slice()));
        }
        i = i - 1;
    }
    None
}

} // verus!
