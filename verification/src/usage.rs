//! Checking an account's usage: which outcome of the usage request calls for
//! refreshing the credentials, and the sequence of requests that ends in a
//! [`UsageUpdate`].
use vstd::prelude::*;
use crate::accounts_store::{UsageUpdate, UsageUpdateView, or_else};
use crate::models::{ExtractedAuth, ExtractedAuthView};
use crate::ssh::opt_chars;
use crate::text::{chars_contain, chars_of, chars_of_string, concat, contains_seq, lower, string_of, to_lower};

verus! {

/// What the usage endpoint answered: the plan it reports and the usage
/// snapshot `U`.
pub struct FetchedUsage<U> {
    pub plan_type: Option<String>,
    pub usage: U,
}

pub struct FetchedView<U> {
    pub plan_type: Option<Seq<char>>,
    pub usage: U,
}

impl<U> View for FetchedUsage<U> {
    type V = FetchedView<U>;

    open spec fn view(&self) -> FetchedView<U> {
        FetchedView { plan_type: opt_chars(self.plan_type), usage: self.usage }
    }
}

pub open spec fn fetch_view<U>(r: Result<FetchedUsage<U>, String>) -> Result<FetchedView<U>, Seq<char>> {
    match r {
        Ok(f) => Ok(f@),
        Err(e) => Err(e@),
    }
}

/// A usage request is retried with refreshed credentials when it reported
/// no plan, or failed with an error that mentions (in any ASCII case)
/// `401`, `unauthorized`, `invalid_token` or `expired`.
pub open spec fn should_retry_spec<U>(r: Result<FetchedView<U>, Seq<char>>) -> bool {
    match r {
        Ok(f) => f.plan_type is None,
        Err(e) => {
            let n = lower(e);
            contains_seq(n, "401"@) || contains_seq(n, "unauthorized"@) || contains_seq(
                n,
                "invalid_token"@,
            ) || contains_seq(n, "expired"@)
        },
    }
}

/// Whether the outcome of a usage request calls for refreshing the
/// credentials and asking again.
pub fn should_retry_with_token_refresh<U>(fetch_result: &Result<FetchedUsage<U>, String>) -> (r: bool)
    ensures
        r == should_retry_spec(fetch_view(*fetch_result)),
{
    match fetch_result {
        Ok(snapshot) => snapshot.plan_type.is_none(),
        Err(err) => {
            let n = to_lower(chars_of_string(err).as_slice());
            chars_contain(n.as_slice(), chars_of("401").as_slice()) || chars_contain(
                n.as_slice(),
                chars_of("unauthorized").as_slice(),
            ) || chars_contain(n.as_slice(), chars_of("invalid_token").as_slice())
                || chars_contain(n.as_slice(), chars_of("expired").as_slice())
        },
    }
}

/// The step a usage check waits on.
#[derive(Clone, Copy, PartialEq, Eq, Debug)]
pub enum UsagePhase {
    /// The account data read from the given credentials.
    FirstAuth,
    /// The first usage request.
    FirstFetch,
    /// The refresh of the credentials.
    Refresh,
    /// The account data read from the refreshed credentials.
    RefreshedAuth,
    /// The usage request with the refreshed credentials.
    SecondFetch,
    /// Nothing: the check is over.
    Done,
}

/// The outcome of the step a usage check waited on.
pub enum UsageEvent<U> {
    Extracted(Result<ExtractedAuth, String>),
    Fetched(Result<FetchedUsage<U>, String>),
    Refreshed(Result<serde_json::Value, String>),
}

pub enum UsageEventView<U> {
    Extracted(Result<ExtractedAuthView, Seq<char>>),
    Fetched(Result<FetchedView<U>, Seq<char>>),
    Refreshed(Result<serde_json::Value, Seq<char>>),
}

impl<U> View for UsageEvent<U> {
    type V = UsageEventView<U>;

    open spec fn view(&self) -> UsageEventView<U> {
        match self {
            UsageEvent::Extracted(r) => UsageEventView::Extracted(
                match r {
                    Ok(a) => Ok(a@),
                    Err(e) => Err(e@),
                },
            ),
            UsageEvent::Fetched(r) => UsageEventView::Fetched(fetch_view(*r)),
            UsageEvent::Refreshed(r) => UsageEventView::Refreshed(
                match r {
                    Ok(v) => Ok(*v),
                    Err(e) => Err(e@),
                },
            ),
        }
    }
}

/// What a usage check asks for next.
pub enum UsageAction<U> {
    /// Read the account data out of these credentials.
    Extract(serde_json::Value),
    /// Request the usage with this token for this account.
    Fetch { access_token: String, account_id: String },
    /// Refresh these credentials.
    Refresh(serde_json::Value),
    /// The check is over, with this outcome.
    Done(UsageUpdate<U>),
}

pub enum UsageActionView<U> {
    Extract(serde_json::Value),
    Fetch { access_token: Seq<char>, account_id: Seq<char> },
    Refresh(serde_json::Value),
    Done(UsageUpdateView<U>),
}

impl<U> View for UsageAction<U> {
    type V = UsageActionView<U>;

    open spec fn view(&self) -> UsageActionView<U> {
        match self {
            UsageAction::Extract(v) => UsageActionView::Extract(*v),
            UsageAction::Fetch { access_token, account_id } => UsageActionView::Fetch {
                access_token: access_token@,
                account_id: account_id@,
            },
            UsageAction::Refresh(v) => UsageActionView::Refresh(*v),
            UsageAction::Done(u) => UsageActionView::Done(u@),
        }
    }
}

/// A usage check under way.
pub struct UsageResolver<U> {
    phase: UsagePhase,
    working: serde_json::Value,
    fallback_email: Option<String>,
    fallback_plan: Option<String>,
    extracted: Option<ExtractedAuth>,
    first_fetch: Option<Result<FetchedUsage<U>, String>>,
}

pub struct UsageResolverView<U> {
    pub phase: UsagePhase,
    pub working: serde_json::Value,
    pub fallback_email: Option<Seq<char>>,
    pub fallback_plan: Option<Seq<char>>,
    pub extracted: Option<ExtractedAuthView>,
    pub first_fetch: Option<Result<FetchedView<U>, Seq<char>>>,
}

impl<U> View for UsageResolver<U> {
    type V = UsageResolverView<U>;

    closed spec fn view(&self) -> UsageResolverView<U> {
        UsageResolverView {
            phase: self.phase,
            working: self.working,
            fallback_email: opt_chars(self.fallback_email),
            fallback_plan: opt_chars(self.fallback_plan),
            extracted: match self.extracted {
                Some(a) => Some(a@),
                None => None,
            },
            first_fetch: match self.first_fetch {
                Some(r) => Some(fetch_view(r)),
                None => None,
            },
        }
    }
}

/// The outcome of a check whose credentials could not be read.
pub open spec fn unreadable_spec<U>(v: UsageResolverView<U>, err: Seq<char>) -> UsageUpdateView<U> {
    UsageUpdateView {
        auth_json: v.working,
        email: v.fallback_email,
        plan_type: v.fallback_plan,
        usage: None,
        usage_error: Some(err),
    }
}

/// The outcome of a check whose refreshed credentials could not be read:
/// address and plan from the credentials read before, else the fallbacks.
pub open spec fn unreadable_refreshed_spec<U>(v: UsageResolverView<U>, a: ExtractedAuthView, err: Seq<char>) -> UsageUpdateView<U> {
    UsageUpdateView {
        auth_json: v.working,
        email: or_else(a.email, v.fallback_email),
        plan_type: or_else(a.plan_type, v.fallback_plan),
        usage: None,
        usage_error: Some(err),
    }
}

/// The outcome of a check from its last usage request: the usage, with the
/// plan the endpoint reports (else the credentials', else the fallback); or
/// the request's error, followed by the refresh's error when there was one.
pub open spec fn finish_spec<U>(
    v: UsageResolverView<U>,
    a: ExtractedAuthView,
    r: Result<FetchedView<U>, Seq<char>>,
    refresh_error: Option<Seq<char>>,
) -> UsageUpdateView<U> {
    match r {
        Ok(f) => UsageUpdateView {
            auth_json: v.working,
            email: or_else(a.email, v.fallback_email),
            plan_type: or_else(or_else(f.plan_type, a.plan_type), v.fallback_plan),
            usage: Some(f.usage),
            usage_error: None,
        },
        Err(e) => UsageUpdateView {
            auth_json: v.working,
            email: or_else(a.email, v.fallback_email),
            plan_type: or_else(a.plan_type, v.fallback_plan),
            usage: None,
            usage_error: Some(
                match refresh_error {
                    Some(re) => e + " | 令牌刷新失败: "@ + re,
                    None => e,
                },
            ),
        },
    }
}

/// One step of a usage check: the next state and what to do, or `None` when
/// the event is not the one awaited.
pub open spec fn step_spec<U>(v: UsageResolverView<U>, ev: UsageEventView<U>) -> Option<(UsageResolverView<U>, UsageActionView<U>)> {
    let done = UsageResolverView { phase: UsagePhase::Done, ..v };
    match (v.phase, ev) {
        (UsagePhase::FirstAuth, UsageEventView::Extracted(Err(err))) => Some(
            (done, UsageActionView::Done(unreadable_spec(v, err))),
        ),
        (UsagePhase::FirstAuth, UsageEventView::Extracted(Ok(a))) => Some(
            (
                UsageResolverView { phase: UsagePhase::FirstFetch, extracted: Some(a), ..v },
                UsageActionView::Fetch { access_token: a.access_token, account_id: a.account_id },
            ),
        ),
        (UsagePhase::FirstFetch, UsageEventView::Fetched(r)) => if v.extracted is None {
            None
        } else if should_retry_spec(r) {
            Some(
                (
                    UsageResolverView { phase: UsagePhase::Refresh, first_fetch: Some(r), ..v },
                    UsageActionView::Refresh(v.working),
                ),
            )
        } else {
            Some((done, UsageActionView::Done(finish_spec(v, v.extracted->0, r, None))))
        },
        (UsagePhase::Refresh, UsageEventView::Refreshed(Ok(w))) => Some(
            (
                UsageResolverView { phase: UsagePhase::RefreshedAuth, working: w, ..v },
                UsageActionView::Extract(w),
            ),
        ),
        (UsagePhase::Refresh, UsageEventView::Refreshed(Err(re))) => if v.extracted is None
            || v.first_fetch is None {
            None
        } else {
            Some(
                (
                    done,
                    UsageActionView::Done(
                        finish_spec(v, v.extracted->0, v.first_fetch->0, Some(re)),
                    ),
                ),
            )
        },
        (UsagePhase::RefreshedAuth, UsageEventView::Extracted(Ok(a))) => Some(
            (
                UsageResolverView { phase: UsagePhase::SecondFetch, extracted: Some(a), ..v },
                UsageActionView::Fetch { access_token: a.access_token, account_id: a.account_id },
            ),
        ),
        (UsagePhase::RefreshedAuth, UsageEventView::Extracted(Err(err))) => if v.extracted is None {
            None
        } else {
            Some((done, UsageActionView::Done(unreadable_refreshed_spec(v, v.extracted->0, err))))
        },
        (UsagePhase::SecondFetch, UsageEventView::Fetched(r)) => if v.extracted is None {
            None
        } else {
            Some((done, UsageActionView::Done(finish_spec(v, v.extracted->0, r, None))))
        },
        _ => None,
    }
}

/// The invariant of a check: the credentials' data is known once read, and
/// the first answer is kept while a refresh is awaited.
pub open spec fn resolver_wf<U>(v: UsageResolverView<U>) -> bool {
    &&& (v.phase == UsagePhase::FirstFetch || v.phase == UsagePhase::Refresh || v.phase
        == UsagePhase::RefreshedAuth || v.phase == UsagePhase::SecondFetch) ==> v.extracted is Some
    &&& v.phase == UsagePhase::Refresh ==> v.first_fetch is Some
}

/// The order in which a check passes its steps.
pub open spec fn phase_rank(p: UsagePhase) -> int {
    match p {
        UsagePhase::FirstAuth => 0,
        UsagePhase::FirstFetch => 1,
        UsagePhase::Refresh => 2,
        UsagePhase::RefreshedAuth => 3,
        UsagePhase::SecondFetch => 4,
        UsagePhase::Done => 5,
    }
}

/// Law: every step of a check moves it forward, it answers its outcome
/// exactly when it is over, and it asks for refreshed credentials only
/// after the first usage request; so a check is over after at most five
/// steps and refreshes the credentials at most once.
pub proof fn lemma_step_moves_forward<U>(v: UsageResolverView<U>, ev: UsageEventView<U>)
    ensures
        step_spec(v, ev) matches Some((next, action)) ==> {
            &&& phase_rank(next.phase) > phase_rank(v.phase)
            &&& (action is Done <==> next.phase == UsagePhase::Done)
            &&& (action is Refresh ==> v.phase == UsagePhase::FirstFetch)
        },
        v.phase == UsagePhase::Done ==> step_spec(v, ev) is None,
{
}

/// Law: a usage request always carries the token and the account id of the
/// credentials read in the very step that asks for it, so the request after
/// a refresh uses the refreshed credentials and never those read before;
/// a refresh is asked for the credentials under check, and the refreshed
/// credentials are the ones read next and kept from then on.
pub proof fn lemma_requests_use_latest_credentials<U>(v: UsageResolverView<U>, ev: UsageEventView<U>)
    ensures
        step_spec(v, ev) matches Some((next, UsageActionView::Fetch { access_token, account_id }))
            ==> ev matches UsageEventView::Extracted(Ok(a)) && access_token == a.access_token
            && account_id == a.account_id && next.extracted == Some(a),
        step_spec(v, ev) matches Some((next, UsageActionView::Refresh(w))) ==> w == v.working,
        step_spec(v, ev) matches Some((next, UsageActionView::Extract(w))) ==> ev
            == UsageEventView::<U>::Refreshed(Ok(w)) && next.working == w,
{
}

/// Law: the outcome of a check reports the last answer with the
/// credentials in hand (the refreshed ones after a refresh). A first usage
/// request that fails as unauthorised or expired asks for a refresh of the
/// credentials under check; a usage answer that names a plan, and any
/// answer to the second request, ends the check with that answer's usage or
/// error; a refresh that fails ends it with the first request's error
/// followed by the refresh's.
pub proof fn lemma_outcome_reports_last_answer<U>(
    v: UsageResolverView<U>,
    ev: UsageEventView<U>,
    e: Seq<char>,
    f: FetchedView<U>,
    re: Seq<char>,
)
    ensures
        step_spec(v, ev) matches Some((next, UsageActionView::Done(u))) ==> u.auth_json == v.working,
        ({
            let n = lower(e);
            &&& v.phase == UsagePhase::FirstFetch
            &&& v.extracted is Some
            &&& contains_seq(n, "401"@) || contains_seq(n, "unauthorized"@) || contains_seq(
                n,
                "invalid_token"@,
            ) || contains_seq(n, "expired"@)
        }) ==> {
            let st = step_spec(v, UsageEventView::Fetched(Err(e)));
            &&& st is Some
            &&& st.unwrap().1 == UsageActionView::<U>::Refresh(v.working)
            &&& st.unwrap().0.phase == UsagePhase::Refresh
        },
        ({
            &&& v.phase == UsagePhase::FirstFetch || v.phase == UsagePhase::SecondFetch
            &&& v.extracted is Some
            &&& f.plan_type is Some
        }) ==> {
            let st = step_spec(v, UsageEventView::Fetched(Ok(f)));
            &&& st is Some
            &&& st.unwrap().1 is Done
            &&& st.unwrap().1->Done_0.usage == Some(f.usage)
            &&& st.unwrap().1->Done_0.usage_error is None
            &&& st.unwrap().1->Done_0.plan_type == f.plan_type
        },
        v.phase == UsagePhase::SecondFetch && v.extracted is Some ==> {
            let st_ok = step_spec(v, UsageEventView::Fetched(Ok(f)));
            let st_err = step_spec(v, UsageEventView::Fetched(Err(e)));
            &&& st_ok is Some && st_ok.unwrap().1 is Done
            &&& st_ok.unwrap().1->Done_0.usage == Some(f.usage)
            &&& st_ok.unwrap().1->Done_0.usage_error is None
            &&& st_err is Some && st_err.unwrap().1 is Done
            &&& st_err.unwrap().1->Done_0.usage is None
            &&& st_err.unwrap().1->Done_0.usage_error == Some(e)
        },
        ({
            &&& v.phase == UsagePhase::Refresh
            &&& v.extracted is Some
            &&& v.first_fetch == Some(Err::<FetchedView<U>, Seq<char>>(e))
        }) ==> {
            let st = step_spec(v, UsageEventView::Refreshed(Err(re)));
            &&& st is Some && st.unwrap().1 is Done
            &&& st.unwrap().1->Done_0.usage is None
            &&& st.unwrap().1->Done_0.usage_error == Some(e + " | 令牌刷新失败: "@ + re)
        },
{
}

fn copy_string(s: &String) -> (r: String)
    ensures
        r@ == s@,
{
    s.clone()
}

fn copy_opt(o: &Option<String>) -> (r: Option<String>)
    ensures
        opt_chars(r) == opt_chars(*o),
{
    match o {
        Some(s) => Some(s.clone()),
        None => None,
    }
}

fn or_opt(a: Option<String>, b: Option<String>) -> (r: Option<String>)
    ensures
        opt_chars(r) == or_else(opt_chars(a), opt_chars(b)),
{
    match a {
        Some(x) => Some(x),
        None => b,
    }
}

fn copy_auth(a: &ExtractedAuth) -> (r: ExtractedAuth)
    ensures
        r@ == a@,
{
    ExtractedAuth {
        account_id: copy_string(&a.account_id),
        access_token: copy_string(&a.access_token),
        email: copy_opt(&a.email),
        plan_type: copy_opt(&a.plan_type),
    }
}

fn copy_fetch<U: Copy>(r: &Result<FetchedUsage<U>, String>) -> (c: Result<FetchedUsage<U>, String>)
    ensures
        fetch_view(c) == fetch_view(*r),
{
    match r {
        Ok(f) => Ok(FetchedUsage { plan_type: copy_opt(&f.plan_type), usage: f.usage }),
        Err(e) => Err(copy_string(e)),
    }
}

impl<U: Copy> UsageResolver<U> {
    /// Starts checking the usage of the account with the credentials
    /// `auth_json`; `fallback_email` and `fallback_plan` stand where the
    /// check learns no address or plan. The first thing to do is to read the
    /// credentials.
    pub fn new(auth_json: serde_json::Value, fallback_email: Option<String>, fallback_plan: Option<String>) -> (r: (Self, UsageAction<U>))
        ensures
            resolver_wf(r.0@),
            r.0@ == (UsageResolverView::<U> {
                phase: UsagePhase::FirstAuth,
                working: auth_json,
                fallback_email: opt_chars(fallback_email),
                fallback_plan: opt_chars(fallback_plan),
                extracted: None,
                first_fetch: None,
            }),
            r.1@ == UsageActionView::<U>::Extract(auth_json),
    {
        let action = UsageAction::Extract(auth_json.clone());
        (
            UsageResolver {
                phase: UsagePhase::FirstAuth,
                working: auth_json,
                fallback_email,
                fallback_plan,
                extracted: None,
                first_fetch: None,
            },
            action,
        )
    }

    /// The step the check waits on.
    pub fn phase(&self) -> (r: UsagePhase)
        ensures
            r == self@.phase,
    {
        self.phase
    }

    fn fallbacks_done(&mut self, email: Option<String>, plan: Option<String>, usage: Option<U>, error: Option<String>) -> (r: UsageAction<U>)
        ensures
            final(self)@ == (UsageResolverView { phase: UsagePhase::Done, ..old(self)@ }),
            r@ == UsageActionView::Done(
                UsageUpdateView {
                    auth_json: old(self)@.working,
                    email: opt_chars(email),
                    plan_type: opt_chars(plan),
                    usage,
                    usage_error: opt_chars(error),
                },
            ),
    {
        self.phase = UsagePhase::Done;
        UsageAction::Done(
            UsageUpdate { auth_json: self.working.clone(), email, plan_type: plan, usage, usage_error: error },
        )
    }

    fn finish(&mut self, a: &ExtractedAuth, r: Result<FetchedUsage<U>, String>, refresh_error: Option<String>) -> (act: UsageAction<U>)
        ensures
            final(self)@ == (UsageResolverView { phase: UsagePhase::Done, ..old(self)@ }),
            act@ == UsageActionView::Done(finish_spec(old(self)@, a@, fetch_view(r), opt_chars(refresh_error))),
    {
        let email = or_opt(copy_opt(&a.email), copy_opt(&self.fallback_email));
        match r {
            Ok(f) => {
                let plan = or_opt(or_opt(f.plan_type, copy_opt(&a.plan_type)), copy_opt(&self.fallback_plan));
                self.fallbacks_done(email, plan, Some(f.usage), None)
            },
            Err(e) => {
                let plan = or_opt(copy_opt(&a.plan_type), copy_opt(&self.fallback_plan));
                let msg = match refresh_error {
                    Some(re) => {
                        let m = concat(chars_of_string(&e).as_slice(), chars_of(" | 令牌刷新失败: ").as_slice());
                        let m = concat(m.as_slice(), chars_of_string(&re).as_slice());
                        string_of(m.as_slice())
                    },
                    None => e,
                };
                self.fallbacks_done(email, plan, None, Some(msg))
            },
        }
    }

    /// Takes the outcome of the step waited on and answers what to do next;
    /// `None`, with nothing changed, when it is not the awaited one.
    pub fn step(&mut self, event: UsageEvent<U>) -> (r: Option<UsageAction<U>>)
        requires
            resolver_wf(old(self)@),
        ensures
            resolver_wf(final(self)@),
            match step_spec(old(self)@, event@) {
                Some((next, action)) => {
                    &&& final(self)@ == next
                    &&& r matches Some(a) && a@ == action
                },
                None => final(self)@ == old(self)@ && r is None,
            },
    {
        match (self.phase, event) {
            (UsagePhase::FirstAuth, UsageEvent::Extracted(Err(err))) => {
                let email = copy_opt(&self.fallback_email);
                let plan = copy_opt(&self.fallback_plan);
                Some(self.fallbacks_done(email, plan, None, Some(err)))
            },
            (UsagePhase::FirstAuth, UsageEvent::Extracted(Ok(a))) => {
                let action = UsageAction::Fetch {
                    access_token: copy_string(&a.access_token),
                    account_id: copy_string(&a.account_id),
                };
                self.phase = UsagePhase::FirstFetch;
                self.extracted = Some(a);
                Some(action)
            },
            (UsagePhase::FirstFetch, UsageEvent::Fetched(r)) => {
                let a = match &self.extracted {
                    Some(a) => copy_auth(a),
                    None => {
                        return None;
                    },
                };
                if should_retry_with_token_refresh(&r) {
                    self.phase = UsagePhase::Refresh;
                    self.first_fetch = Some(r);
                    Some(UsageAction::Refresh(self.working.clone()))
                } else {
                    Some(self.finish(&a, r, None))
                }
            },
            (UsagePhase::Refresh, UsageEvent::Refreshed(Ok(w))) => {
                let action = UsageAction::Extract(w.clone());
                self.phase = UsagePhase::RefreshedAuth;
                self.working = w;
                Some(action)
            },
            (UsagePhase::Refresh, UsageEvent::Refreshed(Err(re))) => {
                let a = match &self.extracted {
                    Some(a) => copy_auth(a),
                    None => {
                        return None;
                    },
                };
                let first = match &self.first_fetch {
                    Some(r) => copy_fetch(r),
                    None => {
                        return None;
                    },
                };
                Some(self.finish(&a, first, Some(re)))
            },
            (UsagePhase::RefreshedAuth, UsageEvent::Extracted(Ok(a))) => {
                let action = UsageAction::Fetch {
                    access_token: copy_string(&a.access_token),
                    account_id: copy_string(&a.account_id),
                };
                self.phase = UsagePhase::SecondFetch;
                self.extracted = Some(a);
                Some(action)
            },
            (UsagePhase::RefreshedAuth, UsageEvent::Extracted(Err(err))) => {
                let (email, plan) = match &self.extracted {
                    Some(a) => (
                        or_opt(copy_opt(&a.email), copy_opt(&self.fallback_email)),
                        or_opt(copy_opt(&a.plan_type), copy_opt(&self.fallback_plan)),
                    ),
                    None => {
                        return None;
                    },
                };
                Some(self.fallbacks_done(email, plan, None, Some(err)))
            },
            (UsagePhase::SecondFetch, UsageEvent::Fetched(r)) => {
                let a = match &self.extracted {
                    Some(a) => copy_auth(a),
                    None => {
                        return None;
                    },
                };
                Some(self.finish(&a, r, None))
            },
            _ => None,
        }
    }
}

} // verus!
