//! Batch generation of accounts: turning a freshly registered token into a
//! Codex token file, and the bookkeeping of a batch from attempt to attempt.
use vstd::prelude::*;
use crate::accounts_state::{
    clock_error_message, normalize_email, normalize_email_spec, sanitize_email_for_filename,
    sanitize_spec,
};
use crate::clock::{now_rfc3339, rfc3339_utc_seconds};
use crate::jwt::{extract_email_from_id_token, id_token_email_spec, id_token_error_spec};
use crate::models::{
    AppError, AvailableAccount, GeneratedAccount, GeneratedAccountView, GenerationProgressEvent,
    GenerationResult,
};
use crate::order::{lemma_views_index, views};
use crate::ssh::opt_chars;
use crate::text::{chars_eq, chars_of, chars_of_string, concat, decimal, decimal_u64, owned, string_of, trim, trim_chars};

verus! {

/// What a registered token becomes: the account's address, its creation
/// time and the file name of its Codex token.
#[derive(Debug, Clone)]
pub struct PreparedToken {
    pub email: String,
    pub created_at: String,
    pub file_name: String,
}

/// The address of a registered token: its `email` field normalised, or,
/// when that is blank, the address in its `id_token` (`None` when that
/// cannot be read).
pub open spec fn token_email_spec(raw_email: Seq<char>, id_token: Seq<char>) -> Option<Seq<char>> {
    if trim(raw_email).len() == 0 {
        id_token_email_spec(id_token)
    } else {
        Some(normalize_email_spec(raw_email))
    }
}

/// Checks a registered token and names its Codex token file. `path` names
/// the token in error messages. The address comes from `raw_email`, or from
/// the `id_token` when that is blank; an address that cannot be read, an
/// empty address and a blank `id_token` are errors. The creation time is
/// `last_refresh`, or the current time when that is blank (an error when the
/// clock reads a time that cannot be written).
pub fn prepare_generated_token(raw_email: &str, id_token: &str, last_refresh: &str, path: &str) -> (r: Result<PreparedToken, AppError>)
    ensures
        token_email_spec(raw_email@, id_token@) is None ==> r is Err && id_token_error_spec(
            id_token@,
            r->Err_0.message(),
        ),
        token_email_spec(raw_email@, id_token@) matches Some(email) ==> {
            if email.len() == 0 {
                r is Err && r->Err_0.message() == "无法从 "@ + path@ + " 解析邮箱"@
            } else if trim(id_token@).len() == 0 {
                r is Err && r->Err_0.message() == path@ + " 缺少 id_token"@
            } else if trim(last_refresh@).len() > 0 {
                &&& r is Ok
                &&& r->Ok_0.email@ == email
                &&& r->Ok_0.file_name@ == sanitize_spec(email) + ".json"@
                &&& r->Ok_0.created_at@ == last_refresh@
            } else {
                ||| r is Ok && r->Ok_0.email@ == email && r->Ok_0.file_name@ == sanitize_spec(email)
                    + ".json"@ && rfc3339_utc_seconds(r->Ok_0.created_at@)
                ||| r is Err && r->Err_0.message() == clock_error_message()
            }
        },
{
    let raw_t = trim_chars(chars_of(raw_email).as_slice());
    let email = if raw_t.len() == 0 {
        extract_email_from_id_token(id_token)?
    } else {
        normalize_email(raw_email)
    };
    if chars_of(email.as_str()).len() == 0 {
        let m = concat(chars_of("无法从 ").as_slice(), chars_of(path).as_slice());
        let m = concat(m.as_slice(), chars_of(" 解析邮箱").as_slice());
        return Err(AppError::new(string_of(m.as_slice())));
    }
    let id_t = trim_chars(chars_of(id_token).as_slice());
    if id_t.len() == 0 {
        let m = concat(chars_of(path).as_slice(), chars_of(" 缺少 id_token").as_slice());
        return Err(AppError::new(string_of(m.as_slice())));
    }
    let lr = trim_chars(chars_of(last_refresh).as_slice());
    let created_at = if lr.len() == 0 {
        match now_rfc3339() {
            Some(t) => t,
            None => return Err(AppError::new(owned("系统时间超出可表示的范围"))),
        }
    } else {
        owned(last_refresh)
    };
    let base = sanitize_email_for_filename(email.as_str());
    let name = concat(chars_of(base.as_str()).as_slice(), chars_of(".json").as_slice());
    Ok(PreparedToken { email, created_at, file_name: string_of(name.as_slice()) })
}

/// The positions, in order, of the files listed after an attempt whose
/// names were not listed before it. A file whose name cannot be read
/// (`None`) is never a candidate.
pub open spec fn new_file_positions(before: Seq<Seq<char>>, after: Seq<Option<Seq<char>>>) -> Seq<int>
    decreases after.len(),
{
    if after.len() == 0 {
        seq![]
    } else {
        let prev = new_file_positions(before, after.drop_last());
        match after.last() {
            Some(n) => if before.contains(n) {
                prev
            } else {
                prev.push(after.len() - 1)
            },
            None => prev,
        }
    }
}

/// The names of listed files as character sequences.
pub open spec fn listed_names(after: Seq<Option<String>>) -> Seq<Option<Seq<char>>> {
    after.map_values(|o: Option<String>| opt_chars(o))
}

/// The files listed after an attempt that were not there before it: the
/// positions in `after` of the names that `before` does not hold.
pub fn new_file_positions_of(before: &[String], after: &[Option<String>]) -> (r: Vec<usize>)
    ensures
        r@.map_values(|i: usize| i as int) == new_file_positions(views(before@), listed_names(after@)),
{
    let ghost bv = views(before@);
    let ghost av = listed_names(after@);
    let mut out: Vec<usize> = Vec::new();
    let mut i: usize = 0;
    assert(av.take(0) =~= Seq::<Option<Seq<char>>>::empty());
    assert(out@.map_values(|i: usize| i as int) =~= Seq::<int>::empty());
    while i < after.len()
        invariant
            bv == views(before@),
            av == listed_names(after@),
            i <= after@.len(),
            forall|k: int| 0 <= k < out@.len() ==> out@[k] < i,
            out@.map_values(|i: usize| i as int) == new_file_positions(bv, av.take(i as int)),
        decreases after@.len() - i,
    {
        let ghost t = av.take(i + 1int);
        assert(t.drop_last() =~= av.take(i as int));
        assert(t.last() == opt_chars(after@[i as int]));
        let ghost prev = out@;
        if let Some(name) = &after[i] {
            let target = chars_of_string(name);
            let mut j: usize = 0;
            let mut seen = false;
            while j < before.len()
                invariant
                    bv == views(before@),
                    target@ == name@,
                    j <= before@.len(),
                    seen <==> exists|k: int| 0 <= k < j && bv[k] == target@,
                decreases before@.len() - j,
            {
                proof {
                    lemma_views_index(before@, j as int);
                }
                let other = chars_of_string(&before[j]);
                if chars_eq(other.as_slice(), target.as_slice()) {
                    seen = true;
                }
                j = j + 1;
            }
            if !seen {
                out.push(i);
                assert(out@.map_values(|i: usize| i as int) =~= prev.map_values(|i: usize| i as int).push(i as int));
            }
        }
        i = i + 1;
    }
    assert(av.take(i as int) =~= av);
    out
}

/// Of the modification times of the new files, the position of the latest;
/// of several equally late ones, the last. `None` when there is none.
pub fn latest_position(times: &[i128]) -> (r: Option<usize>)
    ensures
        r is None <==> times@.len() == 0,
        r matches Some(i) ==> {
            &&& i < times@.len()
            &&& forall|k: int| 0 <= k < times@.len() ==> times@[k] <= times@[i as int]
            &&& forall|k: int| i < k < times@.len() ==> times@[k] < times@[i as int]
        },
{
    if times.len() == 0 {
        return None;
    }
    let mut best: usize = 0;
    let mut i: usize = 1;
    while i < times.len()
        invariant
            times@.len() > 0,
            best < i <= times@.len(),
            forall|k: int| 0 <= k < i ==> times@[k] <= times@[best as int],
            forall|k: int| best < k < i ==> times@[k] < times@[best as int],
        decreases times@.len() - i,
    {
        if !(times[i] < times[best]) {
            best = i;
        }
        i = i + 1;
    }
    Some(best)
}

/// How one attempt of a batch ended.
pub enum AttemptOutcome {
    /// A stop was asked for while the registration tool ran.
    StopRequested,
    /// The tool left no new token file; the summary of its output.
    NoTokenFile { output_summary: String },
    /// The token became this account; `imported` is its import flag.
    Converted { account: GeneratedAccount, imported: bool },
    /// The token could not be converted; the error's message.
    ConversionFailed { error: String },
}

/// A batch in progress.
pub struct GenerationRun {
    result: GenerationResult,
    started: u64,
    in_progress: bool,
}

/// The abstract state of a batch: its result so far, the number of attempts
/// begun, and whether one is under way.
pub struct GenerationRunView {
    pub requested: u32,
    pub succeeded: u32,
    pub failed: u32,
    pub stopped: bool,
    pub accounts: Seq<GeneratedAccountView>,
    pub errors: Seq<Seq<char>>,
    pub started: nat,
    pub in_progress: bool,
}

impl View for GenerationRun {
    type V = GenerationRunView;

    closed spec fn view(&self) -> GenerationRunView {
        GenerationRunView {
            requested: self.result.requested,
            succeeded: self.result.succeeded,
            failed: self.result.failed,
            stopped: self.result.stopped,
            accounts: views(self.result.accounts@),
            errors: views(self.result.errors@),
            started: self.started as nat,
            in_progress: self.in_progress,
        }
    }
}

/// The message of a failed attempt.
pub open spec fn attempt_error_spec(current: nat, detail: Seq<char>) -> Seq<char> {
    "第 "@ + decimal(current) + " 次生成失败: "@ + detail
}

/// The invariant of a batch: every finished attempt was counted once (all
/// of them, unless a stop cut one short), the counts match the accounts and
/// the messages kept, no more attempts were begun than requested, and a
/// stopped batch counted fewer attempts than requested.
pub open spec fn run_wf(v: GenerationRunView) -> bool {
    &&& v.succeeded + v.failed + (if v.in_progress {
        1int
    } else {
        0int
    }) <= v.started
    &&& !v.stopped ==> v.succeeded + v.failed + (if v.in_progress {
        1int
    } else {
        0int
    }) == v.started
    &&& v.stopped ==> v.succeeded + v.failed < v.requested
    &&& v.started <= v.requested
    &&& v.accounts.len() == v.succeeded
    &&& v.errors.len() == v.failed
    &&& v.in_progress ==> !v.stopped
}

/// No further attempt will be begun.
pub open spec fn run_finished(v: GenerationRunView) -> bool {
    v.stopped || v.started >= v.requested
}

fn attempt_error(current: u64, detail: &str) -> (r: String)
    ensures
        r@ == attempt_error_spec(current as nat, detail@),
{
    let m = concat(chars_of("第 ").as_slice(), decimal_u64(current).as_slice());
    let m = concat(m.as_slice(), chars_of(" 次生成失败: ").as_slice());
    let m = concat(m.as_slice(), chars_of(detail).as_slice());
    string_of(m.as_slice())
}

impl GenerationRun {
    /// A batch of `count` attempts, none begun.
    pub fn new(count: u32) -> (r: Self)
        ensures
            run_wf(r@),
            r@ == (GenerationRunView {
                requested: count,
                succeeded: 0,
                failed: 0,
                stopped: false,
                accounts: seq![],
                errors: seq![],
                started: 0,
                in_progress: false,
            }),
    {
        let r = GenerationRun {
            result: GenerationResult {
                requested: count,
                succeeded: 0,
                failed: 0,
                stopped: false,
                accounts: Vec::new(),
                errors: Vec::new(),
            },
            started: 0,
            in_progress: false,
        };
        assert(r@.accounts =~= Seq::<GeneratedAccountView>::empty());
        assert(r@.errors =~= Seq::<Seq<char>>::empty());
        r
    }

    /// Begins the next attempt and answers its number (counting from 1), or
    /// answers `None` when the batch is over: all attempts begun, a stop
    /// recorded, or `stop_requested` (which records the stop), or an attempt
    /// still under way.
    pub fn begin_attempt(&mut self, stop_requested: bool) -> (r: Option<u32>)
        requires
            run_wf(old(self)@),
        ensures
            run_wf(final(self)@),
            old(self)@.in_progress || run_finished(old(self)@) ==> r is None && final(self)@ == old(
                self,
            )@,
            !old(self)@.in_progress && !run_finished(old(self)@) && stop_requested ==> r is None
                && final(self)@ == (GenerationRunView { stopped: true, ..old(self)@ }),
            !old(self)@.in_progress && !run_finished(old(self)@) && !stop_requested ==> r == Some(
                (old(self)@.started + 1) as u32,
            ) && final(self)@ == (GenerationRunView {
                started: old(self)@.started + 1,
                in_progress: true,
                ..old(self)@
            }),
    {
        if self.in_progress || self.result.stopped || self.started >= self.result.requested as u64 {
            return None;
        }
        if stop_requested {
            self.result.stopped = true;
            return None;
        }
        self.started = self.started + 1;
        self.in_progress = true;
        Some(self.started as u32)
    }

    /// Records how the attempt under way ended and answers the progress to
    /// report, if any. Without an attempt under way nothing changes.
    pub fn finish_attempt(&mut self, outcome: AttemptOutcome) -> (r: Option<GenerationProgressEvent>)
        requires
            run_wf(old(self)@),
        ensures
            run_wf(final(self)@),
            !old(self)@.in_progress ==> r is None && final(self)@ == old(self)@,
            old(self)@.in_progress ==> match outcome {
                AttemptOutcome::StopRequested => r is None && final(self)@ == (GenerationRunView {
                    stopped: true,
                    in_progress: false,
                    ..old(self)@
                }),
                AttemptOutcome::NoTokenFile { output_summary } => {
                    &&& final(self)@ == (GenerationRunView {
                        failed: (old(self)@.failed + 1) as u32,
                        errors: old(self)@.errors.push(
                            attempt_error_spec(old(self)@.started, output_summary@),
                        ),
                        in_progress: false,
                        ..old(self)@
                    })
                    &&& r matches Some(ev) && ev.current == old(self)@.started && ev.total
                        == old(self)@.requested && ev.email@.len() == 0 && ev.account is None
                },
                AttemptOutcome::ConversionFailed { error } => {
                    &&& final(self)@ == (GenerationRunView {
                        failed: (old(self)@.failed + 1) as u32,
                        errors: old(self)@.errors.push(attempt_error_spec(old(self)@.started, error@)),
                        in_progress: false,
                        ..old(self)@
                    })
                    &&& r matches Some(ev) && ev.current == old(self)@.started && ev.total
                        == old(self)@.requested && ev.email@.len() == 0 && ev.account is None
                },
                AttemptOutcome::Converted { account, imported } => {
                    &&& final(self)@ == (GenerationRunView {
                        succeeded: (old(self)@.succeeded + 1) as u32,
                        accounts: old(self)@.accounts.push(account@),
                        in_progress: false,
                        ..old(self)@
                    })
                    &&& r matches Some(ev) && ev.current == old(self)@.started && ev.total
                        == old(self)@.requested && ev.email@ == account@.email
                    &&& r matches Some(ev) && ev.account matches Some(a) && a@.email == account@.email
                        && a@.created_at == account@.created_at && a.imported == imported
                },
            },
    {
        if !self.in_progress {
            return None;
        }
        let current = self.started;
        let total = self.result.requested;
        self.in_progress = false;
        match outcome {
            AttemptOutcome::StopRequested => {
                self.result.stopped = true;
                None
            },
            AttemptOutcome::NoTokenFile { output_summary } => {
                self.result.failed = self.result.failed + 1;
                let ghost before = views(self.result.errors@);
                let m = attempt_error(current, output_summary.as_str());
                self.result.errors.push(m);
                assert(views(self.result.errors@) =~= before.push(m@));
                Some(GenerationProgressEvent { current: current as u32, total, email: String::new(), account: None })
            },
            AttemptOutcome::ConversionFailed { error } => {
                self.result.failed = self.result.failed + 1;
                let ghost before = views(self.result.errors@);
                let m = attempt_error(current, error.as_str());
                self.result.errors.push(m);
                assert(views(self.result.errors@) =~= before.push(m@));
                Some(GenerationProgressEvent { current: current as u32, total, email: String::new(), account: None })
            },
            AttemptOutcome::Converted { account, imported } => {
                self.result.succeeded = self.result.succeeded + 1;
                let emitted = AvailableAccount {
                    email: account.email.clone(),
                    created_at: account.created_at.clone(),
                    imported,
                };
                let email = account.email.clone();
                let ghost before = views(self.result.accounts@);
                self.result.accounts.push(account);
                assert(views(self.result.accounts@) =~= before.push(account@));
                Some(GenerationProgressEvent { current: current as u32, total, email, account: Some(emitted) })
            },
        }
    }

    /// The batch's result. Once the run is over, it reads as stopped exactly
    /// when fewer attempts were counted than were requested.
    pub fn into_result(self) -> (r: GenerationResult)
        requires
            run_wf(self@),
        ensures
            r.requested == self@.requested,
            r.succeeded == self@.succeeded,
            r.failed == self@.failed,
            r.stopped == self@.stopped,
            views(r.accounts@) == self@.accounts,
            views(r.errors@) == self@.errors,
            r.accounts@.len() == r.succeeded,
            r.errors@.len() == r.failed,
            r.succeeded + r.failed <= r.requested,
            !self@.in_progress && run_finished(self@) ==> (r.stopped <==> r.succeeded + r.failed
                < r.requested),
    {
        self.result
    }
}

} // verus!
