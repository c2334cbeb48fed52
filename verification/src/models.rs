//! The records that the application keeps about generated accounts, and the
//! error type of its operations.
use vstd::prelude::*;
use crate::ssh::opt_chars;

verus! {

/// A generated account that can be imported, as the account list shows it.
#[derive(Debug, Clone)]
pub struct AvailableAccount {
    pub email: String,
    pub created_at: String,
    pub imported: bool,
}

pub struct AvailableAccountView {
    pub email: Seq<char>,
    pub created_at: Seq<char>,
    pub imported: bool,
}

impl View for AvailableAccount {
    type V = AvailableAccountView;

    open spec fn view(&self) -> AvailableAccountView {
        AvailableAccountView { email: self.email@, created_at: self.created_at@, imported: self.imported }
    }
}

/// An account produced by one run of the registration tool.
#[derive(Debug, Clone)]
pub struct GeneratedAccount {
    pub email: String,
    pub created_at: String,
    pub token_path: String,
    pub codex_token_path: String,
}

pub struct GeneratedAccountView {
    pub email: Seq<char>,
    pub created_at: Seq<char>,
    pub token_path: Seq<char>,
    pub codex_token_path: Seq<char>,
}

impl View for GeneratedAccount {
    type V = GeneratedAccountView;

    open spec fn view(&self) -> GeneratedAccountView {
        GeneratedAccountView {
            email: self.email@,
            created_at: self.created_at@,
            token_path: self.token_path@,
            codex_token_path: self.codex_token_path@,
        }
    }
}

/// Progress of a batch generation, reported after each attempt.
#[derive(Debug, Clone)]
pub struct GenerationProgressEvent {
    pub current: u32,
    pub total: u32,
    pub email: String,
    pub account: Option<AvailableAccount>,
}

/// The outcome of a batch generation.
#[derive(Debug, Clone)]
pub struct GenerationResult {
    pub requested: u32,
    pub succeeded: u32,
    pub failed: u32,
    pub stopped: bool,
    pub accounts: Vec<GeneratedAccount>,
    pub errors: Vec<String>,
}

/// The outcome of importing accounts into Codex.
#[derive(Debug, Clone)]
pub struct ImportResult {
    pub requested: usize,
    pub imported: usize,
    pub skipped: usize,
    pub failed: usize,
    pub emails: Vec<String>,
}

/// What is recorded about generated accounts.
#[derive(Debug, Clone)]
pub struct AccountsState {
    pub accounts: Vec<AccountStateEntry>,
}

impl AccountsState {
    /// No accounts recorded.
    pub fn new() -> (r: Self)
        ensures
            r.accounts@.len() == 0,
    {
        AccountsState { accounts: Vec::new() }
    }
}

impl Default for AccountsState {
    /// No accounts recorded.
    fn default() -> (r: Self)
        ensures
            r.accounts@.len() == 0,
    {
        AccountsState::new()
    }
}

/// What is recorded about one generated account.
#[derive(Debug, Clone)]
pub struct AccountStateEntry {
    pub email: String,
    pub imported: bool,
    pub imported_at: Option<String>,
}

pub struct AccountStateEntryView {
    pub email: Seq<char>,
    pub imported: bool,
    pub imported_at: Option<Seq<char>>,
}

impl View for AccountStateEntry {
    type V = AccountStateEntryView;

    open spec fn view(&self) -> AccountStateEntryView {
        AccountStateEntryView {
            email: self.email@,
            imported: self.imported,
            imported_at: opt_chars(self.imported_at),
        }
    }
}

/// Settings kept with the account store (none so far).
#[derive(Debug, Clone)]
pub struct StoreSettings {}

/// What the Codex credentials say about the account they belong to.
#[derive(Debug, Clone)]
pub struct ExtractedAuth {
    pub account_id: String,
    pub access_token: String,
    pub email: Option<String>,
    pub plan_type: Option<String>,
}

pub struct ExtractedAuthView {
    pub account_id: Seq<char>,
    pub access_token: Seq<char>,
    pub email: Option<Seq<char>>,
    pub plan_type: Option<Seq<char>>,
}

impl View for ExtractedAuth {
    type V = ExtractedAuthView;

    open spec fn view(&self) -> ExtractedAuthView {
        ExtractedAuthView {
            account_id: self.account_id@,
            access_token: self.access_token@,
            email: opt_chars(self.email),
            plan_type: opt_chars(self.plan_type),
        }
    }
}

/// An error of an application operation, carrying its message.
#[derive(Debug, Clone)]
pub struct AppError {
    message: String,
}

impl AppError {
    /// The error with the given message.
    pub fn new(message: String) -> (r: AppError)
        ensures
            r.message() == message@,
    {
        AppError { message }
    }

    /// The message.
    pub closed spec fn message(&self) -> Seq<char> {
        self.message@
    }

    /// The message, as the error displays it.
    pub fn to_message(&self) -> (r: String)
        ensures
            r@ == self.message(),
    {
        self.message.clone()
    }
}

} // verus!
