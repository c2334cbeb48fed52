//! Account, session and SSH bookkeeping for the Codexs desktop helper.
pub mod accounts_state;
pub mod accounts_store;
pub mod clock;
pub mod control;
pub mod generation;
pub mod json;
pub mod jwt;
pub mod models;
pub mod order;
pub mod resume;
pub mod sessions;
pub mod ssh;
pub mod ssh_config;
pub mod sync;
pub mod text;
pub mod usage;
