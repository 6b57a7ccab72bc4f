//! A single owner for the set of bank forks, driven by requests.
//!
//! The fork set lives with one owner, the [`manager::BankManager`]; clients
//! reach it only through requests ([`manager::BankRequest`]) and read the
//! replies ([`manager::BankReply`]). The owner answers each request from
//! its current fork set; only adding a bank, freezing a held bank and
//! making a child of a held bank (which freezes it) change that set.

pub mod bank;
pub mod bank_forks;
pub mod laws;
pub mod manager;
