//! A personal ledger: named accounts, each holding an ordered log of
//! monetary transactions, some recurring on a fixed schedule. The
//! library models amounts as fixed-point numbers and dates as civil
//! dates, proves the balance invariant, the overdraw policy and the
//! recurrence catch-up, and reads and writes the line-oriented account
//! format; file and terminal I/O live outside it.

pub mod account;
pub mod accountmanager;
pub mod amount;
pub mod arguments;
pub mod category;
pub mod commands;
pub mod date;
pub mod interval;
pub mod text;
pub mod transaction;
