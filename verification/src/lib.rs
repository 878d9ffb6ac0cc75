//! Core of a small double-entry home accounting book: chart of accounts,
//! transactions, journal parsing and the reports built on them.

pub mod account;
pub mod book;
pub mod date;
pub mod date_groups;
pub mod ledger;
pub mod money;
pub mod num;
pub mod overview;
pub mod parser_text;
pub mod series;
pub mod text;
pub mod theme;
pub mod totals;
pub mod trial;
pub mod transaction;
pub mod transaction_line;
pub mod utils;
