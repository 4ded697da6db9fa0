use vstd::prelude::*;

pub mod account;
pub mod columns;
pub mod config;
pub mod csv;
pub mod errors;
pub mod ids;
pub mod ledger;
pub mod money;
pub mod parse;
pub mod record;
pub mod render;
pub mod row;
pub mod run;
pub mod scan;
pub mod text;
pub mod transaction;
