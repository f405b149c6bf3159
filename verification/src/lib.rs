//! A ticket tracker's core: the ticket file format, identifier allocation,
//! status filtering and command dispatch, each with a verified contract.

pub mod command;
pub mod error;
pub mod filter;
pub mod ident;
pub mod listing;
pub mod project;
pub mod record;
pub mod rewrite;
pub mod status;
pub mod store;
pub mod text;
pub mod transition;
