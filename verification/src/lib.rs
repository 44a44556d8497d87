//! Splits the token stream of a GPX document into three documents, one for
//! waypoints, one for routes and one for tracks, each of which keeps the
//! markup that all of them share.

pub mod balance;
pub mod classify;
pub mod dump;
pub mod indent;
pub mod names;
pub mod plan;
pub mod printer;
pub mod router;
pub mod text;
pub mod tokenizer;
