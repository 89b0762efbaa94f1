//! Change detection for directory trees: a ledger of relative paths and
//! content digests, and the rules that reconcile it with the files found.
//!
//! - [`path`], [`paths`], [`order`]: relative paths, their key and order, and
//!   the set of paths found.
//! - [`format`], [`table`], [`ledger`]: the ledger as text, as a list of
//!   entries and as a map, and the ledger itself.
//! - [`digest`], [`discover`]: the digest of a file's content, and the rule
//!   of the walk through the folders.
//! - [`engine`]: what is done for each file, and how a run starts and ends.
//! - [`run`], [`pool`]: what holds of every run, by one worker or by many.

pub mod digest;
pub mod discover;
pub mod engine;
pub mod format;
pub mod ledger;
pub mod order;
pub mod path;
pub mod paths;
pub mod pool;
pub mod run;
pub mod table;
pub mod text;
