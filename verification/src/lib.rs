//! An embeddable in-memory key-value engine organized as a two-level index:
//! an outer mapping by partition key and, within each partition, an ordered
//! tree-key space divided into contiguous bounded pages. Point operations,
//! ordered range iteration with caller-controlled early termination, and a
//! byte-level snapshot codec are all verified against the contracts in each
//! module.

pub mod codec;
pub mod command;
pub mod config;
pub mod database;
pub mod entries;
pub mod error;
pub mod hasher;
pub mod keys;
pub mod options;
pub mod page;
pub mod pages;
pub mod snapshot;
pub mod visiter;

pub use crate::codec::Codec;
pub use crate::command::Command;
pub use crate::config::Config;
pub use crate::database::Database;
pub use crate::error::DatabaseError;
pub use crate::hasher::TrivialHasher;
pub use crate::keys::KeyCmp;
pub use crate::keys::StoreKey;
pub use crate::options::Options;
pub use crate::page::Page;
pub use crate::pages::Pages;
pub use crate::visiter::HashTreeVisiter;
pub use crate::visiter::TreeVisiter;
