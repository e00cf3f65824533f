//! Oodles: titled documents of timestamped messages with inline citations.
//!
//! A document (an "oodle") is kept as a text that people can read and edit
//! by hand. This crate reads and writes that text, assigns the messages
//! their ids, finds the citations that messages make of one another, and
//! records them as backlinks on what they cite.
//!
//! - [`text`]: character sequences, trimming, decimal numbers
//! - [`lines`]: lines and the escaping of the lone period
//! - [`timestamp`]: timestamps and datelines
//! - [`reference`]: citations and backlinks
//! - [`message`], [`document`]: the codecs of messages and documents
//! - [`backlinks`], [`collection`]: the loaded documents and their backlinks
//! - [`laws`]: what written and read texts have to do with each other
//! - [`users`], [`form`], [`ident`]: accounts, request forms, identifiers

pub mod backlinks;
pub mod collection;
pub mod document;
pub mod error;
pub mod form;
pub mod ident;
pub mod laws;
pub mod lines;
pub mod message;
pub mod reference;
pub mod text;
pub mod timestamp;
pub mod users;

pub use collection::Oodles;
pub use document::Oodle;
pub use error::ParseError;
pub use form::{Login, MessageCreate, MessageModify, OodleCreate};
pub use message::Message;
pub use reference::{Backlink, Reference};
pub use timestamp::Timestamp;
pub use users::{Session, Users};
