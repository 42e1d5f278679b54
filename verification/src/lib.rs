//! A string interner for use from many threads at a time.
//!
//! Create one [`ConcurrentInterner`], ask it for a member for each thread, intern strings through
//! the members to get [`IStr`]s, and obtain the strings back from the same interner. An [`IStr`]
//! takes 32 bits, and comparing two of them compares the strings.
//!
//! - [`interner`]: the interner, its members and its frozen, read-only form.
//! - [`bindings`]: which string is bound to which [`IStr`].
//! - [`pool`]: the arenas that the interner hands out.
//! - [`storage`]: one arena, and where it keeps the text of its strings.
//! - [`index`]: the packed indices.
//! - [`sso`]: references to strings that carry short strings inline.
//! - [`text`]: strings as bytes.
//! - [`table`]: the hash table.
//! - [`history`]: what holds however the work of several members is interleaved.
//! - [`serial`]: an interner for one thread.
//! - [`workload`]: interning a text word by word.
//!
//! A [`ConcurrentInterner`] takes any hash builder. Where its contracts need the hash builder to give
//! equal strings equal hashes, they are conditional on `builds_valid_hashers`; what an [`IStr`] reads
//! back as never depends on it. The interner for one thread asks for such a hash builder.

pub mod bindings;
pub mod history;
pub mod index;
pub mod interner;
pub mod pool;
pub mod serial;
pub mod sso;
pub mod storage;
pub mod table;
pub mod text;
pub mod workload;

pub use crate::index::IStr;
pub use crate::interner::{ConcurrentInterner, ConcurrentInternerMember, FrozenInterner};
