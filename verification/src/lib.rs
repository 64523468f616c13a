//! Core logic of a Zotero attachment-sync client: a descriptor codec and
//! content fingerprint, a three-way sync decision engine, an archive
//! transcoder, and builders that turn flat API result sets into a collection
//! tree and an item forest.

pub mod access;
pub mod archive;
pub mod auth;
pub mod codec;
pub mod collection;
pub mod item;
pub mod refresh;
pub mod sync;
pub mod text;
pub mod zotero_data;
