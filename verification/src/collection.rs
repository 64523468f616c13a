//! Collection records as the library API returns them, already normalized to
//! plain values: a missing parent is `None`.

use vstd::prelude::*;

verus! {

/// One collection record of a flat API result set.
#[derive(Debug, Clone, Default)]
pub struct Collection {
    pub key: String,
    pub version: i64,
    pub library: Library,
    pub links: Links,
    pub meta: Meta,
    pub data: Data,
}

/// The library a collection belongs to.
#[derive(Debug, Clone, Default)]
pub struct Library {
    pub type_field: String,
    pub id: i64,
    pub name: String,
    pub links: Links,
}

#[derive(Debug, Clone, Default)]
pub struct Links {
    pub self_field: Option<LinkType>,
    pub alternate: Option<LinkType>,
    pub up: Option<LinkType>,
}

#[derive(Debug, Clone, Default)]
pub struct LinkType {
    pub href: String,
    pub type_field: String,
}

#[derive(Debug, Clone, Default)]
pub struct Meta {
    pub num_collections: i64,
    pub num_items: i64,
}

/// The fields the tree builder reads: the record's key, display name and
/// optional parent key.
#[derive(Debug, Clone, Default)]
pub struct Data {
    pub key: String,
    pub version: i64,
    pub name: String,
    pub parent_collection: Option<String>,
}

/// The view of an optional string.
pub open spec fn opt_str_view(o: Option<String>) -> Option<Seq<char>> {
    match o {
        Some(s) => Some(s@),
        None => None,
    }
}

/// What the tree builder sees of one record: key, name, and parent key.
pub open spec fn rec_of(c: Collection) -> (Seq<char>, Seq<char>, Option<Seq<char>>) {
    (c.data.key@, c.data.name@, opt_str_view(c.data.parent_collection))
}

} // verus!
