//! Item records as the library API returns them, and the attachment lookup
//! the sync engine makes on a resolved item.

use std::collections::HashMap;
use vstd::prelude::*;

use crate::collection::opt_str_view;

verus! {

/// One item record of a flat API result set. `sub_items` is empty as
/// fetched; the forest builder fills it for root items.
#[derive(Debug, Default)]
pub struct Item {
    pub key: String,
    pub version: i32,
    pub library: Library,
    pub links: Links,
    pub meta: Meta,
    pub data: ItemData,
    pub sub_items: Vec<Item>,
}

#[derive(Debug, Default)]
pub struct Library {
    pub library_type: String,
    pub id: i64,
    pub name: String,
    pub links: HashMap<String, Link>,
}

#[derive(Debug, Default)]
pub struct Link {
    pub href: String,
    pub content_type: String,
    pub title: Option<String>,
    pub length: Option<i64>,
    pub attachment_type: Option<String>,
    pub attachment_size: Option<i64>,
}

#[derive(Debug, Default)]
pub struct Links {
    pub self_link: Link,
    pub alternate: Link,
    pub up: Option<Link>,
    pub enclosure: Option<Link>,
    pub attachment: Option<Link>,
}

#[derive(Debug, Default)]
pub struct Meta {
    pub creator_summary: Option<String>,
    pub parsed_date: Option<String>,
    pub num_children: Option<i32>,
}

/// The fields the forest builder and the sync engine read: the record's key,
/// optional parent item, collection memberships, title, content type and
/// attachment file name.
#[derive(Debug, Default)]
pub struct ItemData {
    pub key: String,
    pub version: i32,
    pub parent_item: Option<String>,
    pub item_type: String,
    pub title: Option<String>,
    pub creators: Vec<Creator>,
    pub abstract_note: Option<String>,
    pub url: Option<String>,
    pub access_date: Option<String>,
    pub tags: Vec<Tag>,
    pub collections: Option<Vec<String>>,
    pub relations: HashMap<String, String>,
    pub date_added: String,
    pub date_modified: String,
    pub content_type: String,
    pub filename: Option<String>,
}

#[derive(Debug, Default)]
pub struct Creator {
    pub creator_type: String,
    pub first_name: String,
    pub last_name: String,
}

#[derive(Debug, Default)]
pub struct Tag {
    pub tag: String,
    pub tag_type: Option<i32>,
}

// ---------------------------------------------------------------------------
// What the builders and the sync engine read of an item
// ---------------------------------------------------------------------------

/// A root of the item forest: no parent reference.
pub open spec fn is_root(it: Item) -> bool {
    it.data.parent_item is None
}

/// Two items that agree on everything but their sub-item list.
pub open spec fn item_eq_except_subs(a: Item, b: Item) -> bool {
    &&& a.key == b.key
    &&& a.version == b.version
    &&& a.library == b.library
    &&& a.links == b.links
    &&& a.meta == b.meta
    &&& a.data == b.data
}

/// The sub-item a download resolves to: a PDF attachment with a file name.
pub open spec fn is_pdf_attachment(it: Item) -> bool {
    it.data.content_type@ == "application/pdf"@ && it.data.filename is Some
}

impl Item {
    /// Finds the first sub-item that is a PDF attachment with a file name.
    pub fn find_pdf_attachment(&self) -> (r: Option<&Item>)
        ensures
            match r {
                Some(it) => exists|i: int|
                    0 <= i < self.sub_items@.len() && self.sub_items@[i] == *it
                        && is_pdf_attachment(#[trigger] self.sub_items@[i]) && (forall|j: int|
                        0 <= j < i ==> !is_pdf_attachment(#[trigger] self.sub_items@[j])),
                None => forall|j: int|
                    0 <= j < self.sub_items@.len() ==> !is_pdf_attachment(
                        #[trigger] self.sub_items@[j],
                    ),
            },
    {
        let mut i: usize = 0;
        while i < self.sub_items.len()
            invariant
                0 <= i <= self.sub_items@.len(),
                forall|j: int| 0 <= j < i ==> !is_pdf_attachment(#[trigger] self.sub_items@[j]),
            decreases self.sub_items@.len() - i,
        {
            let it = &self.sub_items[i];
            if crate::archive::str_eq(it.data.content_type.as_str(), "application/pdf")
                && it.data.filename.is_some() {
                return Some(it);
            }
            i += 1;
        }
        None
    }
}

} // verus!
