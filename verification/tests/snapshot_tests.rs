use zotero_sync::access::{has_required_access, session_status_ok, Access, User};
use zotero_sync::auth::Secret;
use zotero_sync::item::{Item, ItemData};
use zotero_sync::refresh::{parse_collections, parse_items};
use zotero_sync::zotero_data::Data;

fn item(key: &str, parent: Option<&str>, collections: Option<&[&str]>, title: Option<&str>) -> Item {
    Item {
        key: key.to_string(),
        data: ItemData {
            key: key.to_string(),
            parent_item: parent.map(|p| p.to_string()),
            collections: collections.map(|cs| cs.iter().map(|c| c.to_string()).collect()),
            title: title.map(|t| t.to_string()),
            ..ItemData::default()
        },
        ..Item::default()
    }
}

fn snapshot() -> Data {
    let (collections, _) = parse_collections(vec![]);
    let (items, collections_item_map, _) = parse_items(vec![
        item("R1", None, Some(&["C"]), Some("Titled")),
        item("R2", None, Some(&[]), None),
        item("S1", Some("R1"), None, None),
    ]);
    Data {
        collections,
        items,
        collections_item_map,
    }
}

#[test]
fn overview_counts_items_and_unfiled_items() {
    let data = snapshot();
    let (tree, total, unfiled) = data.collections_overview();
    assert!(tree.is_empty());
    assert_eq!(total, 2);
    // R2 declares no memberships and S1 carries no membership list at all:
    // both count as unfiled
    assert_eq!(unfiled, 2);
}

#[test]
fn all_items_listing_covers_every_root() {
    let data = snapshot();
    let listed = data.items_by_collection("all-items");
    let pairs: Vec<(&str, &str)> = listed
        .iter()
        .map(|s| (s.key.as_str(), s.title.as_str()))
        .collect();
    // the all-items view falls back to an empty title
    assert_eq!(pairs, [("R1", "Titled"), ("R2", "")]);
}

#[test]
fn listing_a_collection_reads_its_bucket() {
    let data = snapshot();
    let listed = data.items_by_collection("C");
    assert_eq!(listed.len(), 1);
    assert_eq!(listed[0].key, "R1");
    assert_eq!(listed[0].title, "Titled");
    assert!(data.items_by_collection("UNKNOWN").is_empty());
}

#[test]
fn pdf_attachment_lookup_takes_the_first_match() {
    let mut root = item("R", None, None, None);
    let mut a1 = item("A1", Some("R"), None, None);
    a1.data.content_type = "text/plain".to_string();
    let mut a2 = item("A2", Some("R"), None, None);
    a2.data.content_type = "application/pdf".to_string();
    a2.data.filename = Some("a2.pdf".to_string());
    let mut a3 = item("A3", Some("R"), None, None);
    a3.data.content_type = "application/pdf".to_string();
    a3.data.filename = Some("a3.pdf".to_string());
    root.sub_items = vec![a1, a2, a3];
    let found = root.find_pdf_attachment().unwrap();
    assert_eq!(found.key, "A2");

    let mut bare = item("B", None, None, None);
    let mut nameless = item("N", Some("B"), None, None);
    nameless.data.content_type = "application/pdf".to_string();
    bare.sub_items = vec![nameless];
    assert!(bare.find_pdf_attachment().is_none());
}

#[test]
fn access_check_requires_files_library_and_notes() {
    let full = Access {
        user: User {
            library: true,
            files: true,
            notes: true,
            write: false,
        },
    };
    assert!(has_required_access(&full));
    let partial = Access {
        user: User {
            library: true,
            files: true,
            notes: false,
            write: true,
        },
    };
    assert!(!has_required_access(&partial));
    assert!(!has_required_access(&Access::default()));
}

#[test]
fn session_status_rule_accepts_success_and_not_modified() {
    assert!(session_status_ok(true, 200));
    assert!(session_status_ok(false, 304));
    assert!(!session_status_ok(false, 403));
}

#[test]
fn secrets_round_trip_without_exposure_by_accident() {
    let s: Secret = "k1".into();
    assert_eq!(s.as_str(), "k1");
    let owned: Secret = String::from("k2").into();
    assert_eq!(owned.into_string(), "k2");
}
