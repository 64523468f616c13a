use zotero_sync::collection::{Collection, Data};
use zotero_sync::item::{Item, ItemData};
use zotero_sync::refresh::{parse_collections, parse_items};
use zotero_sync::zotero_data::CollectionsData;

fn rec(key: &str, name: &str, parent: Option<&str>) -> Collection {
    Collection {
        key: key.to_string(),
        data: Data {
            key: key.to_string(),
            name: name.to_string(),
            parent_collection: parent.map(|p| p.to_string()),
            ..Data::default()
        },
        ..Collection::default()
    }
}

fn names(nodes: &[CollectionsData]) -> Vec<&str> {
    nodes.iter().map(|n| n.name.as_str()).collect()
}

#[test]
fn empty_collection_list_builds_an_empty_tree() {
    let (roots, diag) = parse_collections(vec![]);
    assert!(roots.is_empty());
    assert!(diag.is_empty());
}

#[test]
fn roots_and_children_sort_by_name() {
    let input = vec![
        rec("Z", "Zeta", None),
        rec("A", "Alpha", None),
        rec("ZC2", "Beth", Some("Z")),
        rec("ZC1", "Aleph", Some("Z")),
    ];
    let (roots, diag) = parse_collections(input);
    assert!(diag.is_empty());
    assert_eq!(names(&roots), ["Alpha", "Zeta"]);
    assert!(roots[0].children.is_none());
    let kids = roots[1].children.as_ref().unwrap();
    assert_eq!(names(kids), ["Aleph", "Beth"]);
    assert_eq!(kids[0].father.as_deref(), Some("Z"));
    assert_eq!(roots[1].father, None);
}

#[test]
fn children_may_arrive_before_their_parents() {
    let input = vec![
        rec("GC", "Grandchild", Some("C")),
        rec("C", "Child", Some("R")),
        rec("R", "Root", None),
    ];
    let (roots, diag) = parse_collections(input);
    assert!(diag.is_empty());
    assert_eq!(names(&roots), ["Root"]);
    let child = &roots[0].children.as_ref().unwrap()[0];
    assert_eq!(child.key, "C");
    let grandchild = &child.children.as_ref().unwrap()[0];
    assert_eq!(grandchild.key, "GC");
}

#[test]
fn dangling_records_are_reported_and_dropped() {
    let input = vec![
        rec("R", "Root", None),
        rec("D", "Dangling", Some("NOWHERE")),
        rec("DC", "DanglingChild", Some("D")),
    ];
    let (roots, diag) = parse_collections(input);
    assert_eq!(names(&roots), ["Root"]);
    assert!(roots[0].children.is_none());
    let dropped: Vec<&str> = diag.iter().map(|c| c.data.key.as_str()).collect();
    assert_eq!(dropped, ["D", "DC"]);
}

#[test]
fn rebuilding_the_tree_is_idempotent() {
    let input = || {
        vec![
            rec("B", "Bravo", None),
            rec("A", "Alpha", None),
            rec("C", "Charlie", Some("A")),
        ]
    };
    let (r1, d1) = parse_collections(input());
    let (r2, d2) = parse_collections(input());
    assert_eq!(names(&r1), names(&r2));
    assert_eq!(r1[0].children.as_ref().unwrap()[0].key, "C");
    assert_eq!(r2[0].children.as_ref().unwrap()[0].key, "C");
    assert_eq!(d1.len(), d2.len());
}

fn item(key: &str, parent: Option<&str>, collections: Option<&[&str]>, title: Option<&str>) -> Item {
    Item {
        key: key.to_string(),
        data: ItemData {
            key: key.to_string(),
            parent_item: parent.map(|p| p.to_string()),
            collections: collections.map(|cs| cs.iter().map(|c| c.to_string()).collect()),
            title: title.map(|t| t.to_string()),
            ..ItemData::default()
        },
        ..Item::default()
    }
}

#[test]
fn empty_item_list_builds_empty_results() {
    let (map, index, diag) = parse_items(vec![]);
    assert_eq!(map.len(), 0);
    assert!(index.get("").is_none());
    assert!(diag.is_empty());
}

#[test]
fn items_split_into_roots_and_attached_sub_items() {
    let input = vec![
        item("R1", None, Some(&["COLL"]), Some("First")),
        item("S1", Some("R1"), None, Some("Attachment")),
        item("R2", None, Some(&[]), None),
        item("S2", Some("R1"), None, None),
    ];
    let (map, _, diag) = parse_items(input);
    assert!(diag.is_empty());
    assert_eq!(map.len(), 2);
    let r1 = map.get("R1").unwrap();
    let subs: Vec<&str> = r1.sub_items.iter().map(|s| s.key.as_str()).collect();
    assert_eq!(subs, ["S1", "S2"]);
    let r2 = map.get("R2").unwrap();
    assert!(r2.sub_items.is_empty());
    assert!(map.get("S1").is_none());
}

#[test]
fn items_with_unknown_parents_are_reported_and_dropped() {
    let input = vec![
        item("R1", None, None, None),
        item("ORPHAN", Some("MISSING"), None, None),
        item("NESTED", Some("ORPHAN"), None, None),
    ];
    let (map, _, diag) = parse_items(input);
    assert_eq!(map.len(), 1);
    let dropped: Vec<&str> = diag.iter().map(|d| d.key.as_str()).collect();
    // a sub-item's own children are not re-attached: one level of nesting only
    assert_eq!(dropped, ["ORPHAN", "NESTED"]);
}

#[test]
fn index_files_items_under_each_membership() {
    let input = vec![
        item("I1", None, Some(&["CA", "CB"]), Some("One")),
        item("I2", None, Some(&[]), None),
        item("I3", None, None, Some("Unfiled entirely")),
        item("I4", None, Some(&["CA"]), Some("Four")),
    ];
    let (_, index, _) = parse_items(input);
    let ca = index.get("CA").unwrap();
    let keys: Vec<&str> = ca.iter().map(|s| s.key.as_str()).collect();
    assert_eq!(keys, ["I1", "I4"]);
    assert_eq!(ca[0].title, "One");
    let cb = index.get("CB").unwrap();
    assert_eq!(cb.len(), 1);
    // zero memberships file under the sentinel key, whether the list is
    // declared empty or missing altogether
    let sentinel = index.get("").unwrap();
    let keys: Vec<&str> = sentinel.iter().map(|s| s.key.as_str()).collect();
    assert_eq!(keys, ["I2", "I3"]);
    assert_eq!(sentinel[0].title, "unknown name");
    assert_eq!(sentinel[1].title, "Unfiled entirely");
    assert!(index.get("I3").is_none());
    assert!(index.get("CC").is_none());
}

#[test]
fn missing_membership_list_counts_as_empty() {
    let input = vec![item("LONE", None, None, None)];
    let (_, index, _) = parse_items(input);
    let sentinel = index.get("").unwrap();
    assert_eq!(sentinel.len(), 1);
    assert_eq!(sentinel[0].key, "LONE");
}

#[test]
fn duplicate_membership_keys_file_once() {
    let input = vec![
        item("I1", None, Some(&["CA", "CA", "CB"]), Some("One")),
        item("I2", None, Some(&["CA"]), Some("Two")),
    ];
    let (_, index, _) = parse_items(input);
    let ca = index.get("CA").unwrap();
    let keys: Vec<&str> = ca.iter().map(|s| s.key.as_str()).collect();
    assert_eq!(keys, ["I1", "I2"]);
    assert_eq!(index.get("CB").unwrap().len(), 1);
}

#[test]
fn rebuilding_the_forest_is_idempotent() {
    let input = || {
        vec![
            item("R1", None, Some(&["C"]), Some("T")),
            item("S1", Some("R1"), None, None),
        ]
    };
    let (m1, x1, d1) = parse_items(input());
    let (m2, x2, d2) = parse_items(input());
    assert_eq!(m1.len(), m2.len());
    assert_eq!(
        m1.get("R1").unwrap().sub_items.len(),
        m2.get("R1").unwrap().sub_items.len()
    );
    assert_eq!(x1.get("C").unwrap().len(), x2.get("C").unwrap().len());
    assert_eq!(d1.len(), d2.len());
}
