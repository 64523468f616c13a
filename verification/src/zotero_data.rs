//! The in-memory library snapshot's shapes: the rebuilt collection tree and
//! the lightweight item summaries, plus the mathematical model of a
//! well-formed tree.

use vstd::multiset::Multiset;
use vstd::prelude::*;

use crate::collection::opt_str_view;
use crate::text::{lex_le, msum};

verus! {

/// A node of the rebuilt collection tree. `children` is present exactly when
/// the node has at least one child; `father` carries the record's parent
/// reference unchanged.
#[derive(Debug)]
pub struct CollectionsData {
    pub name: String,
    pub key: String,
    pub children: Option<Vec<CollectionsData>>,
    pub father: Option<String>,
}

/// A lightweight item summary listed under a collection.
#[derive(Debug)]
pub struct SimpleItemData {
    pub key: String,
    pub title: String,
}

/// The reserved key that files items belonging to no collection.
pub const EMPTY_COLLECTION_KEY: &'static str = "";

// ---------------------------------------------------------------------------
// The tree's mathematical model
// ---------------------------------------------------------------------------

/// What one record contributes: its key, name and parent reference.
pub open spec fn node_triple(n: CollectionsData) -> (Seq<char>, Seq<char>, Option<Seq<char>>) {
    (n.key@, n.name@, opt_str_view(n.father))
}

/// Every record triple in the subtree rooted at `n`, with multiplicity.
pub open spec fn node_triples(n: CollectionsData) -> Multiset<
    (Seq<char>, Seq<char>, Option<Seq<char>>),
>
    decreases n,
{
    match n.children {
        None => Multiset::singleton(node_triple(n)),
        Some(cs) => Multiset::singleton(node_triple(n)).add(forest_triples_rec(cs@)),
    }
}

pub open spec fn forest_triples_rec(s: Seq<CollectionsData>) -> Multiset<
    (Seq<char>, Seq<char>, Option<Seq<char>>),
>
    decreases s,
{
    if s.len() == 0 {
        Multiset::empty()
    } else {
        node_triples(s[0]).add(forest_triples_rec(s.drop_first()))
    }
}

/// Every key in the subtree rooted at `n`, with multiplicity.
pub open spec fn node_keys(n: CollectionsData) -> Multiset<Seq<char>>
    decreases n,
{
    match n.children {
        None => Multiset::singleton(n.key@),
        Some(cs) => Multiset::singleton(n.key@).add(forest_keys_rec(cs@)),
    }
}

pub open spec fn forest_keys_rec(s: Seq<CollectionsData>) -> Multiset<Seq<char>>
    decreases s,
{
    if s.len() == 0 {
        Multiset::empty()
    } else {
        node_keys(s[0]).add(forest_keys_rec(s.drop_first()))
    }
}

/// The recursive folds above are the multiset sums over the sequence, so
/// reordering a level leaves them unchanged.
pub proof fn lemma_forest_triples_is_msum(s: Seq<CollectionsData>)
    ensures
        forest_triples_rec(s) == msum(s, |n: CollectionsData| node_triples(n)),
        forest_keys_rec(s) == msum(s, |n: CollectionsData| node_keys(n)),
    decreases s.len(),
{
    if s.len() > 0 {
        lemma_forest_triples_is_msum(s.drop_first());
    }
}

/// Names are ascending at one level.
pub open spec fn sorted_by_name(s: Seq<CollectionsData>) -> bool {
    forall|i: int, j: int| 0 <= i < j < s.len() ==> lex_le(s[i].name@, s[j].name@)
}

/// Well-formed subtree: a present child list is non-empty and sorted by
/// name, every child's parent reference is this node's key, and every child
/// is well-formed in turn.
pub open spec fn node_wf(n: CollectionsData) -> bool
    decreases n,
{
    match n.children {
        None => true,
        Some(cs) => {
            &&& cs@.len() > 0
            &&& sorted_by_name(cs@)
            &&& (forall|i: int|
                0 <= i < cs@.len() ==> opt_str_view(#[trigger] cs@[i].father) == Some(n.key@))
            &&& forest_wf(cs@)
        },
    }
}

pub open spec fn forest_wf(s: Seq<CollectionsData>) -> bool
    decreases s,
{
    s.len() == 0 || (node_wf(s[0]) && forest_wf(s.drop_first()))
}

pub proof fn lemma_forest_wf_all(s: Seq<CollectionsData>)
    requires
        forall|i: int| 0 <= i < s.len() ==> node_wf(#[trigger] s[i]),
    ensures
        forest_wf(s),
    decreases s.len(),
{
    if s.len() > 0 {
        assert(forall|i: int| 0 <= i < s.drop_first().len() ==> node_wf(#[trigger] s.drop_first()[i]));
        lemma_forest_wf_all(s.drop_first());
    }
}

} // verus!

verus! {

broadcast use vstd::multiset::group_multiset_axioms, vstd::seq_lib::group_to_multiset_ensures;

/// Appending a node to a level adds its subtree to the folds.
pub proof fn lemma_forest_push(s: Seq<CollectionsData>, x: CollectionsData)
    ensures
        forest_triples_rec(s.push(x)) == forest_triples_rec(s).add(node_triples(x)),
        forest_keys_rec(s.push(x)) == forest_keys_rec(s).add(node_keys(x)),
{
    lemma_forest_triples_is_msum(s.push(x));
    lemma_forest_triples_is_msum(s);
    crate::text::lemma_msum_push(s, |n: CollectionsData| node_triples(n), x);
    crate::text::lemma_msum_push(s, |n: CollectionsData| node_keys(n), x);
}

/// Reordering a level leaves the folds unchanged.
pub proof fn lemma_forest_permutation(s1: Seq<CollectionsData>, s2: Seq<CollectionsData>)
    requires
        s1.to_multiset() == s2.to_multiset(),
    ensures
        forest_triples_rec(s1) == forest_triples_rec(s2),
        forest_keys_rec(s1) == forest_keys_rec(s2),
{
    lemma_forest_triples_is_msum(s1);
    lemma_forest_triples_is_msum(s2);
    crate::text::lemma_msum_permutation(s1, s2, |n: CollectionsData| node_triples(n));
    crate::text::lemma_msum_permutation(s1, s2, |n: CollectionsData| node_keys(n));
}

/// A forest holds at least one key per root.
pub proof fn lemma_forest_keys_len(s: Seq<CollectionsData>)
    ensures
        forest_keys_rec(s).len() >= s.len(),
    decreases s.len(),
{
    if s.len() > 0 {
        lemma_forest_keys_len(s.drop_first());
        assert(node_keys(s[0]).len() >= 1) by {
            match s[0].children {
                None => {},
                Some(_) => {},
            }
        }
    }
}

} // verus!

verus! {

use crate::item::{is_root, item_eq_except_subs, Item};

// ---------------------------------------------------------------------------
// The item forest and its collection index
// ---------------------------------------------------------------------------

/// The rebuilt item map: forest roots in input order, each carrying the
/// sub-items attached to it.
#[derive(Debug)]
pub struct ItemMap {
    pub(crate) items: Vec<Item>,
}

impl View for ItemMap {
    type V = Seq<Item>;

    closed spec fn view(&self) -> Seq<Item> {
        self.items@
    }
}

impl ItemMap {
    pub fn len(&self) -> (r: usize)
        ensures
            r == self@.len(),
    {
        self.items.len()
    }

    pub fn entries(&self) -> (r: &Vec<Item>)
        ensures
            r@ == self@,
    {
        &self.items
    }

    /// Looks an item up by key.
    pub fn get(&self, key: &str) -> (r: Option<&Item>)
        ensures
            match r {
                Some(it) => exists|i: int|
                    0 <= i < self@.len() && #[trigger] self@[i] == *it && it.key@ == key@,
                None => forall|i: int| 0 <= i < self@.len() ==> (#[trigger] self@[i]).key@ != key@,
            },
    {
        let mut i: usize = 0;
        while i < self.items.len()
            invariant
                0 <= i <= self@.len(),
                self@ == self.items@,
                forall|j: int| 0 <= j < i ==> (#[trigger] self@[j]).key@ != key@,
            decreases self@.len() - i,
        {
            if crate::archive::str_eq(self.items[i].key.as_str(), key) {
                return Some(&self.items[i]);
            }
            i += 1;
        }
        None
    }
}

/// One bucket of the collection-item index: the summaries filed under one
/// collection key, in input order.
#[derive(Debug)]
pub struct CollectionBucket {
    pub key: String,
    pub items: Vec<SimpleItemData>,
}

/// The collection-item index: one bucket per mentioned collection key (the
/// sentinel key holds the unfiled items).
#[derive(Debug)]
pub struct CollectionItemIndex {
    pub(crate) buckets: Vec<CollectionBucket>,
}

impl View for CollectionItemIndex {
    type V = Seq<CollectionBucket>;

    closed spec fn view(&self) -> Seq<CollectionBucket> {
        self.buckets@
    }
}

/// First bucket under a key, if any.
pub open spec fn index_lookup(bs: Seq<CollectionBucket>, k: Seq<char>) -> Option<
    Seq<SimpleItemData>,
>
    decreases bs.len(),
{
    if bs.len() == 0 {
        None
    } else if bs[0].key@ == k {
        Some(bs[0].items@)
    } else {
        index_lookup(bs.drop_first(), k)
    }
}

impl CollectionItemIndex {
    /// Looks the summaries under a collection key up.
    pub fn get(&self, key: &str) -> (r: Option<&Vec<SimpleItemData>>)
        ensures
            match r {
                Some(v) => index_lookup(self@, key@) == Some(v@),
                None => index_lookup(self@, key@) is None,
            },
    {
        let mut i: usize = 0;
        proof {
            assert(self@.skip(0) =~= self@);
        }
        while i < self.buckets.len()
            invariant
                0 <= i <= self@.len(),
                self@ == self.buckets@,
                index_lookup(self@, key@) == index_lookup(self@.skip(i as int), key@),
            decreases self@.len() - i,
        {
            proof {
                assert(self@.skip(i as int)[0] == self@[i as int]);
                assert(self@.skip(i as int).drop_first() =~= self@.skip(i + 1));
            }
            if crate::archive::str_eq(self.buckets[i].key.as_str(), key) {
                return Some(&self.buckets[i].items);
            }
            i += 1;
        }
        proof {
            assert(self@.skip(self@.len() as int).len() == 0);
        }
        None
    }
}

/// The model of one summary.
pub open spec fn simple_view(s: SimpleItemData) -> (Seq<char>, Seq<char>) {
    (s.key@, s.title@)
}

/// An item's listed title, or the placeholder used by the index.
pub open spec fn title_or_unknown(it: Item) -> Seq<char> {
    match it.data.title {
        Some(t) => t@,
        None => "unknown name"@,
    }
}

/// The summary the index files for an item.
pub open spec fn summary_of(it: Item) -> (Seq<char>, Seq<char>) {
    (it.key@, title_or_unknown(it))
}

/// Whether an item is filed under collection key `c`: under every declared
/// membership, or under the sentinel key when it belongs to zero
/// collections. A missing membership list counts as the empty list.
pub open spec fn mentions(it: Item, c: Seq<char>) -> bool {
    match it.data.collections {
        Some(cs) => {
            if cs@.len() == 0 {
                c == EMPTY_COLLECTION_KEY@
            } else {
                exists|i: int| 0 <= i < cs@.len() && (#[trigger] cs@[i])@ == c
            }
        },
        None => c == EMPTY_COLLECTION_KEY@,
    }
}

/// The summaries filed under `c`, in input order.
pub open spec fn bucket_spec(items: Seq<Item>, c: Seq<char>) -> Seq<(Seq<char>, Seq<char>)> {
    items.filter(|it: Item| mentions(it, c)).map_values(|it: Item| summary_of(it))
}

/// The items attached under a root key, in input order.
pub open spec fn attached_to(items: Seq<Item>, k: Seq<char>) -> Seq<Item> {
    items.filter(
        |it: Item| crate::collection::opt_str_view(it.data.parent_item) == Some::<Seq<char>>(k),
    )
}

/// The forest contract: the entries are the input's root items in input
/// order, each unchanged except that the items referring to it are appended
/// to its sub-item list in input order.
pub open spec fn forest_matches(items: Seq<Item>, entries: Seq<Item>) -> bool {
    let roots = roots_of(items);
    &&& entries.len() == roots.len()
    &&& (forall|j: int|
        0 <= j < entries.len() ==> item_eq_except_subs(#[trigger] entries[j], roots[j]))
    &&& (forall|j: int|
        0 <= j < entries.len() ==> (#[trigger] entries[j]).sub_items@ == roots[j].sub_items@
            + attached_to(items, roots[j].key@))
}

/// Whether some root item of the list carries this key.
pub open spec fn root_keys_contain(items: Seq<Item>, k: Seq<char>) -> bool {
    exists|i: int|
        0 <= i < items.len() && is_root(#[trigger] items[i]) && items[i].key@ == k
}

/// A dropped item: it refers to a parent that is not a forest root.
pub open spec fn dangling(items: Seq<Item>, it: Item) -> bool {
    it.data.parent_item is Some && !root_keys_contain(
        items,
        crate::collection::opt_str_view(it.data.parent_item)->0,
    )
}

/// The whole in-memory library snapshot, rebuilt on refresh and swapped in
/// atomically by the caller.
#[derive(Debug)]
pub struct Data {
    pub collections: Vec<CollectionsData>,
    pub items: ItemMap,
    pub collections_item_map: CollectionItemIndex,
}

} // verus!

verus! {

/// Updating the bucket at `b` (keeping its key) changes only that key's
/// lookup, when bucket keys are distinct.
pub proof fn lemma_index_lookup_update(
    bs: Seq<CollectionBucket>,
    b: int,
    x: CollectionBucket,
    c: Seq<char>,
)
    requires
        0 <= b < bs.len(),
        x.key@ == bs[b].key@,
        forall|i: int, j: int|
            0 <= i < j < bs.len() ==> (#[trigger] bs[i]).key@ != (#[trigger] bs[j]).key@,
    ensures
        index_lookup(bs.update(b, x), c) == if c == x.key@ {
            Some(x.items@)
        } else {
            index_lookup(bs, c)
        },
    decreases bs.len(),
{
    let bs2 = bs.update(b, x);
    if b == 0 {
        assert(bs2[0] == x);
        if c != x.key@ {
            assert(bs2.drop_first() =~= bs.drop_first());
        }
    } else {
        assert(bs2[0] == bs[0]);
        assert(bs2.drop_first() =~= bs.drop_first().update(b - 1, x));
        assert(forall|i: int, j: int|
            0 <= i < j < bs.drop_first().len() ==> (#[trigger] bs.drop_first()[i]).key@ != (
            #[trigger] bs.drop_first()[j]).key@);
        lemma_index_lookup_update(bs.drop_first(), b - 1, x, c);
        if c == x.key@ {
            assert(bs[0].key@ != bs[b].key@);
        }
    }
}

/// Appending a bucket adds a lookup entry only for a key not yet present.
pub proof fn lemma_index_lookup_push(bs: Seq<CollectionBucket>, nb: CollectionBucket, c: Seq<char>)
    ensures
        index_lookup(bs.push(nb), c) == if index_lookup(bs, c) is Some {
            index_lookup(bs, c)
        } else if c == nb.key@ {
            Some(nb.items@)
        } else {
            None::<Seq<SimpleItemData>>
        },
    decreases bs.len(),
{
    if bs.len() == 0 {
        assert(bs.push(nb)[0] == nb);
        assert(bs.push(nb).drop_first() =~= Seq::<CollectionBucket>::empty());
    } else {
        assert(bs.push(nb)[0] == bs[0]);
        assert(bs.push(nb).drop_first() =~= bs.drop_first().push(nb));
        lemma_index_lookup_push(bs.drop_first(), nb, c);
    }
}

/// A found bucket is a bucket of the sequence.
pub proof fn lemma_index_lookup_member(bs: Seq<CollectionBucket>, c: Seq<char>)
    ensures
        match index_lookup(bs, c) {
            Some(s) => exists|b: int|
                0 <= b < bs.len() && (#[trigger] bs[b]).key@ == c && bs[b].items@ == s,
            None => forall|b: int| 0 <= b < bs.len() ==> (#[trigger] bs[b]).key@ != c,
        },
    decreases bs.len(),
{
    if bs.len() > 0 {
        lemma_index_lookup_member(bs.drop_first(), c);
        if bs[0].key@ == c {
            assert(bs[0].key@ == c && bs[0].items@ == index_lookup(bs, c)->0);
        } else {
            match index_lookup(bs.drop_first(), c) {
                Some(s) => {
                    let b = choose|b: int|
                        0 <= b < bs.drop_first().len() && (#[trigger] bs.drop_first()[b]).key@ == c
                            && bs.drop_first()[b].items@ == s;
                    assert(bs[b + 1].key@ == c && bs[b + 1].items@ == s);
                },
                None => {
                    assert forall|b: int| 0 <= b < bs.len() implies (#[trigger] bs[b]).key@
                        != c by {
                        if b > 0 {
                            assert(bs.drop_first()[b - 1].key@ != c);
                        }
                    }
                },
            }
        }
    }
}

} // verus!

verus! {

/// The first bucket carrying `c` is what lookup returns.
pub proof fn lemma_index_lookup_at(bs: Seq<CollectionBucket>, c: Seq<char>, b: int)
    requires
        0 <= b < bs.len(),
        bs[b].key@ == c,
        forall|j: int| 0 <= j < b ==> (#[trigger] bs[j]).key@ != c,
    ensures
        index_lookup(bs, c) == Some(bs[b].items@),
    decreases bs.len(),
{
    if b > 0 {
        assert(forall|j: int|
            0 <= j < b - 1 ==> (#[trigger] bs.drop_first()[j]).key@ != c);
        lemma_index_lookup_at(bs.drop_first(), c, b - 1);
    }
}

} // verus!

verus! {

use crate::item::is_root as item_is_root;
use crate::text::{lemma_filter_push, lemma_filter_subsume};

/// The root items of a flat list, in input order.
pub open spec fn roots_of(items: Seq<Item>) -> Seq<Item> {
    items.filter(|it: Item| item_is_root(it))
}

/// The deferred items of a flat list (those with a parent reference), in
/// input order.
pub open spec fn deferred_of(items: Seq<Item>) -> Seq<Item> {
    items.filter(|it: Item| !item_is_root(it))
}

/// The items of `s` whose parent chain dangles with respect to `all`.
pub open spec fn dangling_from(all: Seq<Item>, s: Seq<Item>) -> Seq<Item> {
    s.filter(|it: Item| dangling(all, it))
}

pub proof fn lemma_roots_push(s: Seq<Item>, x: Item)
    ensures
        roots_of(s.push(x)) == if item_is_root(x) {
            roots_of(s).push(x)
        } else {
            roots_of(s)
        },
        deferred_of(s.push(x)) == if item_is_root(x) {
            deferred_of(s)
        } else {
            deferred_of(s).push(x)
        },
{
    lemma_filter_push(s, |it: Item| item_is_root(it), x);
    lemma_filter_push(s, |it: Item| !item_is_root(it), x);
}

pub proof fn lemma_dangling_push(all: Seq<Item>, s: Seq<Item>, x: Item)
    ensures
        dangling_from(all, s.push(x)) == if dangling(all, x) {
            dangling_from(all, s).push(x)
        } else {
            dangling_from(all, s)
        },
{
    lemma_filter_push(s, |it: Item| dangling(all, it), x);
}

pub proof fn lemma_attached_push(s: Seq<Item>, x: Item, k: Seq<char>)
    ensures
        attached_to(s.push(x), k) == if crate::collection::opt_str_view(x.data.parent_item)
            == Some::<Seq<char>>(k) {
            attached_to(s, k).push(x)
        } else {
            attached_to(s, k)
        },
{
    lemma_filter_push(
        s,
        |it: Item| crate::collection::opt_str_view(it.data.parent_item) == Some::<Seq<char>>(k),
        x,
    );
}

pub proof fn lemma_bucket_spec_push(items: Seq<Item>, x: Item, c: Seq<char>)
    ensures
        bucket_spec(items.push(x), c) == if mentions(x, c) {
            bucket_spec(items, c).push(summary_of(x))
        } else {
            bucket_spec(items, c)
        },
{
    lemma_filter_push(items, |it: Item| mentions(it, c), x);
    if mentions(x, c) {
        assert(items.filter(|it: Item| mentions(it, c)).push(x).map_values(
            |it: Item| summary_of(it),
        ) =~= bucket_spec(items, c).push(summary_of(x)));
    }
}

/// Root items of a key-distinct list have pairwise distinct keys, and each
/// root is an input item.
pub proof fn lemma_roots_distinct(items: Seq<Item>)
    requires
        forall|i: int, j: int|
            0 <= i < j < items.len() ==> (#[trigger] items[i]).key@ != (#[trigger] items[j]).key@,
    ensures
        forall|i: int, j: int|
            0 <= i < j < roots_of(items).len() ==> (#[trigger] roots_of(items)[i]).key@ != (
            #[trigger] roots_of(items)[j]).key@,
        forall|i: int|
            0 <= i < roots_of(items).len() ==> items.contains(#[trigger] roots_of(items)[i])
                && item_is_root(roots_of(items)[i]),
    decreases items.len(),
{
    reveal(Seq::filter);
    items.filter_lemma(|it: Item| item_is_root(it));
    if items.len() > 0 {
        let d = items.drop_last();
        assert(forall|i: int, j: int|
            0 <= i < j < d.len() ==> (#[trigger] d[i]).key@ != (#[trigger] d[j]).key@);
        lemma_roots_distinct(d);
        let rs = roots_of(items);
        let rd = roots_of(d);
        assert forall|i: int, j: int|
            0 <= i < j < rs.len() implies (#[trigger] rs[i]).key@ != (#[trigger] rs[j]).key@ by {
            if j < rs.len() - 1 || !item_is_root(items.last()) {
                assert(rs[i] == rd[i] && rs[j] == rd[j]);
            } else {
                assert(rs[i] == rd[i]);
                assert(rs[j] == items.last());
                assert(d.contains(rd[i]));
                let w = choose|w: int| 0 <= w < d.len() && d[w] == rd[i];
                assert(items[w].key@ != items[items.len() - 1].key@);
            }
        }
        assert forall|i: int|
            0 <= i < rs.len() implies items.contains(#[trigger] rs[i]) && item_is_root(rs[i]) by {
            if i < rd.len() {
                assert(rs[i] == rd[i]);
                assert(d.contains(rd[i]));
                let w = choose|w: int| 0 <= w < d.len() && d[w] == rd[i];
                assert(items[w] == rs[i]);
            } else {
                assert(rs[i] == items.last());
                assert(items[items.len() - 1] == rs[i]);
            }
        }
    }
}

/// Attachment can be computed over the deferred items alone, and the
/// dangling items over the deferred items are the dangling items overall.
pub proof fn lemma_forest_filters(items: Seq<Item>, k: Seq<char>)
    ensures
        attached_to(deferred_of(items), k) == attached_to(items, k),
        dangling_from(items, deferred_of(items)) == dangling_from(items, items),
{
    lemma_filter_subsume(
        items,
        |it: Item| !item_is_root(it),
        |it: Item| crate::collection::opt_str_view(it.data.parent_item) == Some::<Seq<char>>(k),
    );
    lemma_filter_subsume(items, |it: Item| !item_is_root(it), |it: Item| dangling(items, it));
}

} // verus!

verus! {

impl ItemMap {
    pub(crate) fn from_items(items: Vec<Item>) -> (r: Self)
        ensures
            r@ == items@,
    {
        ItemMap { items }
    }
}

impl CollectionItemIndex {
    pub(crate) fn from_buckets(buckets: Vec<CollectionBucket>) -> (r: Self)
        ensures
            r@ == buckets@,
    {
        CollectionItemIndex { buckets }
    }
}

} // verus!

verus! {

/// The summary listed in the all-items view: a missing title becomes the
/// empty string there.
pub open spec fn all_items_summary(it: Item) -> (Seq<char>, Seq<char>) {
    (
        it.key@,
        match it.data.title {
            Some(t) => t@,
            None => Seq::empty(),
        },
    )
}

impl Data {
    /// The collections screen's data: the tree, how many root items the
    /// library holds, and how many items are filed under no collection.
    pub fn collections_overview(&self) -> (r: (&Vec<CollectionsData>, usize, usize))
        ensures
            r.0@ == self.collections@,
            r.1 == self.items@.len(),
            r.2 == match index_lookup(self.collections_item_map@, EMPTY_COLLECTION_KEY@) {
                Some(s) => s.len() as int,
                None => 0int,
            },
    {
        let unfiled = match self.collections_item_map.get(EMPTY_COLLECTION_KEY) {
            Some(v) => v.len(),
            None => 0,
        };
        (&self.collections, self.items.len(), unfiled)
    }

    /// The summaries to list for one collection key. The special key
    /// `"all-items"` lists every root item (with empty fallback titles);
    /// any other key lists its index bucket, or nothing without one.
    pub fn items_by_collection(&self, collection_key: &str) -> (r: Vec<SimpleItemData>)
        ensures
            collection_key@ == "all-items"@ ==> r@.map_values(|s: SimpleItemData| simple_view(s))
                == self.items@.map_values(|it: Item| all_items_summary(it)),
            collection_key@ != "all-items"@ ==> r@.map_values(|s: SimpleItemData| simple_view(s))
                == match index_lookup(self.collections_item_map@, collection_key@) {
                Some(s) => s.map_values(|x: SimpleItemData| simple_view(x)),
                None => Seq::empty(),
            },
    {
        if crate::archive::str_eq(collection_key, "all-items") {
            let entries = self.items.entries();
            let mut out: Vec<SimpleItemData> = Vec::new();
            let mut i: usize = 0;
            proof {
                assert(out@.map_values(|s: SimpleItemData| simple_view(s)) =~= self.items@.subrange(
                    0,
                    0,
                ).map_values(|it: Item| all_items_summary(it)));
            }
            #[verifier::loop_isolation(false)]
            while i < entries.len()
                invariant
                    0 <= i <= self.items@.len(),
                    out@.map_values(|s: SimpleItemData| simple_view(s)) == self.items@.subrange(
                        0,
                        i as int,
                    ).map_values(|it: Item| all_items_summary(it)),
                decreases self.items@.len() - i,
            {
                let it = &entries[i];
                let title = match &it.data.title {
                    Some(t) => crate::archive::clone_string(t),
                    None => String::new(),
                };
                let ghost out0 = out@;
                out.push(SimpleItemData { key: crate::archive::clone_string(&it.key), title });
                proof {
                    assert(simple_view(out@[i as int]) == all_items_summary(self.items@[i as int]));
                    assert forall|w: int| 0 <= w < out@.len() implies simple_view(#[trigger] out@[w])
                        == all_items_summary(self.items@.subrange(0, i + 1)[w]) by {
                        if w < i {
                            assert(out@[w] == out0[w]);
                            assert(out0.map_values(|s: SimpleItemData| simple_view(s))[w]
                                == simple_view(out0[w]));
                            assert(self.items@.subrange(0, i as int).map_values(
                                |it: Item| all_items_summary(it),
                            )[w] == all_items_summary(self.items@.subrange(0, i as int)[w]));
                        }
                    }
                    assert(out@.map_values(|s: SimpleItemData| simple_view(s))
                        =~~= self.items@.subrange(0, i + 1).map_values(
                        |it: Item| all_items_summary(it),
                    ));
                }
                i += 1;
            }
            proof {
                assert(self.items@.subrange(0, self.items@.len() as int) =~= self.items@);
            }
            out
        } else {
            match self.collections_item_map.get(collection_key) {
                Some(v) => {
                    let mut out: Vec<SimpleItemData> = Vec::new();
                    let mut i: usize = 0;
                    proof {
                        assert(out@.map_values(|s: SimpleItemData| simple_view(s)) =~= v@.subrange(
                            0,
                            0,
                        ).map_values(|x: SimpleItemData| simple_view(x)));
                    }
                    #[verifier::loop_isolation(false)]
                    while i < v.len()
                        invariant
                            0 <= i <= v@.len(),
                            out@.map_values(|s: SimpleItemData| simple_view(s)) == v@.subrange(
                                0,
                                i as int,
                            ).map_values(|x: SimpleItemData| simple_view(x)),
                        decreases v@.len() - i,
                    {
                        let s = &v[i];
                        let ghost out0 = out@;
                        out.push(
                            SimpleItemData {
                                key: crate::archive::clone_string(&s.key),
                                title: crate::archive::clone_string(&s.title),
                            },
                        );
                        proof {
                            assert(simple_view(out@[i as int]) == simple_view(v@[i as int]));
                            assert forall|w: int| 0 <= w < out@.len() implies simple_view(
                                #[trigger] out@[w],
                            ) == simple_view(v@.subrange(0, i + 1)[w]) by {
                                if w < i {
                                    assert(out@[w] == out0[w]);
                                    assert(out0.map_values(|s: SimpleItemData| simple_view(s))[w]
                                        == simple_view(out0[w]));
                                    assert(v@.subrange(0, i as int).map_values(
                                        |x: SimpleItemData| simple_view(x),
                                    )[w] == simple_view(v@.subrange(0, i as int)[w]));
                                }
                            }
                            assert(out@.map_values(|s: SimpleItemData| simple_view(s))
                                =~~= v@.subrange(0, i + 1).map_values(
                                |x: SimpleItemData| simple_view(x),
                            ));
                        }
                        i += 1;
                    }
                    proof {
                        assert(v@.subrange(0, v@.len() as int) =~= v@);
                    }
                    out
                },
                None => Vec::new(),
            }
        }
    }
}

} // verus!

verus! {

/// `n` is `m` itself or sits somewhere below it.
pub open spec fn node_in_subtree(m: CollectionsData, n: CollectionsData) -> bool
    decreases m,
{
    m == n || (match m.children {
        None => false,
        Some(cs) => node_in_forest(cs@, n),
    })
}

/// `n` is a node of the forest.
pub open spec fn node_in_forest(s: Seq<CollectionsData>, n: CollectionsData) -> bool
    decreases s,
{
    exists|i: int| 0 <= i < s.len() && node_in_subtree(#[trigger] s[i], n)
}

/// A node's subtree keys are contained in the keys of any forest it sits in.
pub proof fn lemma_node_in_forest_count(s: Seq<CollectionsData>, n: CollectionsData, k: Seq<char>)
    requires
        node_in_forest(s, n),
    ensures
        node_keys(n).count(k) <= forest_keys_rec(s).count(k),
    decreases s, 1int,
{
    broadcast use vstd::multiset::group_multiset_axioms;

    let i = choose|i: int| 0 <= i < s.len() && node_in_subtree(#[trigger] s[i], n);
    lemma_node_in_subtree_count(s[i], n, k);
    lemma_forest_keys_count_at(s, i, k);
}

/// A member node's subtree keys are contained in its host's subtree keys.
pub proof fn lemma_node_in_subtree_count(m: CollectionsData, n: CollectionsData, k: Seq<char>)
    requires
        node_in_subtree(m, n),
    ensures
        node_keys(n).count(k) <= node_keys(m).count(k),
    decreases m, 2int,
{
    broadcast use vstd::multiset::group_multiset_axioms;

    if m == n {
    } else {
        match m.children {
            None => {},
            Some(cs) => {
                lemma_node_in_forest_count(cs@, n, k);
            },
        }
    }
}

/// One level member's keys are contained in the level's keys.
pub proof fn lemma_forest_keys_count_at(s: Seq<CollectionsData>, i: int, k: Seq<char>)
    requires
        0 <= i < s.len(),
    ensures
        node_keys(s[i]).count(k) <= forest_keys_rec(s).count(k),
    decreases s.len(),
{
    broadcast use vstd::multiset::group_multiset_axioms;

    if i > 0 {
        lemma_forest_keys_count_at(s.drop_first(), i - 1, k);
    }
}

} // verus!
