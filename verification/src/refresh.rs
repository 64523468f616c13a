//! Rebuilding the library snapshot from flat API result sets: the collection
//! tree (breadth-first by depth level, iterative, tolerant of dangling
//! references) and the item forest with its collection index.

use vstd::multiset::Multiset;
use vstd::prelude::*;

use crate::archive::str_eq;
use crate::collection::{opt_str_view, rec_of, Collection};
use crate::text::{lemma_lex_total, lemma_lex_trans, lemma_msum_push, lex_le, msum, str_le};
use crate::zotero_data::{
    forest_keys_rec, forest_triples_rec, lemma_forest_permutation, lemma_forest_push, node_keys,
    node_triple, node_triples, node_wf, sorted_by_name, CollectionsData,
};

verus! {

broadcast use vstd::multiset::group_multiset_axioms, vstd::seq_lib::group_to_multiset_ensures;

// ---------------------------------------------------------------------------
// Record accounting
// ---------------------------------------------------------------------------

/// The record triples of a flat record list, with multiplicity.
pub open spec fn rec_triples(s: Seq<Collection>) -> Multiset<
    (Seq<char>, Seq<char>, Option<Seq<char>>),
> {
    msum(s, |c: Collection| Multiset::singleton(rec_of(c)))
}

/// The record keys of a flat record list, with multiplicity.
pub open spec fn rec_keys(s: Seq<Collection>) -> Multiset<Seq<char>> {
    msum(s, |c: Collection| Multiset::singleton(c.data.key@))
}

/// Whether some record in the list carries this key.
pub open spec fn keys_contain(s: Seq<Collection>, k: Seq<char>) -> bool {
    exists|i: int| 0 <= i < s.len() && (#[trigger] s[i]).data.key@ == k
}

proof fn lemma_rec_keys_contain(s: Seq<Collection>, k: Seq<char>)
    ensures
        rec_keys(s).count(k) > 0 <==> keys_contain(s, k),
    decreases s.len(),
{
    if s.len() > 0 {
        lemma_rec_keys_contain(s.drop_first(), k);
        if keys_contain(s.drop_first(), k) {
            let i = choose|i: int|
                0 <= i < s.drop_first().len() && (#[trigger] s.drop_first()[i]).data.key@ == k;
            assert(s[i + 1].data.key@ == k);
        }
        if keys_contain(s, k) && s[0].data.key@ != k {
            let i = choose|i: int| 0 <= i < s.len() && (#[trigger] s[i]).data.key@ == k;
            assert(s.drop_first()[i - 1].data.key@ == k);
        }
    }
}

/// Looks a key up in one level's records.
fn level_has_key(level: &Vec<Collection>, k: &str) -> (r: bool)
    ensures
        r == keys_contain(level@, k@),
{
    let mut i: usize = 0;
    while i < level.len()
        invariant
            0 <= i <= level@.len(),
            forall|j: int| 0 <= j < i ==> (#[trigger] level@[j]).data.key@ != k@,
        decreases level@.len() - i,
    {
        if str_eq(level[i].data.key.as_str(), k) {
            return true;
        }
        i += 1;
    }
    false
}

// ---------------------------------------------------------------------------
// Splitting the record pool
// ---------------------------------------------------------------------------

/// Separates the records without a parent reference (the tree's roots) from
/// the rest, keeping both in input order.
fn take_roots(pool: Vec<Collection>) -> (r: (Vec<Collection>, Vec<Collection>))
    ensures
        rec_triples(r.0@).add(rec_triples(r.1@)) == rec_triples(pool@),
        rec_keys(r.0@).add(rec_keys(r.1@)) == rec_keys(pool@),
        r.0@.len() + r.1@.len() == pool@.len(),
        forall|i: int| 0 <= i < r.0@.len() ==> (#[trigger] r.0@[i]).data.parent_collection is None,
        forall|i: int| 0 <= i < r.1@.len() ==> (#[trigger] r.1@[i]).data.parent_collection is Some,
{
    let ghost orig = pool@;
    let mut pool = pool;
    let mut taken: Vec<Collection> = Vec::new();
    let mut rest: Vec<Collection> = Vec::new();
    while pool.len() > 0
        invariant
            rec_triples(taken@).add(rec_triples(rest@)).add(rec_triples(pool@)) == rec_triples(
                orig,
            ),
            rec_keys(taken@).add(rec_keys(rest@)).add(rec_keys(pool@)) == rec_keys(orig),
            taken@.len() + rest@.len() + pool@.len() == orig.len(),
            forall|i: int|
                0 <= i < taken@.len() ==> (#[trigger] taken@[i]).data.parent_collection is None,
            forall|i: int|
                0 <= i < rest@.len() ==> (#[trigger] rest@[i]).data.parent_collection is Some,
        decreases pool.len(),
    {
        let ghost pool0 = pool@;
        let c = pool.remove(0);
        proof {
            assert(pool@ =~= pool0.drop_first());
        }
        if c.data.parent_collection.is_none() {
            proof {
                lemma_msum_push(taken@, |c: Collection| Multiset::singleton(rec_of(c)), c);
                lemma_msum_push(taken@, |c: Collection| Multiset::singleton(c.data.key@), c);
            }
            taken.push(c);
        } else {
            proof {
                lemma_msum_push(rest@, |c: Collection| Multiset::singleton(rec_of(c)), c);
                lemma_msum_push(rest@, |c: Collection| Multiset::singleton(c.data.key@), c);
            }
            rest.push(c);
        }
        proof {
            assert(rec_triples(taken@).add(rec_triples(rest@)).add(rec_triples(pool@))
                =~= rec_triples(orig));
            assert(rec_keys(taken@).add(rec_keys(rest@)).add(rec_keys(pool@)) =~= rec_keys(orig));
        }
    }
    (taken, rest)
}

/// Separates the records whose parent key was resolved in the previous level
/// from the rest, keeping both in input order.
fn take_level(pool: Vec<Collection>, prev: &Vec<Collection>) -> (r: (
    Vec<Collection>,
    Vec<Collection>,
))
    requires
        forall|i: int| 0 <= i < pool@.len() ==> (#[trigger] pool@[i]).data.parent_collection is Some,
    ensures
        rec_triples(r.0@).add(rec_triples(r.1@)) == rec_triples(pool@),
        rec_keys(r.0@).add(rec_keys(r.1@)) == rec_keys(pool@),
        r.0@.len() + r.1@.len() == pool@.len(),
        forall|i: int|
            0 <= i < r.0@.len() ==> ((#[trigger] r.0@[i]).data.parent_collection is Some
                && keys_contain(prev@, opt_str_view(r.0@[i].data.parent_collection)->0)),
        forall|i: int|
            0 <= i < r.1@.len() ==> ((#[trigger] r.1@[i]).data.parent_collection is Some
                && !keys_contain(prev@, opt_str_view(r.1@[i].data.parent_collection)->0)),
        forall|i: int| 0 <= i < r.1@.len() ==> pool@.contains(#[trigger] r.1@[i]),
{
    let ghost orig = pool@;
    let mut pool = pool;
    let mut taken: Vec<Collection> = Vec::new();
    let mut rest: Vec<Collection> = Vec::new();
    while pool.len() > 0
        invariant
            forall|i: int|
                0 <= i < pool@.len() ==> (#[trigger] pool@[i]).data.parent_collection is Some,
            rec_triples(taken@).add(rec_triples(rest@)).add(rec_triples(pool@)) == rec_triples(
                orig,
            ),
            rec_keys(taken@).add(rec_keys(rest@)).add(rec_keys(pool@)) == rec_keys(orig),
            taken@.len() + rest@.len() + pool@.len() == orig.len(),
            forall|i: int|
                0 <= i < taken@.len() ==> ((#[trigger] taken@[i]).data.parent_collection is Some
                    && keys_contain(prev@, opt_str_view(taken@[i].data.parent_collection)->0)),
            forall|i: int|
                0 <= i < rest@.len() ==> ((#[trigger] rest@[i]).data.parent_collection is Some
                    && !keys_contain(prev@, opt_str_view(rest@[i].data.parent_collection)->0)),
            forall|i: int| 0 <= i < pool@.len() ==> orig.contains(#[trigger] pool@[i]),
            forall|i: int| 0 <= i < rest@.len() ==> orig.contains(#[trigger] rest@[i]),
        decreases pool.len(),
    {
        let ghost pool0 = pool@;
        let c = pool.remove(0);
        proof {
            assert(pool@ =~= pool0.drop_first());
            assert(c == pool0[0]);
            assert forall|i: int| 0 <= i < pool@.len() implies orig.contains(
                #[trigger] pool@[i],
            ) by {
                assert(pool@[i] == pool0[i + 1]);
                assert(orig.contains(pool0[i + 1]));
            }
        }
        let resolved = match &c.data.parent_collection {
            Some(p) => level_has_key(prev, p.as_str()),
            None => false,
        };
        if resolved {
            proof {
                lemma_msum_push(taken@, |c: Collection| Multiset::singleton(rec_of(c)), c);
                lemma_msum_push(taken@, |c: Collection| Multiset::singleton(c.data.key@), c);
            }
            taken.push(c);
        } else {
            proof {
                lemma_msum_push(rest@, |c: Collection| Multiset::singleton(rec_of(c)), c);
                lemma_msum_push(rest@, |c: Collection| Multiset::singleton(c.data.key@), c);
            }
            rest.push(c);
        }
        proof {
            assert(rec_triples(taken@).add(rec_triples(rest@)).add(rec_triples(pool@))
                =~= rec_triples(orig));
            assert(rec_keys(taken@).add(rec_keys(rest@)).add(rec_keys(pool@)) =~= rec_keys(orig));
        }
    }
    (taken, rest)
}

// ---------------------------------------------------------------------------
// Sorting one level by name
// ---------------------------------------------------------------------------

/// Selection sort by node name; stable ordering is not promised, the element
/// multiset is.
fn sort_nodes_by_name(v: Vec<CollectionsData>) -> (r: Vec<CollectionsData>)
    ensures
        sorted_by_name(r@),
        r@.to_multiset() == v@.to_multiset(),
        r@.len() == v@.len(),
{
    let ghost orig = v@;
    let mut rest = v;
    let mut out: Vec<CollectionsData> = Vec::new();
    while rest.len() > 0
        invariant
            sorted_by_name(out@),
            out@.to_multiset().add(rest@.to_multiset()) == orig.to_multiset(),
            out@.len() + rest@.len() == orig.len(),
            forall|i: int, j: int|
                0 <= i < out@.len() && 0 <= j < rest@.len() ==> lex_le(
                    (#[trigger] out@[i]).name@,
                    (#[trigger] rest@[j]).name@,
                ),
        decreases rest.len(),
    {
        let mut m: usize = 0;
        let mut t: usize = 1;
        proof {
            lemma_lex_total(rest@[0].name@, rest@[0].name@);
        }
        while t < rest.len()
            invariant
                0 <= m < t <= rest@.len(),
                rest@.len() > 0,
                forall|j: int| 0 <= j < t ==> lex_le(rest@[m as int].name@, (#[trigger] rest@[j]).name@),
            decreases rest@.len() - t,
        {
            if str_le(rest[t].name.as_str(), rest[m].name.as_str()) {
                proof {
                    assert forall|j: int| 0 <= j < t + 1 implies lex_le(
                        rest@[t as int].name@,
                        (#[trigger] rest@[j]).name@,
                    ) by {
                        if j < t {
                            lemma_lex_trans(rest@[t as int].name@, rest@[m as int].name@, rest@[j].name@);
                        } else {
                            lemma_lex_total(rest@[t as int].name@, rest@[t as int].name@);
                        }
                    }
                }
                m = t;
            } else {
                proof {
                    lemma_lex_total(rest@[t as int].name@, rest@[m as int].name@);
                }
            }
            t += 1;
        }
        let ghost rest0 = rest@;
        let x = rest.remove(m);
        proof {
            assert(x == rest0[m as int]);
            assert(rest0.remove(m as int).to_multiset() == rest0.to_multiset().remove(x));
            // the popped minimum is below everything still in `rest`
            assert forall|j: int| 0 <= j < rest@.len() implies lex_le(
                x.name@,
                (#[trigger] rest@[j]).name@,
            ) by {
                if j < m {
                    assert(rest@[j] == rest0[j]);
                } else {
                    assert(rest@[j] == rest0[j + 1]);
                }
            }
            // pushing it keeps `out` sorted
            assert(out@.to_multiset().count(x) == out@.to_multiset().count(x));
        }
        let ghost out0 = out@;
        out.push(x);
        proof {
            assert(out@ =~= out0.push(x));
            assert forall|i: int, j: int| 0 <= i < j < out@.len() implies lex_le(
                out@[i].name@,
                out@[j].name@,
            ) by {
                if j < out@.len() - 1 {
                    assert(out@[i] == out0[i] && out@[j] == out0[j]);
                } else {
                    if i < out@.len() - 1 {
                        assert(out@[i] == out0[i]);
                        assert(rest0.to_multiset().count(x) > 0);
                        assert(lex_le(out0[i].name@, x.name@));
                    } else {
                        lemma_lex_total(x.name@, x.name@);
                    }
                }
            }
            assert(out@.to_multiset().add(rest@.to_multiset()) =~= orig.to_multiset());
        }
    }
    out
}

} // verus!

verus! {

// ---------------------------------------------------------------------------
// Accounting across depth levels
// ---------------------------------------------------------------------------

/// Record triples of every leveled record.
pub open spec fn placed_triples(ls: Seq<Vec<Collection>>) -> Multiset<
    (Seq<char>, Seq<char>, Option<Seq<char>>),
> {
    msum(ls, |lv: Vec<Collection>| rec_triples(lv@))
}

/// Record keys of every leveled record.
pub open spec fn placed_keys(ls: Seq<Vec<Collection>>) -> Multiset<Seq<char>> {
    msum(ls, |lv: Vec<Collection>| rec_keys(lv@))
}

/// The parent key of a record that has a parent reference.
pub open spec fn parent_of(c: Collection) -> Seq<char> {
    opt_str_view(c.data.parent_collection)->0
}

proof fn lemma_rec_keys_len(s: Seq<Collection>)
    ensures
        rec_keys(s).len() == s.len(),
    decreases s.len(),
{
    if s.len() > 0 {
        lemma_rec_keys_len(s.drop_first());
    }
}

proof fn lemma_placed_keys_count(ls: Seq<Vec<Collection>>, k: Seq<char>)
    requires
        forall|j: int| 0 <= j < ls.len() ==> !keys_contain((#[trigger] ls[j])@, k),
    ensures
        placed_keys(ls).count(k) == 0,
    decreases ls.len(),
{
    if ls.len() > 0 {
        lemma_rec_keys_contain(ls[0]@, k);
        assert(forall|j: int|
            0 <= j < ls.drop_first().len() ==> !keys_contain((#[trigger] ls.drop_first()[j])@, k));
        lemma_placed_keys_count(ls.drop_first(), k);
    }
}

// ---------------------------------------------------------------------------
// The collection tree builder
// ---------------------------------------------------------------------------

/// Rebuilds the collection tree from a flat, unordered record list.
///
/// The work proceeds breadth-first by depth level: the first pass takes every
/// record without a parent reference as a root, each later pass takes the
/// records whose parent key was resolved in the pass before, and when a pass
/// resolves nothing the leftovers are reported as diagnostics — records whose
/// parent chain never reaches the tree — and dropped. Children at every
/// level, and the roots, come back sorted by name.
///
/// The contract accounts for every record exactly once: the multiset of
/// `(key, name, parent)` triples in the tree plus those of the diagnostics is
/// the input's multiset; a diagnosed record's parent key is absent from the
/// tree; the tree links every child to its parent's key and roots carry no
/// parent reference.
#[verifier::loop_isolation(false)]
pub fn parse_collections(collections: Vec<Collection>) -> (r: (
    Vec<CollectionsData>,
    Vec<Collection>,
))
    ensures
        forest_triples_rec(r.0@).add(rec_triples(r.1@)) == rec_triples(collections@),
        forest_keys_rec(r.0@).add(rec_keys(r.1@)) == rec_keys(collections@),
        sorted_by_name(r.0@),
        crate::zotero_data::forest_wf(r.0@),
        forall|i: int| 0 <= i < r.0@.len() ==> (#[trigger] r.0@[i]).father is None,
        forall|i: int|
            0 <= i < r.1@.len() ==> ((#[trigger] r.1@[i]).data.parent_collection is Some
                && forest_keys_rec(r.0@).count(parent_of(r.1@[i])) == 0),
        collections@.len() == 0 ==> r.0@.len() == 0 && r.1@.len() == 0,
{
    let ghost input = collections@;
    let (roots_recs, rest0) = take_roots(collections);
    let mut pool = rest0;
    let mut levels: Vec<Vec<Collection>> = Vec::new();
    levels.push(roots_recs);
    proof {
        assert(levels@.drop_first() =~= Seq::<Vec<Collection>>::empty());
        assert(placed_triples(levels@.drop_first()) =~= Multiset::empty());
        assert(placed_keys(levels@.drop_first()) =~= Multiset::empty());
        assert(placed_triples(levels@) =~= rec_triples(levels@[0]@));
        assert(placed_keys(levels@) =~= rec_keys(levels@[0]@));
        assert(placed_triples(levels@).add(rec_triples(pool@)) =~= rec_triples(input));
        assert(placed_keys(levels@).add(rec_keys(pool@)) =~= rec_keys(input));
    }
    let mut done: bool = false;
    while !done
        invariant
            levels@.len() >= 1,
            placed_triples(levels@).add(rec_triples(pool@)) == rec_triples(input),
            placed_keys(levels@).add(rec_keys(pool@)) == rec_keys(input),
            forall|i: int|
                0 <= i < levels@[0]@.len() ==> (#[trigger] levels@[0]@[i]).data.parent_collection
                    is None,
            forall|j: int, i: int|
                1 <= j < levels@.len() && 0 <= i < levels@[j]@.len() ==> ((#[trigger] levels@[j]@[i]).data.parent_collection
                    is Some && keys_contain(levels@[j - 1]@, parent_of(levels@[j]@[i]))),
            forall|i: int|
                0 <= i < pool@.len() ==> (#[trigger] pool@[i]).data.parent_collection is Some,
            forall|j: int, i: int|
                0 <= j < levels@.len() - 1 && 0 <= i < pool@.len() ==> !keys_contain(
                    (#[trigger] levels@[j])@,
                    parent_of(#[trigger] pool@[i]),
                ),
            done ==> forall|j: int, i: int|
                0 <= j < levels@.len() && 0 <= i < pool@.len() ==> !keys_contain(
                    (#[trigger] levels@[j])@,
                    parent_of(#[trigger] pool@[i]),
                ),
        decreases pool@.len(), (if done { 0int } else { 1int }),
    {
        let ghost old_pool = pool@;
        let ghost old_levels = levels@;
        let li = levels.len() - 1;
        let (taken, rest) = take_level(pool, &levels[li]);
        pool = rest;
        if taken.len() == 0 {
            proof {
                assert(rec_triples(taken@) =~= Multiset::empty());
                assert(rec_keys(taken@) =~= Multiset::empty());
                assert(rec_triples(taken@).add(rec_triples(pool@)) == rec_triples(old_pool));
                assert(rec_triples(pool@) =~= rec_triples(old_pool));
                assert(rec_keys(pool@) =~= rec_keys(old_pool));
                assert(placed_triples(levels@).add(rec_triples(pool@)) =~= rec_triples(input));
                assert(placed_keys(levels@).add(rec_keys(pool@)) =~= rec_keys(input));
                assert forall|j: int, i: int|
                    0 <= j < levels@.len() && 0 <= i < pool@.len() implies !keys_contain(
                    (#[trigger] levels@[j])@,
                    parent_of(#[trigger] pool@[i]),
                ) by {
                    assert(old_pool.contains(pool@[i]));
                    let w = choose|w: int| 0 <= w < old_pool.len() && old_pool[w] == pool@[i];
                    if j < levels@.len() - 1 {
                        assert(!keys_contain(levels@[j]@, parent_of(old_pool[w])));
                    } else {
                        assert(levels@[j] == old_levels[li as int]);
                        assert(!keys_contain(old_levels[li as int]@, parent_of(pool@[i])));
                    }
                }
            }
            done = true;
        } else {
            levels.push(taken);
        proof {
            assert(levels@ =~= old_levels.push(taken));
            lemma_msum_push(old_levels, |lv: Vec<Collection>| rec_triples(lv@), taken);
            lemma_msum_push(old_levels, |lv: Vec<Collection>| rec_keys(lv@), taken);
            assert(placed_triples(levels@).add(rec_triples(pool@)) =~= rec_triples(input));
            assert(placed_keys(levels@).add(rec_keys(pool@)) =~= rec_keys(input));
            assert(levels@[0] == old_levels[0]);
            assert forall|j: int, i: int|
                1 <= j < levels@.len() && 0 <= i < levels@[j]@.len() implies ((
            #[trigger] levels@[j]@[i]).data.parent_collection is Some && keys_contain(
                levels@[j - 1]@,
                parent_of(levels@[j]@[i]),
            )) by {
                if j < levels@.len() - 1 {
                    assert(levels@[j] == old_levels[j] && levels@[j - 1] == old_levels[j - 1]);
                } else {
                    assert(levels@[j] == taken && levels@[j - 1] == old_levels[li as int]);
                }
            }
            assert forall|j: int, i: int|
                0 <= j < levels@.len() - 1 && 0 <= i < pool@.len() implies !keys_contain(
                (#[trigger] levels@[j])@,
                parent_of(#[trigger] pool@[i]),
            ) by {
                assert(old_pool.contains(pool@[i]));
                let w = choose|w: int| 0 <= w < old_pool.len() && old_pool[w] == pool@[i];
                if j < levels@.len() - 2 {
                    assert(levels@[j] == old_levels[j]);
                    assert(!keys_contain(old_levels[j]@, parent_of(old_pool[w])));
                } else {
                    assert(levels@[j] == old_levels[li as int]);
                    assert(!keys_contain(old_levels[li as int]@, parent_of(pool@[i])));
                }
            }
        }
        }
    }
    let ghost placed_t = placed_triples(levels@);
    let ghost placed_k = placed_keys(levels@);
    let ghost levels_final = levels@;
    let mut pending: Vec<CollectionsData> = Vec::new();
    while levels.len() > 0
        invariant
            forest_triples_rec(pending@).add(placed_triples(levels@)) == placed_t,
            forest_keys_rec(pending@).add(placed_keys(levels@)) == placed_k,
            forall|i: int| 0 <= i < pending@.len() ==> node_wf(#[trigger] pending@[i]),
            levels@.len() > 0 ==> forall|i: int|
                0 <= i < pending@.len() ==> ((#[trigger] pending@[i]).father is Some
                    && keys_contain(levels@.last()@, opt_str_view(pending@[i].father)->0)),
            levels@.len() == 0 ==> forall|i: int|
                0 <= i < pending@.len() ==> (#[trigger] pending@[i]).father is None,
            levels@.len() > 0 ==> forall|i: int|
                0 <= i < levels@[0]@.len() ==> (#[trigger] levels@[0]@[i]).data.parent_collection
                    is None,
            forall|j: int, i: int|
                1 <= j < levels@.len() && 0 <= i < levels@[j]@.len() ==> ((#[trigger] levels@[j]@[i]).data.parent_collection
                    is Some && keys_contain(levels@[j - 1]@, parent_of(levels@[j]@[i]))),
        decreases levels@.len(),
    {
        let ghost levels0 = levels@;
        let ghost pend_start = pending@;
        let popped = levels.pop();
        let mut lvl = match popped {
            Some(l) => l,
            None => {
                proof {
                    assert(false);
                }
                Vec::new()
            },
        };
        proof {
            assert(levels0 =~= levels@.push(lvl));
            lemma_msum_push(levels@, |lv: Vec<Collection>| rec_triples(lv@), lvl);
            lemma_msum_push(levels@, |lv: Vec<Collection>| rec_keys(lv@), lvl);
        }
        let ghost lvl_orig = lvl@;
        let mut new_pending: Vec<CollectionsData> = Vec::new();
        proof {
            assert(forest_triples_rec(new_pending@) =~= Multiset::empty());
            assert(forest_keys_rec(new_pending@) =~= Multiset::empty());
            assert(forest_triples_rec(new_pending@).add(forest_triples_rec(pending@)).add(
                rec_triples(lvl@),
            ) =~= rec_triples(lvl_orig).add(forest_triples_rec(pend_start)));
            assert(forest_keys_rec(new_pending@).add(forest_keys_rec(pending@)).add(
                rec_keys(lvl@),
            ) =~= rec_keys(lvl_orig).add(forest_keys_rec(pend_start)));
            if levels@.len() > 0 {
                assert(lvl == levels0.last());
                assert(levels0.len() >= 2);
                assert(levels0[levels0.len() - 1] == lvl);
                assert(levels@.last() == levels0[levels0.len() - 2]);
            } else {
                assert(levels0.len() == 1);
                assert(lvl == levels0[0]);
            }
        }
        while lvl.len() > 0
            invariant
                forest_triples_rec(new_pending@).add(forest_triples_rec(pending@)).add(
                    rec_triples(lvl@),
                ) == rec_triples(lvl_orig).add(forest_triples_rec(pend_start)),
                forest_keys_rec(new_pending@).add(forest_keys_rec(pending@)).add(rec_keys(lvl@))
                    == rec_keys(lvl_orig).add(forest_keys_rec(pend_start)),
                forall|i: int| 0 <= i < pending@.len() ==> node_wf(#[trigger] pending@[i]),
                forall|i: int|
                    0 <= i < pending@.len() ==> ((#[trigger] pending@[i]).father is Some
                        && keys_contain(lvl@, opt_str_view(pending@[i].father)->0)),
                levels@.len() == 0 ==> forall|i: int|
                    0 <= i < lvl@.len() ==> (#[trigger] lvl@[i]).data.parent_collection is None,
                levels@.len() > 0 ==> forall|i: int|
                    0 <= i < lvl@.len() ==> ((#[trigger] lvl@[i]).data.parent_collection is Some
                        && keys_contain(levels@.last()@, parent_of(lvl@[i]))),
                forall|i: int| 0 <= i < new_pending@.len() ==> node_wf(#[trigger] new_pending@[i]),
                levels@.len() == 0 ==> forall|i: int|
                    0 <= i < new_pending@.len() ==> (#[trigger] new_pending@[i]).father is None,
                levels@.len() > 0 ==> forall|i: int|
                    0 <= i < new_pending@.len() ==> ((#[trigger] new_pending@[i]).father is Some
                        && keys_contain(levels@.last()@, opt_str_view(new_pending@[i].father)->0)),
            decreases lvl@.len(),
        {
            let ghost lvl_before = lvl@;
            let c = lvl.remove(0);
            proof {
                assert(lvl@ =~= lvl_before.drop_first());
                assert(c == lvl_before[0]);
            }
            let ghost ckey = c.data.key@;
            let ghost ctriple = rec_of(c);
            let ghost cfather = opt_str_view(c.data.parent_collection);
            let mut kids: Vec<CollectionsData> = Vec::new();
            let mut keep: Vec<CollectionsData> = Vec::new();
            let ghost pend_before = pending@;
            let mut pend = pending;
            proof {
                assert(forest_triples_rec(kids@) =~= Multiset::empty());
                assert(forest_keys_rec(kids@) =~= Multiset::empty());
                assert(forest_triples_rec(keep@) =~= Multiset::empty());
                assert(forest_keys_rec(keep@) =~= Multiset::empty());
                assert(forest_triples_rec(kids@).add(forest_triples_rec(keep@)).add(
                    forest_triples_rec(pend@),
                ) =~= forest_triples_rec(pend_before));
                assert(forest_keys_rec(kids@).add(forest_keys_rec(keep@)).add(
                    forest_keys_rec(pend@),
                ) =~= forest_keys_rec(pend_before));
            }
            while pend.len() > 0
                invariant
                    forest_triples_rec(kids@).add(forest_triples_rec(keep@)).add(
                        forest_triples_rec(pend@),
                    ) == forest_triples_rec(pend_before),
                    forest_keys_rec(kids@).add(forest_keys_rec(keep@)).add(forest_keys_rec(pend@))
                        == forest_keys_rec(pend_before),
                    forall|i: int| 0 <= i < kids@.len() ==> node_wf(#[trigger] kids@[i]),
                    forall|i: int| 0 <= i < keep@.len() ==> node_wf(#[trigger] keep@[i]),
                    forall|i: int| 0 <= i < pend@.len() ==> node_wf(#[trigger] pend@[i]),
                    forall|i: int|
                        0 <= i < kids@.len() ==> opt_str_view((#[trigger] kids@[i]).father)
                            == Some(ckey),
                    forall|i: int|
                        0 <= i < keep@.len() ==> ((#[trigger] keep@[i]).father is Some
                            && keys_contain(lvl@, opt_str_view(keep@[i].father)->0)),
                    forall|i: int|
                        0 <= i < pend@.len() ==> ((#[trigger] pend@[i]).father is Some
                            && keys_contain(lvl_before, opt_str_view(pend@[i].father)->0)),
                decreases pend@.len(),
            {
                let ghost pb = pend@;
                let p = pend.remove(0);
                proof {
                    assert(pend@ =~= pb.drop_first());
                    assert(p == pb[0]);
                }
                proof {
                    assert(keys_contain(lvl_before, opt_str_view(pb[0].father)->0));
                }
                let pf: &String = match &p.father {
                    Some(fk) => fk,
                    None => {
                        proof {
                            assert(false);
                        }
                        &c.data.key
                    },
                };
                proof {
                    assert(pf@ == opt_str_view(p.father)->0);
                }
                let is_kid = str_eq(pf.as_str(), c.data.key.as_str());
                if is_kid {
                    proof {
                        lemma_forest_push(kids@, p);
                    }
                    kids.push(p);
                } else {
                    proof {
                        lemma_forest_push(keep@, p);
                        let f = opt_str_view(p.father)->0;
                        assert(keys_contain(lvl_before, f));
                        let w = choose|w: int|
                            0 <= w < lvl_before.len() && (#[trigger] lvl_before[w]).data.key@ == f;
                        assert(f != ckey);
                        assert(w != 0);
                        assert(lvl_before.drop_first()[w - 1].data.key@ == f);
                        assert(keys_contain(lvl@, f));
                    }
                    keep.push(p);
                }
                proof {
                    assert(forest_triples_rec(kids@).add(forest_triples_rec(keep@)).add(
                        forest_triples_rec(pend@),
                    ) =~= forest_triples_rec(pend_before));
                    assert(forest_keys_rec(kids@).add(forest_keys_rec(keep@)).add(
                        forest_keys_rec(pend@),
                    ) =~= forest_keys_rec(pend_before));
                }
            }
            pending = keep;
            let ghost kids0 = kids@;
            let node = if kids.len() > 0 {
                let kids_sorted = sort_nodes_by_name(kids);
                proof {
                    lemma_forest_permutation(kids0, kids_sorted@);
                    assert forall|i: int| 0 <= i < kids_sorted@.len() implies node_wf(
                        #[trigger] kids_sorted@[i],
                    ) && opt_str_view(kids_sorted@[i].father) == Some(ckey) by {
                        assert(kids_sorted@.to_multiset().count(kids_sorted@[i]) > 0);
                        assert(kids0.to_multiset().count(kids_sorted@[i]) > 0);
                        assert(kids0.contains(kids_sorted@[i]));
                        let w = choose|w: int|
                            0 <= w < kids0.len() && kids0[w] == kids_sorted@[i];
                        assert(node_wf(kids0[w]));
                    }
                    crate::zotero_data::lemma_forest_wf_all(kids_sorted@);
                }
                CollectionsData {
                    name: c.data.name,
                    key: c.data.key,
                    children: Some(kids_sorted),
                    father: c.data.parent_collection,
                }
            } else {
                CollectionsData {
                    name: c.data.name,
                    key: c.data.key,
                    children: None,
                    father: c.data.parent_collection,
                }
            };
            proof {
                assert(node_wf(node));
                assert(node_triple(node) == ctriple);
                if kids0.len() > 0 {
                    assert(node_triples(node) =~= Multiset::singleton(ctriple).add(
                        forest_triples_rec(kids0),
                    ));
                    assert(node_keys(node) =~= Multiset::singleton(ckey).add(
                        forest_keys_rec(kids0),
                    ));
                } else {
                    assert(forest_triples_rec(kids0) =~= Multiset::empty());
                    assert(forest_keys_rec(kids0) =~= Multiset::empty());
                    assert(node_triples(node) =~= Multiset::singleton(ctriple).add(
                        forest_triples_rec(kids0),
                    ));
                    assert(node_keys(node) =~= Multiset::singleton(ckey).add(
                        forest_keys_rec(kids0),
                    ));
                }
            }
            let ghost np0 = new_pending@;
            new_pending.push(node);
            proof {
                lemma_forest_push(np0, node);
                assert(forest_triples_rec(new_pending@).add(forest_triples_rec(pending@)).add(
                    rec_triples(lvl@),
                ) =~= rec_triples(lvl_orig).add(forest_triples_rec(pend_start)));
                assert(forest_keys_rec(new_pending@).add(forest_keys_rec(pending@)).add(
                    rec_keys(lvl@),
                ) =~= rec_keys(lvl_orig).add(forest_keys_rec(pend_start)));
            }
        }
        proof {
            if pending@.len() > 0 {
                assert(keys_contain(lvl@, opt_str_view(pending@[0].father)->0));
                assert(false);
            }
            assert(forest_triples_rec(pending@) =~= Multiset::empty());
            assert(forest_keys_rec(pending@) =~= Multiset::empty());
            assert(rec_triples(lvl@) =~= Multiset::empty());
            assert(rec_keys(lvl@) =~= Multiset::empty());
        }
        pending = new_pending;
        proof {
            assert(placed_triples(levels0) == placed_triples(levels@).add(rec_triples(lvl_orig)));
            assert(placed_keys(levels0) == placed_keys(levels@).add(rec_keys(lvl_orig)));
            assert(forest_triples_rec(pending@) =~= rec_triples(lvl_orig).add(
                forest_triples_rec(pend_start),
            ));
            assert(forest_keys_rec(pending@) =~= rec_keys(lvl_orig).add(
                forest_keys_rec(pend_start),
            ));
            assert(forest_triples_rec(pend_start).add(placed_triples(levels0)) == placed_t);
            assert(forest_triples_rec(pending@).add(placed_triples(levels@)) =~= placed_t);
            assert(forest_keys_rec(pending@).add(placed_keys(levels@)) =~= placed_k);
        }
    }
    let ghost pend_final = pending@;
    let roots = sort_nodes_by_name(pending);
    proof {
        lemma_forest_permutation(pend_final, roots@);
        assert(placed_triples(levels@) =~= Multiset::empty());
        assert(placed_keys(levels@) =~= Multiset::empty());
        assert(forest_triples_rec(roots@) =~= placed_t);
        assert(forest_keys_rec(roots@) =~= placed_k);
        assert(forest_triples_rec(roots@).add(rec_triples(pool@)) =~= rec_triples(input));
        assert(forest_keys_rec(roots@).add(rec_keys(pool@)) =~= rec_keys(input));
        assert forall|i: int| 0 <= i < roots@.len() implies node_wf(#[trigger] roots@[i]) && (
        roots@[i].father is None) by {
            assert(roots@.to_multiset().count(roots@[i]) > 0);
            assert(pend_final.to_multiset().count(roots@[i]) > 0);
            assert(pend_final.contains(roots@[i]));
            let w = choose|w: int| 0 <= w < pend_final.len() && pend_final[w] == roots@[i];
            assert(node_wf(pend_final[w]));
        }
        crate::zotero_data::lemma_forest_wf_all(roots@);
        assert forall|i: int|
            0 <= i < pool@.len() implies ((#[trigger] pool@[i]).data.parent_collection is Some
            && forest_keys_rec(roots@).count(parent_of(pool@[i])) == 0) by {
            lemma_placed_keys_count(levels_final, parent_of(pool@[i]));
        }
        if input.len() == 0 {
            lemma_rec_keys_len(input);
            lemma_rec_keys_len(pool@);
            crate::zotero_data::lemma_forest_keys_len(roots@);
        }
    }
    (roots, pool)
}

} // verus!

verus! {

use crate::item::{is_root, item_eq_except_subs, Item};
use crate::zotero_data::{
    attached_to, bucket_spec, dangling, forest_matches, index_lookup, lemma_index_lookup_at,
    lemma_index_lookup_member, lemma_index_lookup_push, lemma_index_lookup_update, mentions,
    root_keys_contain, simple_view, summary_of, CollectionBucket, CollectionItemIndex, ItemMap,
    SimpleItemData,
};
use crate::text::lemma_filter_push;

// ---------------------------------------------------------------------------
// The collection-item index
// ---------------------------------------------------------------------------

/// The index contract: bucket keys are distinct, and looking any key up
/// yields exactly the summaries of the items filed under it, in input order;
/// keys nobody mentions have no bucket.
pub open spec fn index_matches(items: Seq<Item>, bs: Seq<CollectionBucket>) -> bool {
    &&& (forall|i: int, j: int|
        0 <= i < j < bs.len() ==> (#[trigger] bs[i]).key@ != (#[trigger] bs[j]).key@)
    &&& (forall|c: Seq<char>|
        #![trigger index_lookup(bs, c)]
        match index_lookup(bs, c) {
            Some(s) => s.map_values(|x: SimpleItemData| simple_view(x)) == bucket_spec(items, c)
                && s.len() > 0,
            None => bucket_spec(items, c).len() == 0,
        })
}

/// The summary filed for one item.
fn summary_for(it: &Item) -> (r: SimpleItemData)
    ensures
        simple_view(r) == summary_of(*it),
{
    let title = match &it.data.title {
        Some(t) => crate::archive::clone_string(t),
        None => "unknown name".to_owned(),
    };
    SimpleItemData { key: crate::archive::clone_string(&it.key), title }
}

/// Files one summary under one collection key: appends to that key's bucket
/// or opens a new one; no other key's lookup changes.
#[verifier::loop_isolation(false)]
fn file_summary(buckets: &mut Vec<CollectionBucket>, ckey: &str, it: &Item)
    requires
        forall|i: int, j: int|
            0 <= i < j < old(buckets)@.len() ==> (#[trigger] old(buckets)@[i]).key@ != (
            #[trigger] old(buckets)@[j]).key@,
    ensures
        forall|i: int, j: int|
            0 <= i < j < final(buckets)@.len() ==> (#[trigger] final(buckets)@[i]).key@ != (
            #[trigger] final(buckets)@[j]).key@,
        forall|c: Seq<char>|
            #![trigger index_lookup(final(buckets)@, c)]
            if c == ckey@ {
                match index_lookup(old(buckets)@, c) {
                    Some(s) => match index_lookup(final(buckets)@, c) {
                        Some(s2) => s2.map_values(|x: SimpleItemData| simple_view(x))
                            == s.map_values(|x: SimpleItemData| simple_view(x)).push(
                            summary_of(*it),
                        ) && s2.len() == s.len() + 1,
                        None => false,
                    },
                    None => match index_lookup(final(buckets)@, c) {
                        Some(s2) => s2.map_values(|x: SimpleItemData| simple_view(x)) == seq![
                            summary_of(*it),
                        ] && s2.len() == 1,
                        None => false,
                    },
                }
            } else {
                index_lookup(final(buckets)@, c) == index_lookup(old(buckets)@, c)
            },
{
    let ghost bs0 = buckets@;
    let s = summary_for(it);
    let mut b: usize = 0;
    while b < buckets.len()
        invariant
            0 <= b <= bs0.len(),
            buckets@ == bs0,
            forall|j: int| 0 <= j < b ==> (#[trigger] bs0[j]).key@ != ckey@,
        decreases bs0.len() - b,
    {
        if crate::archive::str_eq(buckets[b].key.as_str(), ckey) {
            proof {
                lemma_index_lookup_at(bs0, ckey@, b as int);
            }
            let mut bkt = buckets.remove(b);
            let ghost old_items = bkt.items@;
            bkt.items.push(s);
            let ghost bkt_snap = bkt;
            buckets.insert(b, bkt);
            proof {
                assert(buckets@ =~= bs0.update(b as int, bkt_snap));
                assert(bkt_snap.items@ =~= old_items.push(bkt_snap.items@.last()));
                assert forall|c: Seq<char>|
                    #![trigger index_lookup(buckets@, c)]
                    true implies ({
                    if c == ckey@ {
                        match index_lookup(bs0, c) {
                            Some(s1) => match index_lookup(buckets@, c) {
                                Some(s2) => s2.map_values(|x: SimpleItemData| simple_view(x))
                                    == s1.map_values(|x: SimpleItemData| simple_view(x)).push(
                                    summary_of(*it),
                                ) && s2.len() == s1.len() + 1,
                                None => false,
                            },
                            None => match index_lookup(buckets@, c) {
                                Some(s2) => s2.map_values(|x: SimpleItemData| simple_view(x))
                                    == seq![summary_of(*it)] && s2.len() == 1,
                                None => false,
                            },
                        }
                    } else {
                        index_lookup(buckets@, c) == index_lookup(bs0, c)
                    }
                }) by {
                    lemma_index_lookup_update(bs0, b as int, bkt_snap, c);
                    if c == ckey@ {
                        assert(index_lookup(bs0, c) == Some(old_items));
                        assert(index_lookup(buckets@, c) == Some(bkt_snap.items@));
                        assert(bkt_snap.items@.map_values(|x: SimpleItemData| simple_view(x))
                            =~= old_items.map_values(|x: SimpleItemData| simple_view(x)).push(
                            summary_of(*it),
                        ));
                    }
                }
                assert forall|i: int, j: int|
                    0 <= i < j < buckets@.len() implies (#[trigger] buckets@[i]).key@ != (
                #[trigger] buckets@[j]).key@ by {
                    assert(buckets@[i].key@ == bs0[i].key@);
                    assert(buckets@[j].key@ == bs0[j].key@);
                }
            }
            return ;
        }
        b += 1;
    }
    let nb = CollectionBucket { key: ckey.to_owned(), items: vec![s] };
    let ghost nb_snap = nb;
    buckets.push(nb);
    proof {
        lemma_index_lookup_member(bs0, ckey@);
        assert(index_lookup(bs0, ckey@) is None);
        assert(buckets@ =~= bs0.push(nb_snap));
        assert forall|c: Seq<char>|
            #![trigger index_lookup(buckets@, c)]
            true implies ({
            if c == ckey@ {
                match index_lookup(bs0, c) {
                    Some(s1) => false,
                    None => match index_lookup(buckets@, c) {
                        Some(s2) => s2.map_values(|x: SimpleItemData| simple_view(x)) == seq![
                            summary_of(*it),
                        ] && s2.len() == 1,
                        None => false,
                    },
                }
            } else {
                index_lookup(buckets@, c) == index_lookup(bs0, c)
            }
        }) by {
            lemma_index_lookup_push(bs0, nb_snap, c);
            if c == ckey@ {
                assert(nb_snap.items@ =~= seq![s]);
                assert(nb_snap.items@.map_values(|x: SimpleItemData| simple_view(x)) =~= seq![
                    summary_of(*it),
                ]);
            }
        }
        assert forall|i: int, j: int|
            0 <= i < j < buckets@.len() implies (#[trigger] buckets@[i]).key@ != (
        #[trigger] buckets@[j]).key@ by {
            if j < buckets@.len() - 1 {
                assert(buckets@[i].key@ == bs0[i].key@);
                assert(buckets@[j].key@ == bs0[j].key@);
            } else {
                assert(buckets@[i].key@ == bs0[i].key@);
                assert(buckets@[j].key@ == ckey@);
            }
        }
    }
}

} // verus!

verus! {

use crate::zotero_data::{
    deferred_of, lemma_attached_push, lemma_bucket_spec_push, lemma_dangling_push,
    lemma_forest_filters, lemma_roots_distinct, lemma_roots_push, roots_of, dangling_from,
};

/// Whether the membership key at `t` already occurred earlier in the list.
fn key_seen_before(cs: &Vec<String>, t: usize) -> (r: bool)
    requires
        t < cs@.len(),
    ensures
        r == exists|u: int| 0 <= u < t && (#[trigger] cs@[u])@ == cs@[t as int]@,
{
    let mut u: usize = 0;
    while u < t
        invariant
            0 <= u <= t < cs@.len(),
            forall|w: int| 0 <= w < u ==> (#[trigger] cs@[w])@ != cs@[t as int]@,
        decreases t - u,
    {
        if str_eq(cs[u].as_str(), cs[t].as_str()) {
            return true;
        }
        u += 1;
    }
    false
}

/// Builds the collection-item index: every item is filed once under each
/// distinct declared membership, or under the sentinel key when it belongs
/// to zero collections (a missing membership list counts as empty).
#[verifier::loop_isolation(false)]
pub fn build_collection_index(items: &Vec<Item>) -> (r: CollectionItemIndex)
    ensures
        index_matches(items@, r@),
{
    let input = items;
    let ghost all = items@;
    let mut buckets: Vec<CollectionBucket> = Vec::new();
    let mut i: usize = 0;
    proof {
        assert(all.subrange(0, 0) =~= Seq::<Item>::empty());
        assert forall|c: Seq<char>| #[trigger] bucket_spec(Seq::<Item>::empty(), c).len() == 0 by {
            Seq::<Item>::empty().lemma_filter_len(|it: Item| mentions(it, c));
        }
    }
    while i < input.len()
        invariant
            0 <= i <= all.len(),
            index_matches(all.subrange(0, i as int), buckets@),
        decreases all.len() - i,
    {
        let it = &input[i];
        let ghost pre = all.subrange(0, i as int);
        let ghost pre1 = all.subrange(0, i + 1);
        proof {
            assert(pre1 =~= pre.push(all[i as int]));
        }
        let declared = match &it.data.collections {
            Some(cs) => cs.len(),
            None => 0,
        };
        if declared == 0 {
            file_summary(&mut buckets, crate::zotero_data::EMPTY_COLLECTION_KEY, it);
            proof {
                assert forall|c: Seq<char>|
                    #![trigger index_lookup(buckets@, c)]
                    true implies ({
                    match index_lookup(buckets@, c) {
                        Some(s) => s.map_values(|x: SimpleItemData| simple_view(x)) == bucket_spec(
                            pre1,
                            c,
                        ) && s.len() > 0,
                        None => bucket_spec(pre1, c).len() == 0,
                    }
                }) by {
                    lemma_bucket_spec_push(pre, all[i as int], c);
                    if c == crate::zotero_data::EMPTY_COLLECTION_KEY@ {
                        assert(mentions(all[i as int], c));
                    } else {
                        assert(!mentions(all[i as int], c));
                    }
                }
            }
        } else {
            match &it.data.collections {
                None => {
                    proof {
                        assert(false);
                    }
                },
                Some(cs) => {
                    let mut t: usize = 0;
                    while t < cs.len()
                        invariant
                            0 <= t <= cs@.len(),
                            forall|b1: int, b2: int|
                                0 <= b1 < b2 < buckets@.len() ==> (#[trigger] buckets@[b1]).key@
                                    != (#[trigger] buckets@[b2]).key@,
                            forall|c: Seq<char>|
                                #![trigger index_lookup(buckets@, c)]
                                match index_lookup(buckets@, c) {
                                    Some(s) => s.map_values(|x: SimpleItemData| simple_view(x))
                                        == bucket_spec(pre, c) + (if (exists|u: int|
                                        0 <= u < t && (#[trigger] cs@[u])@ == c) {
                                        seq![summary_of(all[i as int])]
                                    } else {
                                        Seq::empty()
                                    }) && s.len() > 0,
                                    None => bucket_spec(pre, c).len() == 0 && !(exists|u: int|
                                        0 <= u < t && (#[trigger] cs@[u])@ == c),
                                },
                        decreases cs@.len() - t,
                    {
                        if key_seen_before(cs, t) {
                            // a repeated membership key: the item is already
                            // filed under it, so nothing changes
                            proof {
                                let c0 = cs@[t as int]@;
                                assert forall|c: Seq<char>|
                                    #![trigger index_lookup(buckets@, c)]
                                    true implies ({
                                    match index_lookup(buckets@, c) {
                                        Some(s) => s.map_values(
                                            |x: SimpleItemData| simple_view(x),
                                        ) == bucket_spec(pre, c) + (if (exists|u: int|
                                            0 <= u < t + 1 && (#[trigger] cs@[u])@ == c) {
                                            seq![summary_of(all[i as int])]
                                        } else {
                                            Seq::empty()
                                        }) && s.len() > 0,
                                        None => bucket_spec(pre, c).len() == 0 && !(exists|u: int|
                                            0 <= u < t + 1 && (#[trigger] cs@[u])@ == c),
                                    }
                                }) by {
                                    if c == c0 {
                                        assert(exists|u: int|
                                            0 <= u < t && (#[trigger] cs@[u])@ == c);
                                    } else {
                                        assert forall|u: int|
                                            0 <= u < t + 1 && (#[trigger] cs@[u])@ == c implies 0
                                            <= u < t by {}
                                    }
                                }
                            }
                            t += 1;
                            continue;
                        }
                        let ghost bs_before = buckets@;
                        file_summary(&mut buckets, cs[t].as_str(), it);
                        proof {
                            let c0 = cs@[t as int]@;
                            assert(!(exists|u: int| 0 <= u < t && (#[trigger] cs@[u])@ == c0));
                            assert forall|c: Seq<char>|
                                #![trigger index_lookup(buckets@, c)]
                                true implies ({
                                match index_lookup(buckets@, c) {
                                    Some(s) => s.map_values(|x: SimpleItemData| simple_view(x))
                                        == bucket_spec(pre, c) + (if (exists|u: int|
                                        0 <= u < t + 1 && (#[trigger] cs@[u])@ == c) {
                                        seq![summary_of(all[i as int])]
                                    } else {
                                        Seq::empty()
                                    }) && s.len() > 0,
                                    None => bucket_spec(pre, c).len() == 0 && !(exists|u: int|
                                        0 <= u < t + 1 && (#[trigger] cs@[u])@ == c),
                                }
                            }) by {
                                if c == c0 {
                                    assert(cs@[t as int]@ == c0);
                                    match index_lookup(bs_before, c) {
                                        Some(s1) => {
                                            assert(s1.map_values(
                                                |x: SimpleItemData| simple_view(x),
                                            ) == bucket_spec(pre, c));
                                            assert(index_lookup(buckets@, c) matches Some(s2)
                                                && s2.map_values(|x: SimpleItemData| simple_view(x))
                                                =~= bucket_spec(pre, c) + seq![
                                                summary_of(all[i as int]),
                                            ]);
                                        },
                                        None => {
                                            assert(index_lookup(buckets@, c) matches Some(s2)
                                                && s2.map_values(|x: SimpleItemData| simple_view(x))
                                                =~= bucket_spec(pre, c) + seq![
                                                summary_of(all[i as int]),
                                            ]);
                                        },
                                    }
                                } else {
                                    assert(index_lookup(buckets@, c) == index_lookup(
                                        bs_before,
                                        c,
                                    ));
                                }
                            }
                        }
                        t += 1;
                    }
                    proof {
                        assert forall|c: Seq<char>|
                            #![trigger index_lookup(buckets@, c)]
                            true implies ({
                            match index_lookup(buckets@, c) {
                                Some(s) => s.map_values(|x: SimpleItemData| simple_view(x))
                                    == bucket_spec(pre1, c) && s.len() > 0,
                                None => bucket_spec(pre1, c).len() == 0,
                            }
                        }) by {
                            lemma_bucket_spec_push(pre, all[i as int], c);
                            if mentions(all[i as int], c) {
                                assert(exists|u: int|
                                    0 <= u < cs@.len() && (#[trigger] cs@[u])@ == c);
                                match index_lookup(buckets@, c) {
                                    Some(s) => {
                                        assert(bucket_spec(pre, c) + seq![
                                            summary_of(all[i as int]),
                                        ] =~= bucket_spec(pre, c).push(summary_of(all[i as int])));
                                    },
                                    None => {},
                                }
                            } else {
                                assert(!(exists|u: int|
                                    0 <= u < cs@.len() && (#[trigger] cs@[u])@ == c));
                                match index_lookup(buckets@, c) {
                                    Some(s) => {
                                        assert(bucket_spec(pre, c) + Seq::empty() =~= bucket_spec(
                                            pre,
                                            c,
                                        ));
                                    },
                                    None => {},
                                }
                            }
                        }
                    }
                },
            }
        }
        i += 1;
    }
    proof {
        assert(all.subrange(0, all.len() as int) =~= all);
    }
    CollectionItemIndex::from_buckets(buckets)
}

} // verus!

verus! {

/// Finds the entry whose key is `k`.
fn find_entry(entries: &Vec<Item>, k: &str) -> (r: Option<usize>)
    ensures
        match r {
            Some(e) => 0 <= e < entries@.len() && entries@[e as int].key@ == k@,
            None => forall|j: int| 0 <= j < entries@.len() ==> (#[trigger] entries@[j]).key@ != k@,
        },
{
    let mut j: usize = 0;
    while j < entries.len()
        invariant
            0 <= j <= entries@.len(),
            forall|w: int| 0 <= w < j ==> (#[trigger] entries@[w]).key@ != k@,
        decreases entries@.len() - j,
    {
        if str_eq(entries[j].key.as_str(), k) {
            return Some(j);
        }
        j += 1;
    }
    None
}

/// Rebuilds the item forest and the collection-item index from a flat,
/// unordered item list.
///
/// Items without a parent reference become forest roots, keyed by their own
/// key and kept in input order. Items with a parent reference are deferred;
/// each is then attached to its parent's sub-item list in input order, one
/// level deep, and an item whose parent key resolves to no root is reported
/// as a diagnostic and dropped. Independently, every item is filed in the
/// index once under each distinct declared collection membership, or under
/// the sentinel key when it belongs to zero collections.
#[verifier::loop_isolation(false)]
pub fn parse_items(items: Vec<Item>) -> (r: (ItemMap, CollectionItemIndex, Vec<Item>))
    requires
        forall|i: int, j: int|
            0 <= i < j < items@.len() ==> (#[trigger] items@[i]).key@ != (#[trigger] items@[j]).key@,
        forall|i: int| 0 <= i < items@.len() ==> (#[trigger] items@[i]).sub_items@.len() == 0,
    ensures
        forest_matches(items@, r.0@),
        forall|i: int, j: int|
            0 <= i < j < r.0@.len() ==> (#[trigger] r.0@[i]).key@ != (#[trigger] r.0@[j]).key@,
        index_matches(items@, r.1@),
        r.2@ == dangling_from(items@, items@),
        items@.len() == 0 ==> r.0@.len() == 0 && r.1@.len() == 0 && r.2@.len() == 0,
{
    let ghost input = items@;
    let index = build_collection_index(&items);
    proof {
        lemma_roots_distinct(input);
    }
    let mut pool = items;
    let mut entries: Vec<Item> = Vec::new();
    let mut deferred: Vec<Item> = Vec::new();
    let ghost mut k: int = 0;
    proof {
        assert(input.subrange(0, 0) =~= Seq::<Item>::empty());
        assert(pool@ =~= input.skip(0));
        reveal(Seq::filter);
        assert(roots_of(Seq::<Item>::empty()) =~= Seq::<Item>::empty());
        assert(deferred_of(Seq::<Item>::empty()) =~= Seq::<Item>::empty());
    }
    while pool.len() > 0
        invariant
            0 <= k <= input.len(),
            pool@ == input.skip(k),
            entries@ == roots_of(input.subrange(0, k)),
            deferred@ == deferred_of(input.subrange(0, k)),
        decreases pool@.len(),
    {
        let ghost pool0 = pool@;
        let x = pool.remove(0);
        proof {
            assert(x == input[k]);
            assert(pool@ =~= input.skip(k + 1));
            assert(input.subrange(0, k + 1) =~= input.subrange(0, k).push(x));
            lemma_roots_push(input.subrange(0, k), x);
        }
        if x.data.parent_item.is_none() {
            entries.push(x);
        } else {
            deferred.push(x);
        }
        proof {
            k = k + 1;
        }
    }
    proof {
        assert(input.subrange(0, input.len() as int) =~= input);
    }
    let ghost roots = roots_of(input);
    let ghost deferred0 = deferred@;
    let mut diag: Vec<Item> = Vec::new();
    let ghost mut t: int = 0;
    proof {
        assert(deferred0.subrange(0, 0) =~= Seq::<Item>::empty());
        assert(deferred@ =~= deferred0.skip(0));
        assert(dangling_from(input, Seq::<Item>::empty()) =~= Seq::<Item>::empty());
        assert forall|j: int| 0 <= j < entries@.len() implies (#[trigger] entries@[j]).sub_items@
            =~= attached_to(deferred0.subrange(0, 0), roots[j].key@) by {
            input.filter_lemma(|it: Item| crate::item::is_root(it));
            assert(attached_to(Seq::<Item>::empty(), roots[j].key@) =~= Seq::<Item>::empty());
            assert(roots[j].sub_items@.len() == 0) by {
                assert(input.contains(roots[j]));
                let w = choose|w: int| 0 <= w < input.len() && input[w] == roots[j];
                assert(input[w].sub_items@.len() == 0);
            }
        }
        input.filter_lemma(|it: Item| !crate::item::is_root(it));
    }
    while deferred.len() > 0
        invariant
            0 <= t <= deferred0.len(),
            deferred@ == deferred0.skip(t),
            entries@.len() == roots.len(),
            forall|j: int|
                0 <= j < entries@.len() ==> item_eq_except_subs(#[trigger] entries@[j], roots[j]),
            forall|j: int|
                0 <= j < entries@.len() ==> (#[trigger] entries@[j]).sub_items@ == attached_to(
                    deferred0.subrange(0, t),
                    roots[j].key@,
                ),
            diag@ == dangling_from(input, deferred0.subrange(0, t)),
        decreases deferred@.len(),
    {
        let ghost def_before = deferred@;
        let d = deferred.remove(0);
        proof {
            assert(d == deferred0[t]);
            assert(deferred@ =~= deferred0.skip(t + 1));
            assert(deferred0.subrange(0, t + 1) =~= deferred0.subrange(0, t).push(d));
            assert(!crate::item::is_root(deferred0[t]));
        }
        let parent: &String = match &d.data.parent_item {
            Some(p) => p,
            None => {
                proof {
                    assert(false);
                }
                &d.key
            },
        };
        let ghost pk = parent@;
        proof {
            assert(opt_str_view(d.data.parent_item) == Some(pk));
        }
        let e_opt = find_entry(&entries, parent.as_str());
        match e_opt {
            Some(e) => {
                let ghost ents0 = entries@;
                let mut ent = entries.remove(e);
                ent.sub_items.push(d);
                let ghost ent_snap = ent;
                entries.insert(e, ent);
                proof {
                    assert(entries@ =~= ents0.update(e as int, ent_snap));
                    assert(ent_snap.sub_items@ =~= ents0[e as int].sub_items@.push(d));
                    assert(roots[e as int].key@ == pk);
                    // the parent is a root, so this item is not dangling
                    assert(!dangling(input, d)) by {
                        assert(input.contains(roots[e as int]));
                        let w = choose|w: int|
                            0 <= w < input.len() && input[w] == roots[e as int];
                        assert(crate::item::is_root(input[w]) && input[w].key@ == pk);
                    }
                    lemma_dangling_push(input, deferred0.subrange(0, t), d);
                    assert(diag@ =~= dangling_from(input, deferred0.subrange(0, t + 1)));
                    assert forall|j: int|
                        0 <= j < entries@.len() implies (#[trigger] entries@[j]).sub_items@
                        == attached_to(deferred0.subrange(0, t + 1), roots[j].key@) by {
                        lemma_attached_push(deferred0.subrange(0, t), d, roots[j].key@);
                        if j == e {
                        } else {
                            assert(entries@[j] == ents0[j]);
                            assert(roots[j].key@ != pk);
                        }
                    }
                }
            },
            None => {
                proof {
                    assert(dangling(input, d)) by {
                        if root_keys_contain(input, pk) {
                            let w = choose|w: int|
                                0 <= w < input.len() && crate::item::is_root(#[trigger] input[w])
                                    && input[w].key@ == pk;
                            input.filter_lemma(|it: Item| crate::item::is_root(it));
                            assert(roots.contains(input[w]));
                            let j = choose|j: int| 0 <= j < roots.len() && roots[j] == input[w];
                            assert(entries@[j].key@ == pk);
                        }
                    }
                }
                diag.push(d);
                proof {
                    lemma_dangling_push(input, deferred0.subrange(0, t), d);
                    assert(diag@ =~= dangling_from(input, deferred0.subrange(0, t + 1)));
                    assert forall|j: int|
                        0 <= j < entries@.len() implies (#[trigger] entries@[j]).sub_items@
                        == attached_to(deferred0.subrange(0, t + 1), roots[j].key@) by {
                        lemma_attached_push(deferred0.subrange(0, t), d, roots[j].key@);
                        assert(roots[j].key@ != pk);
                    }
                }
            },
        }
        proof {
            t = t + 1;
        }
    }
    proof {
        assert(deferred0.subrange(0, deferred0.len() as int) =~= deferred0);
        assert forall|j: int| 0 <= j < entries@.len() implies (#[trigger] entries@[j]).sub_items@
            == roots[j].sub_items@ + attached_to(input, roots[j].key@) by {
            lemma_forest_filters(input, roots[j].key@);
            assert(roots[j].sub_items@.len() == 0) by {
                input.filter_lemma(|it: Item| crate::item::is_root(it));
                assert(input.contains(roots[j]));
                let w = choose|w: int| 0 <= w < input.len() && input[w] == roots[j];
                assert(input[w].sub_items@.len() == 0);
            }
            assert(roots[j].sub_items@ + attached_to(input, roots[j].key@) =~= attached_to(
                deferred0,
                roots[j].key@,
            ));
        }
        lemma_forest_filters(input, Seq::<char>::empty());
        assert(diag@ == dangling_from(input, input));
        if input.len() == 0 {
            assert(roots.len() == 0) by {
                input.filter_lemma(|it: Item| crate::item::is_root(it));
            }
            assert(dangling_from(input, input).len() == 0) by {
                input.lemma_filter_len(|it: Item| dangling(input, it));
            }
            assert(index_matches(input, index@));
            assert(index@.len() == 0) by {
                if index@.len() > 0 {
                    crate::zotero_data::lemma_index_lookup_at(index@, index@[0].key@, 0);
                    assert(index_lookup(index@, index@[0].key@) is Some);
                    assert(bucket_spec(input, index@[0].key@).len() == 0) by {
                        input.lemma_filter_len(
                            |it: Item| mentions(it, index@[0].key@),
                        );
                    }
                }
            }
        }
    }
    (ItemMap::from_items(entries), index, diag)
}

} // verus!

verus! {

use crate::zotero_data::{node_in_forest, node_in_subtree};

proof fn lemma_rec_keys_distinct_count(s: Seq<Collection>, k: Seq<char>)
    requires
        forall|i: int, j: int|
            0 <= i < j < s.len() ==> (#[trigger] s[i]).data.key@ != (#[trigger] s[j]).data.key@,
    ensures
        rec_keys(s).count(k) <= 1,
    decreases s.len(),
{
    if s.len() > 0 {
        let d = s.drop_first();
        assert(forall|i: int, j: int|
            0 <= i < j < d.len() ==> (#[trigger] d[i]).data.key@ != (#[trigger] d[j]).data.key@);
        lemma_rec_keys_distinct_count(d, k);
        if s[0].data.key@ == k {
            lemma_rec_keys_contain(d, k);
            if keys_contain(d, k) {
                let i = choose|i: int| 0 <= i < d.len() && (#[trigger] d[i]).data.key@ == k;
                assert(s[i + 1].data.key@ == k);
                assert(s[0].data.key@ != s[i + 1].data.key@);
            }
        }
    }
}

/// No node of a tree built from records with pairwise distinct keys is its
/// own ancestor: a node's key never occurs among its descendants.
pub proof fn lemma_no_self_ancestor(
    input: Seq<Collection>,
    roots: Seq<CollectionsData>,
    diag: Seq<Collection>,
    n: CollectionsData,
)
    requires
        forest_keys_rec(roots).add(rec_keys(diag)) == rec_keys(input),
        forall|i: int, j: int|
            0 <= i < j < input.len() ==> (#[trigger] input[i]).data.key@ != (
            #[trigger] input[j]).data.key@,
        node_in_forest(roots, n),
    ensures
        match n.children {
            None => true,
            Some(cs) => forest_keys_rec(cs@).count(n.key@) == 0,
        },
{
    broadcast use vstd::multiset::group_multiset_axioms;

    lemma_rec_keys_distinct_count(input, n.key@);
    crate::zotero_data::lemma_node_in_forest_count(roots, n, n.key@);
    assert(node_keys(n).count(n.key@) <= 1);
    match n.children {
        None => {},
        Some(cs) => {
            assert(node_keys(n).count(n.key@) == 1 + forest_keys_rec(cs@).count(n.key@));
        },
    }
}

} // verus!

verus! {

/// Every item of a key-distinct input is placed exactly once by the forest
/// builder. A root item stands as an entry and is attached nowhere; an item
/// whose parent key belongs to a root is a sub-item of exactly that root's
/// entry; any other item with a parent reference is reported as a diagnostic
/// and attached nowhere. Re-running the builder cannot move an item, since
/// the entries, their order and their sub-item lists are functions of the
/// input alone.
pub proof fn lemma_item_placement(items: Seq<Item>, entries: Seq<Item>, diag: Seq<Item>, i: int)
    requires
        forall|a: int, b: int|
            0 <= a < b < items.len() ==> (#[trigger] items[a]).key@ != (#[trigger] items[b]).key@,
        forall|a: int| 0 <= a < items.len() ==> (#[trigger] items[a]).sub_items@.len() == 0,
        forest_matches(items, entries),
        diag == dangling_from(items, items),
        0 <= i < items.len(),
    ensures
        crate::item::is_root(items[i]) ==> (exists|j: int|
            0 <= j < entries.len() && item_eq_except_subs(#[trigger] entries[j], items[i]))
            && (forall|j: int|
            0 <= j < entries.len() ==> !(#[trigger] entries[j]).sub_items@.contains(items[i]))
            && !diag.contains(items[i]),
        (!crate::item::is_root(items[i]) && root_keys_contain(
            items,
            opt_str_view(items[i].data.parent_item)->0,
        )) ==> (exists|j: int|
            0 <= j < entries.len() && (#[trigger] entries[j]).key@ == opt_str_view(
                items[i].data.parent_item,
            )->0 && entries[j].sub_items@.contains(items[i])) && (forall|j: int|
            0 <= j < entries.len() && (#[trigger] entries[j]).key@ != opt_str_view(
                items[i].data.parent_item,
            )->0 ==> !entries[j].sub_items@.contains(items[i])) && !diag.contains(items[i]),
        dangling(items, items[i]) ==> diag.contains(items[i]) && (forall|j: int|
            0 <= j < entries.len() ==> !(#[trigger] entries[j]).sub_items@.contains(items[i])),
{
    let roots = roots_of(items);
    lemma_roots_distinct(items);
    items.filter_lemma(|it: Item| crate::item::is_root(it));
    items.filter_lemma(|it: Item| dangling(items, it));
    let x = items[i];
    assert forall|j: int|
        0 <= j < entries.len() implies (#[trigger] entries[j]).sub_items@ == attached_to(
        items,
        roots[j].key@,
    ) by {
        assert(items.contains(roots[j]));
        let w = choose|w: int| 0 <= w < items.len() && items[w] == roots[j];
        assert(items[w].sub_items@.len() == 0);
        assert(roots[j].sub_items@ + attached_to(items, roots[j].key@) =~= attached_to(
            items,
            roots[j].key@,
        ));
    }
    if crate::item::is_root(x) {
        assert(roots.contains(x));
        let j = choose|j: int| 0 <= j < roots.len() && roots[j] == x;
        assert(item_eq_except_subs(entries[j], x));
        assert forall|j2: int|
            0 <= j2 < entries.len() implies !(#[trigger] entries[j2]).sub_items@.contains(x) by {
            items.filter_lemma(
                |it: Item| crate::collection::opt_str_view(it.data.parent_item) == Some::<
                    Seq<char>,
                >(roots[j2].key@),
            );
            if entries[j2].sub_items@.contains(x) {
                let w = choose|w: int|
                    0 <= w < entries[j2].sub_items@.len() && entries[j2].sub_items@[w] == x;
            }
        }
        if diag.contains(x) {
            let w = choose|w: int| 0 <= w < diag.len() && diag[w] == x;
            assert(dangling(items, diag[w]));
        }
    } else {
        let pk = opt_str_view(x.data.parent_item)->0;
        assert forall|j2: int|
            0 <= j2 < entries.len() && (#[trigger] entries[j2]).key@ != pk implies !entries[j2].sub_items@.contains(
            x,
        ) by {
            items.filter_lemma(
                |it: Item| crate::collection::opt_str_view(it.data.parent_item) == Some::<
                    Seq<char>,
                >(roots[j2].key@),
            );
            if entries[j2].sub_items@.contains(x) {
                let w = choose|w: int|
                    0 <= w < entries[j2].sub_items@.len() && entries[j2].sub_items@[w] == x;
            }
        }
        if root_keys_contain(items, pk) {
            let w = choose|w: int|
                0 <= w < items.len() && crate::item::is_root(#[trigger] items[w]) && items[w].key@
                    == pk;
            assert(roots.contains(items[w]));
            let j = choose|j: int| 0 <= j < roots.len() && roots[j] == items[w];
            assert(entries[j].key@ == pk);
            items.filter_lemma(
                |it: Item| crate::collection::opt_str_view(it.data.parent_item) == Some::<
                    Seq<char>,
                >(roots[j].key@),
            );
            assert(attached_to(items, roots[j].key@).contains(x));
            assert(entries[j].sub_items@.contains(x));
            if diag.contains(x) {
                let w2 = choose|w2: int| 0 <= w2 < diag.len() && diag[w2] == x;
                assert(dangling(items, diag[w2]));
            }
        } else {
            assert(dangling(items, x));
            assert(diag.contains(x));
            assert forall|j2: int|
                0 <= j2 < entries.len() implies !(#[trigger] entries[j2]).sub_items@.contains(
                x,
            ) by {
                items.filter_lemma(
                    |it: Item| crate::collection::opt_str_view(it.data.parent_item) == Some::<
                        Seq<char>,
                    >(roots[j2].key@),
                );
                if entries[j2].sub_items@.contains(x) {
                    let w = choose|w: int|
                        0 <= w < entries[j2].sub_items@.len() && entries[j2].sub_items@[w] == x;
                    assert(crate::collection::opt_str_view(x.data.parent_item) == Some(
                        roots[j2].key@,
                    ));
                    assert(items.contains(roots[j2]));
                    let v = choose|v: int| 0 <= v < items.len() && items[v] == roots[j2];
                    assert(crate::item::is_root(items[v]) && items[v].key@ == pk);
                }
            }
        }
    }
}

} // verus!
