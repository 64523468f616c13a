//! Character-wise lexicographic ordering on strings, and the multiset
//! machinery used to account for records through permutations.

use vstd::multiset::Multiset;
use vstd::prelude::*;

verus! {

broadcast use vstd::multiset::group_multiset_axioms;

/// Lexicographic order on code points: the order collection and item names
/// are listed in.
pub open spec fn lex_le(a: Seq<char>, b: Seq<char>) -> bool
    decreases a.len(),
{
    if a.len() == 0 {
        true
    } else if b.len() == 0 {
        false
    } else if a[0] == b[0] {
        lex_le(a.drop_first(), b.drop_first())
    } else {
        (a[0] as u32) < (b[0] as u32)
    }
}

/// Distinct characters have distinct code points.
proof fn lemma_char_code_distinct(c1: char, c2: char)
    requires
        c1 != c2,
    ensures
        c1 as u32 != c2 as u32,
{
}

/// The order is total.
pub proof fn lemma_lex_total(a: Seq<char>, b: Seq<char>)
    ensures
        lex_le(a, b) || lex_le(b, a),
    decreases a.len(),
{
    if a.len() > 0 && b.len() > 0 {
        if a[0] == b[0] {
            lemma_lex_total(a.drop_first(), b.drop_first());
        } else {
            lemma_char_code_distinct(a[0], b[0]);
        }
    }
}

/// The order is transitive.
pub proof fn lemma_lex_trans(a: Seq<char>, b: Seq<char>, c: Seq<char>)
    requires
        lex_le(a, b),
        lex_le(b, c),
    ensures
        lex_le(a, c),
    decreases a.len(),
{
    if a.len() > 0 && b.len() > 0 && c.len() > 0 {
        if a[0] == b[0] && b[0] == c[0] {
            lemma_lex_trans(a.drop_first(), b.drop_first(), c.drop_first());
        }
    }
}

/// Compares two strings in lexicographic code point order.
pub fn str_le(a: &str, b: &str) -> (r: bool)
    ensures
        r == lex_le(a@, b@),
{
    let alen = a.unicode_len();
    let blen = b.unicode_len();
    let mut i: usize = 0;
    proof {
        assert(a@.skip(0) =~= a@);
        assert(b@.skip(0) =~= b@);
    }
    loop
        invariant
            0 <= i <= alen,
            i <= blen,
            alen == a@.len(),
            blen == b@.len(),
            forall|j: int| 0 <= j < i ==> a@[j] == b@[j],
            lex_le(a@, b@) == lex_le(a@.skip(i as int), b@.skip(i as int)),
        decreases alen - i,
    {
        if i == alen {
            proof {
                assert(lex_le(a@.skip(i as int), b@.skip(i as int)));
            }
            return true;
        }
        if i == blen {
            proof {
                assert(a@.skip(i as int).len() > 0);
                assert(b@.skip(i as int).len() == 0);
            }
            return false;
        }
        let ca = a.get_char(i);
        let cb = b.get_char(i);
        proof {
            let sa = a@.skip(i as int);
            let sb = b@.skip(i as int);
            assert(sa[0] == a@[i as int] && sb[0] == b@[i as int]);
            assert(sa.drop_first() =~= a@.skip(i + 1));
            assert(sb.drop_first() =~= b@.skip(i + 1));
        }
        if ca == cb {
            i += 1;
        } else {
            proof {
                lemma_char_code_distinct(ca, cb);
            }
            return (ca as u32) < (cb as u32);
        }
    }
}

// ---------------------------------------------------------------------------
// Summing multisets over a sequence
// ---------------------------------------------------------------------------

/// The sum of `f` over a sequence's elements.
pub open spec fn msum<A, B>(s: Seq<A>, f: spec_fn(A) -> Multiset<B>) -> Multiset<B>
    decreases s.len(),
{
    if s.len() == 0 {
        Multiset::empty()
    } else {
        f(s[0]).add(msum(s.drop_first(), f))
    }
}

pub proof fn lemma_msum_push<A, B>(s: Seq<A>, f: spec_fn(A) -> Multiset<B>, x: A)
    ensures
        msum(s.push(x), f) == msum(s, f).add(f(x)),
    decreases s.len(),
{
    if s.len() == 0 {
        assert(s.push(x).len() == 1);
        assert(s.push(x)[0] == x);
        assert(s.push(x).drop_first() =~= Seq::<A>::empty());
        assert(msum(s.push(x).drop_first(), f) =~= Multiset::<B>::empty());
        assert(msum(s, f) =~= Multiset::<B>::empty());
        assert(msum(s.push(x), f) =~= msum(s, f).add(f(x)));
    } else {
        assert(s.push(x).drop_first() =~= s.drop_first().push(x));
        lemma_msum_push(s.drop_first(), f, x);
        assert(msum(s.push(x), f) =~= msum(s, f).add(f(x)));
    }
}

pub proof fn lemma_msum_remove<A, B>(s: Seq<A>, f: spec_fn(A) -> Multiset<B>, i: int)
    requires
        0 <= i < s.len(),
    ensures
        msum(s, f) == msum(s.remove(i), f).add(f(s[i])),
    decreases s.len(),
{
    if i == 0 {
        assert(s.remove(0) =~= s.drop_first());
        assert(msum(s, f) =~= msum(s.remove(0), f).add(f(s[0])));
    } else {
        assert(s.remove(i).drop_first() =~= s.drop_first().remove(i - 1));
        lemma_msum_remove(s.drop_first(), f, i - 1);
        assert(msum(s, f) =~= msum(s.remove(i), f).add(f(s[i])));
    }
}

/// Reordering a sequence does not change the sum.
pub proof fn lemma_msum_permutation<A, B>(s1: Seq<A>, s2: Seq<A>, f: spec_fn(A) -> Multiset<B>)
    requires
        s1.to_multiset() == s2.to_multiset(),
    ensures
        msum(s1, f) == msum(s2, f),
    decreases s1.len(),
{
    broadcast use vstd::seq_lib::group_to_multiset_ensures;

    if s1.len() == 0 {
        assert(s2.to_multiset().len() == 0);
        assert(s2.len() == 0);
    } else {
        let x = s1[0];
        assert(s1.to_multiset().count(x) > 0) by {
            assert(s1.contains(x));
        }
        assert(s2.to_multiset().count(x) > 0);
        assert(s2.contains(x));
        let j = choose|j: int| 0 <= j < s2.len() && s2[j] == x;
        assert(s1.drop_first() =~= s1.remove(0));
        assert(s1.remove(0).to_multiset() == s1.to_multiset().remove(x));
        assert(s2.remove(j).to_multiset() == s2.to_multiset().remove(x));
        lemma_msum_permutation(s1.drop_first(), s2.remove(j), f);
        lemma_msum_remove(s2, f, j);
        assert(msum(s1, f) =~= msum(s2, f));
    }
}

/// Filtering one more element keeps or drops exactly that element.
pub proof fn lemma_filter_push<A>(s: Seq<A>, pred: spec_fn(A) -> bool, x: A)
    ensures
        s.push(x).filter(pred) == if pred(x) {
            s.filter(pred).push(x)
        } else {
            s.filter(pred)
        },
{
    reveal(Seq::filter);
    assert(s.push(x).drop_last() =~= s);
}

/// Filtering by a weaker predicate first changes nothing.
pub proof fn lemma_filter_subsume<A>(s: Seq<A>, p: spec_fn(A) -> bool, q: spec_fn(A) -> bool)
    requires
        forall|x: A| #[trigger] q(x) ==> p(x),
    ensures
        s.filter(p).filter(q) == s.filter(q),
    decreases s.len(),
{
    reveal(Seq::filter);
    if s.len() > 0 {
        let d = s.drop_last();
        lemma_filter_subsume(d, p, q);
        if p(s.last()) {
            lemma_filter_push(d.filter(p), q, s.last());
            assert(d.filter(p).push(s.last()) =~= s.filter(p));
        }
    }
}

} // verus!
