//! Ascending listings of finite sets of nodes.

use std::collections::BTreeMap;
use vstd::prelude::*;
use vstd::std_specs::btree::axiom_increasing_seq_meaning;
use vstd::std_specs::btree::spec_keys_iter;
use vstd::std_specs::cmp::OrdSpec;
use vstd::std_specs::iter::IteratorSpec;

verus! {

broadcast use vstd::laws_cmp::group_laws_cmp;

/// Whether `s` is strictly ascending.
pub open spec fn ascending(s: Seq<usize>) -> bool {
    forall|i: int, j: int| 0 <= i < j < s.len() ==> s[i] < s[j]
}

/// Whether `s` lists exactly the members of `set`, in ascending order.
pub open spec fn lists(s: Seq<usize>, set: Set<usize>) -> bool {
    &&& ascending(s)
    &&& forall|n: usize| s.contains(n) <==> set.contains(n)
}

/// The members of a finite set in ascending order.
pub closed spec fn sorted_seq(set: Set<usize>) -> Seq<usize> {
    choose|s: Seq<usize>| lists(s, set)
}

/// Two ascending sequences with the same members are equal.
pub proof fn lemma_ascending_unique(a: Seq<usize>, b: Seq<usize>)
    requires
        ascending(a),
        ascending(b),
        forall|n: usize| a.contains(n) <==> b.contains(n),
    ensures
        a == b,
    decreases a.len(),
{
    if a.len() == 0 {
        if b.len() > 0 {
            assert(b.contains(b[0]));
        }
    } else {
        let top = a.last();
        assert(a.contains(top));
        let at = choose|j: int| 0 <= j < b.len() && b[j] == top;
        if at != b.len() - 1 {
            assert(b.contains(b.last()));
        }
        let a0 = a.drop_last();
        let b0 = b.drop_last();
        assert forall|n: usize| a0.contains(n) <==> b0.contains(n) by {
            if a0.contains(n) {
                assert(a.contains(n));
                let j = choose|j: int| 0 <= j < b.len() && b[j] == n;
                assert(b0[j] == n);
            }
            if b0.contains(n) {
                assert(b.contains(n));
                let i = choose|i: int| 0 <= i < a.len() && a[i] == n;
                assert(a0[i] == n);
            }
        }
        lemma_ascending_unique(a0, b0);
        assert(a =~= a0.push(top));
    }
}

proof fn lemma_greatest_member(set: Set<usize>) -> (top: usize)
    requires
        set.finite(),
        set.len() > 0,
    ensures
        set.contains(top),
        forall|n: usize| set.contains(n) ==> n <= top,
    decreases set.len(),
{
    let x = set.choose();
    let rest = set.remove(x);
    if rest.len() == 0 {
        x
    } else {
        let y = lemma_greatest_member(rest);
        if x > y {
            x
        } else {
            y
        }
    }
}

proof fn lemma_listing_exists(set: Set<usize>) -> (s: Seq<usize>)
    requires
        set.finite(),
    ensures
        lists(s, set),
    decreases set.len(),
{
    if set.len() == 0 {
        Seq::empty()
    } else {
        let top = lemma_greatest_member(set);
        let rest = set.remove(top);
        let s0 = lemma_listing_exists(rest);
        let s = s0.push(top);
        assert forall|i: int, j: int| 0 <= i < j < s.len() implies s[i] < s[j] by {
            if j == s0.len() {
                assert(s0.contains(s0[i]));
            }
        }
        assert forall|n: usize| s.contains(n) <==> set.contains(n) by {
            if set.contains(n) {
                if n == top {
                    assert(s[s0.len() as int] == n);
                } else {
                    let i = choose|i: int| 0 <= i < s0.len() && s0[i] == n;
                    assert(s[i] == n);
                }
            }
        }
        s
    }
}

/// The ascending listing of a finite set lists it.
pub proof fn lemma_sorted_seq(set: Set<usize>)
    requires
        set.finite(),
    ensures
        lists(sorted_seq(set), set),
{
    lemma_listing_exists(set);
}

/// Any ascending listing of a set is its ascending listing.
pub proof fn lemma_sorted_seq_is(s: Seq<usize>, set: Set<usize>)
    requires
        lists(s, set),
    ensures
        sorted_seq(set) == s,
{
    lemma_ascending_unique(sorted_seq(set), s);
}

/// An ascending listing names no node twice and is as long as its set.
pub proof fn lemma_listing_len(s: Seq<usize>, set: Set<usize>)
    requires
        lists(s, set),
    ensures
        s.no_duplicates(),
        set.finite(),
        set.len() == s.len(),
{
    assert(s.to_set() =~= set);
    s.unique_seq_to_set();
}

/// The first `i + 1` members of a sequence are its first `i` and the next.
pub proof fn lemma_take_next(s: Seq<usize>, i: int)
    requires
        0 <= i < s.len(),
    ensures
        s.take(i + 1) == s.take(i).push(s[i]),
        forall|n: usize| s.take(i + 1).contains(n) <==> s.take(i).contains(n) || n == s[i],
{
    let seen = s.take(i);
    let next = s.take(i + 1);
    assert forall|n: usize| next.contains(n) <==> seen.contains(n) || n == s[i] by {
        if n == s[i] {
            assert(next[i] == n);
        }
    }
}

/// The keys of `map` in ascending order.
pub fn sorted_keys<V>(map: &BTreeMap<usize, V>) -> (order: Vec<usize>)
    ensures
        lists(order@, map@.dom()),
        order@ == sorted_seq(map@.dom()),
{
    let mut order: Vec<usize> = Vec::new();
    for key in it: map.keys()
        invariant
            it.seq() == spec_keys_iter(map).remaining(),
            order@ == it.seq().unref().take(it.index()),
    {
        order.push(*key);
    }
    proof {
        let keys = spec_keys_iter(map).remaining();
        assert(order@ == keys.unref());
        axiom_increasing_seq_meaning::<&usize>(keys);
        assert forall|i: int, j: int| 0 <= i < j < order@.len() implies order@[i] < order@[j] by {
            assert(OrdSpec::cmp_spec(&keys[i], &keys[j]) is Less);
        }
        lemma_sorted_seq_is(order@, map@.dom());
    }
    order
}

} // verus!
