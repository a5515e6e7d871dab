//! Ranking of scored nodes.

use vstd::prelude::*;

verus! {

/// A node with the two values by which it is ranked.
#[derive(Debug, Clone, Copy)]
pub struct Ranked {
    /// The node.
    pub node: usize,
    /// Its composite score.
    pub score: i128,
    /// Its trust score.
    pub trust: i128,
}

/// Whether `a` ranks before `b`: by the higher score, then by the higher
/// trust, then by the lower node.
pub open spec fn precedes(a: Ranked, b: Ranked) -> bool {
    ||| a.score > b.score
    ||| a.score == b.score && a.trust > b.trust
    ||| a.score == b.score && a.trust == b.trust && a.node < b.node
}

/// Whether no entry of `s` ranks before an earlier one.
pub open spec fn in_rank_order(s: Seq<Ranked>) -> bool {
    forall|i: int, j: int| 0 <= i < j < s.len() ==> !precedes(s[j], s[i])
}

/// Whether `a` ranks before `b`.
pub fn comes_before(a: &Ranked, b: &Ranked) -> (before: bool)
    ensures
        before == precedes(*a, *b),
{
    a.score > b.score || (a.score == b.score && (a.trust > b.trust || (a.trust == b.trust
        && a.node < b.node)))
}

/// Puts `entry` into a list in rank order, behind every entry that it does
/// not rank before.
pub fn insert_ranked(list: &mut Vec<Ranked>, entry: Ranked)
    requires
        in_rank_order(old(list)@),
    ensures
        in_rank_order(final(list)@),
        final(list)@.to_multiset() == old(list)@.to_multiset().insert(entry),
        final(list)@.len() == old(list)@.len() + 1,
{
    let mut place: usize = 0;
    while place < list.len() && !comes_before(&entry, &list[place])
        invariant
            place <= list.len(),
            list@ == old(list)@,
            forall|q: int| 0 <= q < place ==> !precedes(entry, #[trigger] list@[q]),
        decreases list.len() - place,
    {
        place += 1;
    }
    let ghost before = list@;
    list.insert(place, entry);
    proof {
        vstd::seq_lib::to_multiset_insert(before, place as int, entry);
        assert forall|i: int, j: int| 0 <= i < j < list@.len() implies !precedes(
            list@[j],
            list@[i],
        ) by {
            if i == place && j - 1 > place {
                assert(!precedes(before[j - 1], before[place as int]));
            }
        }
    }
}

/// The entries in rank order.
pub fn rank(entries: &Vec<Ranked>) -> (sorted: Vec<Ranked>)
    ensures
        in_rank_order(sorted@),
        sorted@.to_multiset() == entries@.to_multiset(),
        sorted@.len() == entries@.len(),
{
    let mut sorted: Vec<Ranked> = Vec::new();
    let mut i: usize = 0;
    assert(entries@.take(0) =~= Seq::<Ranked>::empty());
    while i < entries.len()
        invariant
            i <= entries.len(),
            in_rank_order(sorted@),
            sorted@.to_multiset() == entries@.take(i as int).to_multiset(),
            sorted@.len() == i,
        decreases entries.len() - i,
    {
        proof {
            assert(entries@.take(i as int + 1) =~= entries@.take(i as int).push(
                entries@[i as int],
            ));
            vstd::seq_lib::to_multiset_build(entries@.take(i as int), entries@[i as int]);
        }
        insert_ranked(&mut sorted, entries[i]);
        i += 1;
    }
    assert(entries@.take(i as int) =~= entries@);
    sorted
}

} // verus!
