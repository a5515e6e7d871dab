//! Sums, means and shares over lists of nodes.

use crate::fixed::SCALE;
use crate::graph::in_edges;
use crate::graph::mean_weight;
use crate::graph::out_edges;
use crate::graph::Adjacency;
use std::collections::BTreeMap;
use vstd::arithmetic::div_mod::lemma_fundamental_div_mod;
use vstd::arithmetic::div_mod::lemma_fundamental_div_mod_converse;
use vstd::prelude::*;

verus! {

broadcast use vstd::laws_cmp::group_laws_cmp;

/// The trust score of `n`: the mean weight of the edges that enter it.
pub open spec fn trust(g: Adjacency, n: usize) -> int {
    mean_weight(in_edges(g, n))
}

/// The indegree of `n` as a fixed-point number.
pub open spec fn indegree(g: Adjacency, n: usize) -> int {
    in_edges(g, n).len() * SCALE
}

/// The outdegree of `n` as a fixed-point number.
pub open spec fn outdegree(g: Adjacency, n: usize) -> int {
    out_edges(g, n).len() * SCALE
}

/// The sum of `f` over `nodes`.
pub open spec fn total(nodes: Seq<usize>, f: spec_fn(usize) -> int) -> int
    decreases nodes.len(),
{
    if nodes.len() == 0 {
        0
    } else {
        total(nodes.drop_last(), f) + f(nodes.last())
    }
}

/// The mean of `f` over `nodes`, rounded down; zero where there is none.
pub open spec fn mean(nodes: Seq<usize>, f: spec_fn(usize) -> int) -> int {
    if nodes.len() == 0 {
        0
    } else {
        total(nodes, f) / (nodes.len() as int)
    }
}

/// The share of `part` in `whole` in percent, as a fixed-point number,
/// rounded down; zero where `whole` is zero.
pub open spec fn percentage(part: int, whole: int) -> int {
    if whole == 0 {
        0
    } else {
        part * 100 * SCALE / whole
    }
}

/// The sum over one node more.
pub proof fn lemma_total_push(nodes: Seq<usize>, n: usize, f: spec_fn(usize) -> int)
    ensures
        total(nodes.push(n), f) == total(nodes, f) + f(n),
{
    assert(nodes.push(n).drop_last() =~= nodes);
}

/// The value that `values` has for `node`; zero where it has none.
pub fn value_at(values: &BTreeMap<usize, i128>, node: usize) -> (v: i128)
    ensures
        values@.contains_key(node) ==> v == values@[node],
        !values@.contains_key(node) ==> v == 0,
{
    match values.get(&node) {
        Some(v) => *v,
        None => 0,
    }
}

/// The share of `part` in `whole` in percent.
pub fn percentage_of(part: usize, whole: usize) -> (share: i128)
    ensures
        share == percentage(part as int, whole as int),
{
    if whole == 0 {
        0
    } else {
        let scaled: u128 = (part as u128) * 100_000_000;
        (scaled / (whole as u128)) as i128
    }
}

/// The quotient and the remainder of the sum of the values of `nodes` by
/// their number; both zero where there is none.
pub(crate) fn mean_parts(
    values: &BTreeMap<usize, i128>,
    nodes: &Vec<usize>,
    Ghost(f): Ghost<spec_fn(usize) -> int>,
) -> (parts: (i128, i128))
    requires
        forall|i: int| 0 <= i < nodes@.len() ==> values@.contains_key(#[trigger] nodes@[i]),
        forall|n: usize| values@.contains_key(n) ==> values@[n] == f(n) && f(n) >= 0,
    ensures
        nodes@.len() == 0 ==> parts.0 == 0 && parts.1 == 0,
        nodes@.len() > 0 ==> parts.0 == total(nodes@, f) / (nodes@.len() as int) && parts.1
            == total(nodes@, f) % (nodes@.len() as int),
        parts.0 == mean(nodes@, f),
        0 <= parts.0,
{
    if nodes.len() == 0 {
        return (0, 0);
    }
    let count: i128 = nodes.len() as i128;
    let mut quotient: i128 = 0;
    let mut rest: i128 = 0;
    let mut i: usize = 0;
    while i < nodes.len()
        invariant
            i <= nodes.len(),
            count == nodes.len(),
            count > 0,
            forall|i: int| 0 <= i < nodes@.len() ==> values@.contains_key(#[trigger] nodes@[i]),
            forall|n: usize| values@.contains_key(n) ==> values@[n] == f(n) && f(n) >= 0,
            quotient * count + rest == total(nodes@.take(i as int), f),
            0 <= rest < count,
            0 <= quotient,
            total(nodes@.take(i as int), f) <= i * i128::MAX,
        decreases nodes.len() - i,
    {
        let value = value_at(values, nodes[i]);
        let whole = value / count;
        let part = value % count;
        proof {
            assert(nodes@.take(i as int + 1) =~= nodes@.take(i as int).push(nodes@[i as int]));
            lemma_total_push(nodes@.take(i as int), nodes@[i as int], f);
            lemma_fundamental_div_mod(value as int, count as int);
            let sum = total(nodes@.take(i as int), f);
            assert(whole >= 0 && quotient + whole <= i128::MAX && (rest + part >= count
                ==> quotient + whole + 1 <= i128::MAX)) by (nonlinear_arith)
                requires
                    quotient * count + rest == sum,
                    value == count * whole + part,
                    0 <= part < count,
                    0 <= rest < count,
                    sum + value <= (i + 1) * i128::MAX,
                    i + 1 <= count,
                    0 <= quotient,
                    value >= 0,
            ;
            assert((quotient + whole) * count + (rest + part) == sum + value) by (nonlinear_arith)
                requires
                    quotient * count + rest == sum,
                    value == count * whole + part,
            ;
            assert((quotient + whole + 1) * count + (rest + part - count) == sum + value)
                by (nonlinear_arith)
                requires
                    (quotient + whole) * count + (rest + part) == sum + value,
            ;
        }
        quotient = quotient + whole;
        rest = rest + part;
        if rest >= count {
            rest = rest - count;
            quotient = quotient + 1;
        }
        i += 1;
    }
    proof {
        assert(nodes@.take(i as int) =~= nodes@);
        lemma_fundamental_div_mod_converse(
            total(nodes@, f),
            count as int,
            quotient as int,
            rest as int,
        );
    }
    (quotient, rest)
}

/// A value lies above the mean where it lies above the quotient, and at or
/// above the mean where it lies above the quotient, or on it with nothing
/// left over.
pub proof fn lemma_against_mean(value: int, count: int, sum: int)
    requires
        count > 0,
    ensures
        value * count > sum <==> value > sum / count,
        value * count >= sum <==> value > sum / count || (value == sum / count && sum % count
            == 0),
{
    lemma_fundamental_div_mod(sum, count);
    let q = sum / count;
    let r = sum % count;
    assert(value * count > sum <==> value > q) by (nonlinear_arith)
        requires
            sum == count * q + r,
            0 <= r < count,
    ;
    assert(value * count >= sum <==> value > q || (value == q && r == 0)) by (nonlinear_arith)
        requires
            sum == count * q + r,
            0 <= r < count,
    ;
}

} // verus!
