//! Stable ordering of items by a rank made of a group number and an identifier, as sort keys
//! of definitions are compared: first by group, then by identifier.

use vstd::prelude::*;

verus! {

/// A sort key: a group number, then an identifier.
pub type Rank = (u8, u128);

/// The first key comes at or before the second.
pub open spec fn rank_le(a: Rank, b: Rank) -> bool {
    a.0 < b.0 || (a.0 == b.0 && a.1 <= b.1)
}

/// How many leading items of a sorted sequence come at or before the rank.
pub open spec fn rank_position<T>(sorted: Seq<(Rank, T)>, r: Rank) -> nat
    decreases sorted.len(),
{
    if sorted.len() == 0 {
        0
    } else if rank_le(sorted[0].0, r) {
        1 + rank_position(sorted.skip(1), r)
    } else {
        0
    }
}

/// The items ordered by rank; items of equal rank keep their given order.
pub open spec fn sort_by_rank<T>(items: Seq<(Rank, T)>) -> Seq<(Rank, T)>
    decreases items.len(),
{
    if items.len() == 0 {
        items
    } else {
        let sorted = sort_by_rank(items.drop_last());
        sorted.insert(rank_position(sorted, items.last().0) as int, items.last())
    }
}

/// The items are in rank order.
pub open spec fn rank_sorted<T>(items: Seq<(Rank, T)>) -> bool {
    forall|i: int, j: int| 0 <= i < j < items.len() ==> rank_le(items[i].0, items[j].0)
}

pub proof fn lemma_rank_position<T>(sorted: Seq<(Rank, T)>, r: Rank)
    requires
        rank_sorted(sorted),
    ensures
        rank_position(sorted, r) <= sorted.len(),
        forall|i: int| 0 <= i < rank_position(sorted, r) ==> rank_le(#[trigger] sorted[i].0, r),
        forall|i: int| rank_position(sorted, r) <= i < sorted.len() ==> !rank_le(#[trigger] sorted[i].0, r),
    decreases sorted.len(),
{
    if sorted.len() > 0 {
        let rest = sorted.skip(1);
        assert(rank_sorted(rest)) by {
            assert forall|i: int, j: int| 0 <= i < j < rest.len() implies rank_le(rest[i].0, rest[j].0) by {
                assert(rest[i] == sorted[i + 1] && rest[j] == sorted[j + 1]);
            }
        }
        lemma_rank_position(rest, r);
        if rank_le(sorted[0].0, r) {
            assert forall|i: int| 0 <= i < rank_position(sorted, r) implies rank_le(#[trigger] sorted[i].0, r) by {
                if i > 0 {
                    assert(sorted[i] == rest[i - 1]);
                }
            }
            assert forall|i: int| rank_position(sorted, r) <= i < sorted.len() implies !rank_le(#[trigger] sorted[i].0, r) by {
                assert(sorted[i] == rest[i - 1]);
            }
        } else {
            assert forall|i: int| 0 <= i < sorted.len() implies !rank_le(#[trigger] sorted[i].0, r) by {
                if i > 0 {
                    assert(rank_le(sorted[0].0, sorted[i].0));
                }
            }
        }
    }
}

/// Stable sorting by rank orders the items and keeps each of them.
pub proof fn law_sort_by_rank_orders<T>(items: Seq<(Rank, T)>)
    ensures
        rank_sorted(sort_by_rank(items)),
        sort_by_rank(items).len() == items.len(),
        sort_by_rank(items).to_multiset() == items.to_multiset(),
    decreases items.len(),
{
    if items.len() > 0 {
        let rest = items.drop_last();
        let x = items.last();
        law_sort_by_rank_orders(rest);
        let sorted = sort_by_rank(rest);
        lemma_rank_position(sorted, x.0);
        let p = rank_position(sorted, x.0) as int;
        let out = sorted.insert(p, x);
        assert forall|i: int, j: int| 0 <= i < j < out.len() implies rank_le(out[i].0, out[j].0) by {
            if j < p {
                assert(out[i] == sorted[i] && out[j] == sorted[j]);
            } else if j == p {
                assert(out[i] == sorted[i]);
            } else if i < p {
                assert(out[i] == sorted[i] && out[j] == sorted[j - 1]);
                assert(rank_le(sorted[i].0, x.0));
                assert(!rank_le(sorted[j - 1].0, x.0));
            } else if i == p {
                assert(out[j] == sorted[j - 1]);
                assert(!rank_le(sorted[j - 1].0, x.0));
            } else {
                assert(out[i] == sorted[i - 1] && out[j] == sorted[j - 1]);
            }
        }
        vstd::seq_lib::to_multiset_insert(sorted, p, x);
        vstd::seq_lib::to_multiset_build(rest, x);
        assert(items =~= rest.push(x));
    }
}

/// Where an item goes depends on ranks alone, not on what the items carry.
proof fn lemma_rank_position_map<T, U>(sorted: Seq<(Rank, T)>, r: Rank, f: spec_fn(T) -> U)
    ensures
        rank_position(sorted.map_values(|x: (Rank, T)| (x.0, f(x.1))), r) == rank_position(sorted, r),
    decreases sorted.len(),
{
    let m = sorted.map_values(|x: (Rank, T)| (x.0, f(x.1)));
    if sorted.len() > 0 {
        assert(m.skip(1) =~= sorted.skip(1).map_values(|x: (Rank, T)| (x.0, f(x.1))));
        lemma_rank_position_map(sorted.skip(1), r, f);
    }
}

/// Sorting by rank commutes with changing what the items carry.
pub proof fn lemma_sort_by_rank_map<T, U>(items: Seq<(Rank, T)>, f: spec_fn(T) -> U)
    ensures
        sort_by_rank(items.map_values(|x: (Rank, T)| (x.0, f(x.1)))) == sort_by_rank(items).map_values(
            |x: (Rank, T)| (x.0, f(x.1)),
        ),
    decreases items.len(),
{
    let g = |x: (Rank, T)| (x.0, f(x.1));
    let m = items.map_values(g);
    if items.len() > 0 {
        assert(m.drop_last() =~= items.drop_last().map_values(g));
        lemma_sort_by_rank_map(items.drop_last(), f);
        let sorted = sort_by_rank(items.drop_last());
        lemma_rank_position_map(sorted, items.last().0, f);
        let p = rank_position(sorted, items.last().0) as int;
        law_sort_by_rank_orders(items.drop_last());
        lemma_rank_position(sorted, items.last().0);
        assert(sorted.insert(p, items.last()).map_values(g) =~= sorted.map_values(g).insert(p, g(items.last())));
    }
}

fn rank_le_exec(a: Rank, b: Rank) -> (r: bool)
    ensures
        r == rank_le(a, b),
{
    a.0 < b.0 || (a.0 == b.0 && a.1 <= b.1)
}

/// Orders the items by rank, keeping the given order of items of equal rank.
pub fn sort_ranked<T>(items: &mut Vec<(Rank, T)>)
    ensures
        final(items)@ == sort_by_rank(old(items)@),
{
    let ghost input = items@;
    assert(input.len() == items.len());
    let mut rest: Vec<(Rank, T)> = Vec::new();
    std::mem::swap(&mut rest, items);
    let mut sorted: Vec<(Rank, T)> = Vec::new();
    let mut remaining: Vec<(Rank, T)> = Vec::new();
    while rest.len() > 0
        invariant
            remaining@.len() + rest@.len() == input.len(),
            rest@ == input.take(rest@.len() as int),
            forall|k: int| 0 <= k < remaining@.len() ==> remaining@[k] == input[input.len() - 1 - k],
        decreases rest@.len(),
    {
        let x = rest.pop().unwrap();
        remaining.push(x);
    }
    let mut done: usize = 0;
    while remaining.len() > 0
        invariant
            done + remaining@.len() == input.len(),
            input.len() <= usize::MAX,
            sorted@ == sort_by_rank(input.take(done as int)),
            forall|k: int| 0 <= k < remaining@.len() ==> remaining@[k] == input[input.len() - 1 - k],
        decreases remaining@.len(),
    {
        let x = remaining.pop().unwrap();
        proof {
            assert(x == input[done as int]);
            assert(input.take(done + 1).drop_last() =~= input.take(done as int));
            assert(input.take(done + 1).last() == x);
        }
        let mut j: usize = 0;
        proof {
            assert(sorted@.skip(0) =~= sorted@);
        }
        while j < sorted.len() && rank_le_exec(sorted[j].0, x.0)
            invariant
                j <= sorted@.len(),
                rank_position(sorted@, x.0) == j + rank_position(sorted@.skip(j as int), x.0),
            decreases sorted@.len() - j,
        {
            proof {
                assert(sorted@.skip(j as int).skip(1) =~= sorted@.skip(j + 1));
            }
            j = j + 1;
        }
        proof {
            if j < sorted@.len() {
                assert(sorted@.skip(j as int)[0] == sorted@[j as int]);
            }
        }
        sorted.insert(j, x);
        done = done + 1;
    }
    proof {
        assert(input.take(done as int) =~= input);
    }
    *items = sorted;
}

} // verus!
