//! The pairing rule of the collision resolver.
//!
//! Bodies live in an arena and are addressed by their index, which is also
//! the id under which their box is inserted into the spatial index. Each body
//! asks the index for candidates; a candidate is kept only when its id is
//! greater than the asking body's, so a pair is found from one side only and
//! a body never pairs with itself, and the candidates that the index repeats
//! for boxes spanning several tiles are kept once.

use std::collections::HashSet;
use vstd::prelude::*;
use crate::aabb::Aabb;
use crate::spatial_index::{SpatialIndex, holds_items, lemma_query_finds_overlapping};

verus! {

broadcast use {
    vstd::std_specs::hash::group_hash_axioms,
    vstd::seq_lib::lemma_seq_contains_after_push,
};

/// The items that an arena of boxes puts into the index: box `k` under id `k`.
pub open spec fn arena_items(boxes: Seq<Aabb>) -> Seq<(Aabb, u64)> {
    Seq::new(boxes.len(), |k: int| (boxes[k], k as u64))
}

/// `pairs` lists, once each, every pair `(i, j)` of bodies with `i < j` such
/// that the index offers `j` as a candidate for the box of `i`, and nothing
/// else.
pub open spec fn is_pair_list(idx: SpatialIndex, boxes: Seq<Aabb>, pairs: Seq<(usize, usize)>) -> bool {
    &&& forall|k: int| 0 <= k < pairs.len() ==> #[trigger] pairs[k].0 < pairs[k].1 < boxes.len()
    &&& pairs.no_duplicates()
    &&& forall|i: usize, j: usize|
        i < j < boxes.len() ==> (#[trigger] pairs.contains((i, j)) <==> idx.query_ids(
            boxes[i as int],
        ).contains(j as u64))
}

/// The distinct ids of `cands` that lie strictly between `i` and `n`, in the
/// order of their first occurrence.
pub open spec fn new_partners(cands: Seq<u64>, i: int, n: int) -> Seq<u64>
    decreases cands.len(),
{
    if cands.len() == 0 {
        Seq::empty()
    } else {
        let d = new_partners(cands.drop_last(), i, n);
        let c = cands.last();
        if i < c < n && !d.contains(c) {
            d.push(c)
        } else {
            d
        }
    }
}

/// Body `i` paired with each of `partners`, in order.
pub open spec fn pairs_of(i: int, partners: Seq<u64>) -> Seq<(usize, usize)> {
    partners.map_values(|c: u64| (i as usize, c as usize))
}

/// The pairs found by the first `m` bodies: body after body, each body's
/// new partners in the order in which the index offers them.
pub open spec fn pair_list(idx: SpatialIndex, boxes: Seq<Aabb>, m: int) -> Seq<(usize, usize)>
    decreases m,
{
    if m <= 0 {
        Seq::empty()
    } else {
        pair_list(idx, boxes, m - 1) + pairs_of(
            m - 1,
            new_partners(idx.query_ids(boxes[m - 1]), m - 1, boxes.len() as int),
        )
    }
}

proof fn lemma_new_partners_contains(cands: Seq<u64>, i: int, n: int, c: u64)
    ensures
        new_partners(cands, i, n).contains(c) <==> (i < c < n && cands.contains(c)),
    decreases cands.len(),
{
    if cands.len() > 0 {
        let init = cands.drop_last();
        lemma_new_partners_contains(init, i, n, c);
        assert(cands =~= init.push(cands.last()));
    }
}

/// The pairs of bodies that the narrow phase is to test: every pair of bodies
/// whose boxes the index puts in a common tile, lower index first, each pair
/// once.
pub fn collision_pairs(idx: &SpatialIndex, boxes: &Vec<Aabb>) -> (r: Vec<(usize, usize)>)
    requires
        idx.wf(),
    ensures
        r@ == pair_list(*idx, boxes@, boxes@.len() as int),
        is_pair_list(*idx, boxes@, r@),
{
    let n = boxes.len();
    let mut out: Vec<(usize, usize)> = Vec::new();
    let mut i: usize = 0;
    assert(out@ =~= pair_list(*idx, boxes@, 0));
    while i < n
        invariant
            idx.wf(),
            n == boxes@.len(),
            0 <= i <= n,
            forall|k: int|
                #![trigger out@[k]]
                0 <= k < out@.len() ==> out@[k].0 < out@[k].1 < n && out@[k].0 < i,
            out@.no_duplicates(),
            out@ == pair_list(*idx, boxes@, i as int),
            forall|a: usize, b: usize|
                a < i && a < b < n ==> (#[trigger] out@.contains((a, b)) <==> idx.query_ids(
                    boxes@[a as int],
                ).contains(b as u64)),
        decreases n - i,
    {
        let cands = idx.query(boxes[i]);
        let mut seen: HashSet<u64> = HashSet::new();
        assert(cands@.take(0) =~= Seq::<u64>::empty());
        assert(pairs_of(i as int, Seq::<u64>::empty()) =~= Seq::<(usize, usize)>::empty());
        assert(out@ + Seq::<(usize, usize)>::empty() =~= out@);
        let ghost start = out@.len();
        proof {
            assert forall|b: usize| i < b < n implies !(#[trigger] out@.contains((i, b))) by {
                if out@.contains((i, b)) {
                    let k = choose|k: int| 0 <= k < out@.len() && out@[k] == (i, b);
                    assert(out@[k].0 < i);
                }
            }
        }
        let mut j: usize = 0;
        while j < cands.len()
            invariant
                idx.wf(),
                n == boxes@.len(),
                0 <= i < n,
                cands@ == idx.query_ids(boxes@[i as int]),
                0 <= j <= cands@.len(),
                start <= out@.len(),
                forall|k: int| #![trigger out@[k]] 0 <= k < start ==> out@[k].0 < i,
                forall|k: int|
                    #![trigger out@[k]]
                    start <= k < out@.len() ==> out@[k].0 == i && i < out@[k].1 < n,
                forall|k: int| #![trigger out@[k]] 0 <= k < out@.len() ==> out@[k].0 < out@[k].1 < n,
                out@.no_duplicates(),
                out@ == pair_list(*idx, boxes@, i as int) + pairs_of(
                    i as int,
                    new_partners(cands@.take(j as int), i as int, n as int),
                ),
                forall|a: usize, b: usize|
                    a < i && a < b < n ==> (#[trigger] out@.contains((a, b)) <==> idx.query_ids(
                        boxes@[a as int],
                    ).contains(b as u64)),
                forall|b: usize|
                    i < b < n ==> (#[trigger] out@.contains((i, b)) <==> cands@.take(
                        j as int,
                    ).contains(b as u64)),
                forall|c: u64| #[trigger]
                    seen@.contains(c) ==> i < c < n && out@.contains((i, c as usize)),
                forall|b: usize| i < b < n && #[trigger] out@.contains((i, b)) ==> seen@.contains(b as u64),
            decreases cands@.len() - j,
        {
            let c = cands[j];
            let ghost before = out@;
            let ghost taken = cands@.take(j as int);
            assert(cands@.take(j as int + 1) =~= taken.push(c));
            assert(cands@.take(j as int + 1).drop_last() =~= taken);
            proof {
                lemma_new_partners_contains(taken, i as int, n as int, c);
            }
            if (i as u64) < c && c < (n as u64) {
                if seen.insert(c) {
                    proof {
                        assert(!out@.contains((i, c as usize)));
                    }
                    out.push((i, c as usize));
                    proof {
                        let d = new_partners(taken, i as int, n as int);
                        assert(pairs_of(i as int, d.push(c)) =~= pairs_of(i as int, d).push(
                            (i, c as usize),
                        ));
                        assert(out@[out@.len() - 1] == (i, c as usize));
                        assert forall|x: int, y: int|
                            0 <= x < out@.len() && 0 <= y < out@.len() && x != y implies out@[x]
                            != out@[y] by {
                            if x < before.len() && y < before.len() {
                                assert(before[x] != before[y]);
                            } else if x == before.len() {
                                assert(before.contains(out@[y]));
                            } else {
                                assert(before.contains(out@[x]));
                            }
                        }
                        assert forall|a: usize, b: usize|
                            a < i && a < b < n implies (#[trigger] out@.contains((a, b))
                            <==> idx.query_ids(boxes@[a as int]).contains(b as u64)) by {
                            if out@.contains((a, b)) {
                                let k = choose|k: int| 0 <= k < out@.len() && out@[k] == (a, b);
                                if k < before.len() {
                                    assert(before.contains((a, b)));
                                }
                            }
                        }
                    }
                }
            }
            j = j + 1;
        }
        proof {
            assert(cands@.take(cands@.len() as int) =~= cands@);
            assert(pair_list(*idx, boxes@, i as int + 1) == pair_list(*idx, boxes@, i as int)
                + pairs_of(i as int, new_partners(cands@, i as int, n as int)));
            assert forall|a: usize, b: usize|
                a < i + 1 && a < b < n implies (#[trigger] out@.contains((a, b)) <==> idx.query_ids(
                boxes@[a as int],
            ).contains(b as u64)) by {
                if a < i {
                } else {
                    assert(a == i);
                }
            }
        }
        i = i + 1;
    }
    out
}

/// Each pair of overlapping bodies is resolved exactly once per tick: when
/// the index holds the arena's boxes, every pair of bodies whose boxes
/// overlap appears once in the pair list, lower index first, and never the
/// other way round.
pub proof fn lemma_overlapping_pair_once(
    idx: SpatialIndex,
    boxes: Seq<Aabb>,
    pairs: Seq<(usize, usize)>,
    i: usize,
    j: usize,
)
    requires
        holds_items(idx, arena_items(boxes)),
        is_pair_list(idx, boxes, pairs),
        i < j < boxes.len(),
        boxes[i as int].overlaps(boxes[j as int]),
    ensures
        exists|k: int| 0 <= k < pairs.len() && pairs[k] == (i, j),
        forall|k1: int, k2: int|
            0 <= k1 < pairs.len() && 0 <= k2 < pairs.len() && pairs[k1] == (i, j) && pairs[k2] == (
            i,
            j,
        ) ==> k1 == k2,
        !pairs.contains((j, i)),
{
    let items = arena_items(boxes);
    assert(items[j as int].0.overlaps(boxes[i as int]));
    lemma_query_finds_overlapping(idx, items, j as int, boxes[i as int]);
    assert(pairs.contains((i, j)));
    if pairs.contains((j, i)) {
        let k = choose|k: int| 0 <= k < pairs.len() && pairs[k] == (j, i);
        assert(pairs[k].0 < pairs[k].1);
    }
}

} // verus!
