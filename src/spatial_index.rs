//! A uniform grid over world space that maps boxes to the tiles they span.
//!
//! Tiles are addressed by integer tile coordinates `floor(x / tile_size)`.
//! Each tile that has ever been used owns a bucket of entries, each a box and
//! its id; clearing the index empties the buckets but keeps them, and their
//! allocations, for reuse. A query visits the tiles its box spans and keeps
//! the entries whose box overlaps it.

use std::collections::HashMap;
use vstd::prelude::*;
use vstd::arithmetic::div_mod::lemma_fundamental_div_mod_converse;
use crate::aabb::{Aabb, floor_div, lemma_overlap_shares_tile, tile_coord};

verus! {

broadcast use {
    vstd::std_specs::hash::group_hash_axioms,
    vstd::seq_lib::lemma_seq_concat_contains_all_elements,
    vstd::seq_lib::lemma_seq_contains_after_push,
};

/// Tile coordinates that a coordinate of type `i32` can give.
pub open spec fn tile_in_range(tx: int, ty: int) -> bool {
    i32::MIN <= tx <= i32::MAX && i32::MIN <= ty <= i32::MAX
}

/// The hash key of a tile: both coordinates shifted to be non-negative and
/// packed into the high and low halves of a `u64`.
pub open spec fn tile_key(tx: int, ty: int) -> int {
    (tx - i32::MIN) * 0x1_0000_0000 + (ty - i32::MIN)
}

proof fn lemma_tile_key_parts(tx: int, ty: int)
    requires
        tile_in_range(tx, ty),
    ensures
        tile_key(tx, ty) / 0x1_0000_0000 == tx - i32::MIN,
        tile_key(tx, ty) % 0x1_0000_0000 == ty - i32::MIN,
        0 <= tile_key(tx, ty) <= u64::MAX,
{
    lemma_fundamental_div_mod_converse(tile_key(tx, ty), 0x1_0000_0000, tx - i32::MIN, ty - i32::MIN);
    assert(0 <= tile_key(tx, ty) <= u64::MAX) by (nonlinear_arith)
        requires
            0 <= tx - i32::MIN <= 0xFFFF_FFFF,
            0 <= ty - i32::MIN <= 0xFFFF_FFFF,
            tile_key(tx, ty) == (tx - i32::MIN) * 0x1_0000_0000 + (ty - i32::MIN),
    ;
}

proof fn lemma_tile_key_injective(ax: int, ay: int, bx: int, by: int)
    requires
        tile_in_range(ax, ay),
        tile_in_range(bx, by),
        tile_key(ax, ay) as u64 == tile_key(bx, by) as u64,
    ensures
        ax == bx && ay == by,
{
    lemma_tile_key_parts(ax, ay);
    lemma_tile_key_parts(bx, by);
}

fn pack_tile(tx: i32, ty: i32) -> (k: u64)
    ensures
        k as int == tile_key(tx as int, ty as int),
{
    proof {
        lemma_tile_key_parts(tx as int, ty as int);
    }
    let hi: u64 = (tx as i64 + 0x8000_0000) as u64;
    let lo: u64 = (ty as i64 + 0x8000_0000) as u64;
    hi * 0x1_0000_0000 + lo
}

/// The grid: buckets of entries, one per tile that has been used since the
/// index was made. An entry is a box and the id it was inserted under.
pub struct SpatialIndex {
    tile_size: u32,
    slots: HashMap<u64, usize>,
    buckets: Vec<Vec<(Aabb, u64)>>,
}

impl SpatialIndex {
    /// Side length of a tile, in world units.
    pub closed spec fn spec_tile_size(&self) -> int {
        self.tile_size as int
    }

    /// The tile size is positive, every tile key leads to a bucket, and no two
    /// tiles share one.
    pub closed spec fn wf(&self) -> bool {
        &&& self.tile_size > 0
        &&& forall|k: u64| #[trigger]
            self.slots@.contains_key(k) ==> self.slots@[k] < self.buckets@.len()
        &&& forall|k1: u64, k2: u64|
            #[trigger] self.slots@.contains_key(k1) && #[trigger] self.slots@.contains_key(k2)
                && k1 != k2 ==> self.slots@[k1] != self.slots@[k2]
    }

    /// The entries held by tile `(tx, ty)`, in the order in which they were
    /// inserted since the last clear.
    pub closed spec fn bucket(&self, tx: int, ty: int) -> Seq<(Aabb, u64)> {
        if tile_in_range(tx, ty) && self.slots@.contains_key(tile_key(tx, ty) as u64) {
            self.buckets@[self.slots@[tile_key(tx, ty) as u64] as int]@
        } else {
            Seq::empty()
        }
    }

    /// An empty index with tiles of `tile_size` world units.
    pub fn new(tile_size: u32) -> (r: SpatialIndex)
        requires
            tile_size > 0,
        ensures
            r.wf(),
            r.spec_tile_size() == tile_size,
            forall|tx: int, ty: int| #[trigger] r.bucket(tx, ty) == Seq::<(Aabb, u64)>::empty(),
    {
        SpatialIndex { tile_size, slots: HashMap::new(), buckets: Vec::new() }
    }

    /// Side length of a tile, in world units.
    pub fn tile_size(&self) -> (r: u32)
        ensures
            r == self.spec_tile_size(),
    {
        self.tile_size
    }

    /// Appends `entry` to the bucket of tile `(tx, ty)`, making the bucket if
    /// the tile has none.
    fn push_to_tile(&mut self, tx: i32, ty: i32, entry: (Aabb, u64))
        requires
            old(self).wf(),
        ensures
            final(self).wf(),
            final(self).tile_size == old(self).tile_size,
            forall|a: int, b: int| #[trigger]
                final(self).bucket(a, b) == if a == tx && b == ty {
                    old(self).bucket(a, b).push(entry)
                } else {
                    old(self).bucket(a, b)
                },
    {
        let key = pack_tile(tx, ty);
        proof {
            lemma_tile_key_parts(tx as int, ty as int);
        }
        let ghost pre = *self;
        match self.slots.get(&key) {
            Some(s) => {
                let s = *s;
                self.buckets[s].push(entry);
                assert forall|a: int, b: int|
                    #[trigger] self.bucket(a, b) == if a == tx && b == ty {
                        pre.bucket(a, b).push(entry)
                    } else {
                        pre.bucket(a, b)
                    } by {
                    if tile_in_range(a, b) && self.slots@.contains_key(tile_key(a, b) as u64) {
                        if !(a == tx && b == ty) {
                            lemma_tile_key_parts(a, b);
                            if tile_key(a, b) as u64 == key {
                                lemma_tile_key_injective(a, b, tx as int, ty as int);
                            }
                        }
                    }
                }
            },
            None => {
                let s = self.buckets.len();
                let mut fresh: Vec<(Aabb, u64)> = Vec::new();
                fresh.push(entry);
                self.buckets.push(fresh);
                self.slots.insert(key, s);
                assert(self.bucket(tx as int, ty as int) =~= pre.bucket(tx as int, ty as int).push(entry));
                assert forall|a: int, b: int|
                    #[trigger] self.bucket(a, b) == if a == tx && b == ty {
                        pre.bucket(a, b).push(entry)
                    } else {
                        pre.bucket(a, b)
                    } by {
                    if tile_in_range(a, b) && !(a == tx && b == ty) {
                        lemma_tile_key_parts(a, b);
                        if tile_key(a, b) as u64 == key {
                            lemma_tile_key_injective(a, b, tx as int, ty as int);
                        }
                    }
                }
            },
        }
    }

    /// Inserts `(aabb, id)` into the bucket of every tile that `aabb` spans.
    pub fn insert(&mut self, aabb: Aabb, id: u64)
        requires
            old(self).wf(),
        ensures
            final(self).wf(),
            final(self).spec_tile_size() == old(self).spec_tile_size(),
            forall|a: int, b: int| #[trigger]
                final(self).bucket(a, b) == if aabb.spans_tile(old(self).spec_tile_size(), a, b) {
                    old(self).bucket(a, b).push((aabb, id))
                } else {
                    old(self).bucket(a, b)
                },
    {
        let size = self.tile_size;
        let x0 = tile_coord(aabb.min_x, size);
        let x1 = tile_coord(aabb.max_x, size);
        let y0 = tile_coord(aabb.min_y, size);
        let y1 = tile_coord(aabb.max_y, size);
        if x0 > x1 || y0 > y1 {
            return;
        }
        let ghost pre = *self;
        let mut ty: i64 = y0 as i64;
        while ty <= y1 as i64
            invariant
                self.wf(),
                self.tile_size == size,
                x0 <= x1,
                y0 <= ty <= y1 + 1,
                forall|a: int, b: int| #[trigger]
                    self.bucket(a, b) == if x0 <= a <= x1 && y0 <= b < ty {
                        pre.bucket(a, b).push((aabb, id))
                    } else {
                        pre.bucket(a, b)
                    },
            decreases y1 + 1 - ty,
        {
            let mut tx: i64 = x0 as i64;
            while tx <= x1 as i64
                invariant
                    self.wf(),
                    self.tile_size == size,
                    x0 <= tx <= x1 + 1,
                    y0 <= ty <= y1,
                    forall|a: int, b: int| #[trigger]
                        self.bucket(a, b) == if (x0 <= a <= x1 && y0 <= b < ty) || (b == ty && x0
                            <= a < tx) {
                            pre.bucket(a, b).push((aabb, id))
                        } else {
                            pre.bucket(a, b)
                        },
                decreases x1 + 1 - tx,
            {
                self.push_to_tile(tx as i32, ty as i32, (aabb, id));
                tx = tx + 1;
            }
            ty = ty + 1;
        }
    }

    /// Empties every bucket while keeping the buckets, and the memory they
    /// hold, for the next round of insertions.
    pub fn soft_clear(&mut self)
        requires
            old(self).wf(),
        ensures
            final(self).wf(),
            final(self).spec_tile_size() == old(self).spec_tile_size(),
            forall|a: int, b: int| #[trigger] final(self).bucket(a, b) == Seq::<(Aabb, u64)>::empty(),
    {
        let ghost pre = *self;
        let mut i: usize = 0;
        while i < self.buckets.len()
            invariant
                self.tile_size == pre.tile_size,
                self.slots@ == pre.slots@,
                self.buckets@.len() == pre.buckets@.len(),
                pre.wf(),
                0 <= i <= self.buckets@.len(),
                forall|j: int| 0 <= j < i ==> #[trigger] self.buckets@[j]@ == Seq::<(Aabb, u64)>::empty(),
            decreases self.buckets@.len() - i,
        {
            self.buckets[i].clear();
            i = i + 1;
        }
        assert forall|a: int, b: int| #[trigger] self.bucket(a, b) == Seq::<(Aabb, u64)>::empty() by {
            if tile_in_range(a, b) && self.slots@.contains_key(tile_key(a, b) as u64) {
                assert(self.slots@[tile_key(a, b) as u64] < self.buckets@.len());
            }
        }
    }

    /// Clears the index and inserts each `(box, id)` of `items`, in order.
    pub fn rebuild(&mut self, items: &Vec<(Aabb, u64)>)
        requires
            old(self).wf(),
        ensures
            final(self).wf(),
            final(self).spec_tile_size() == old(self).spec_tile_size(),
            forall|a: int, b: int| #[trigger]
                final(self).bucket(a, b) == filled(old(self).spec_tile_size(), items@, a, b),
    {
        self.soft_clear();
        let mut k: usize = 0;
        while k < items.len()
            invariant
                self.wf(),
                self.spec_tile_size() == old(self).spec_tile_size(),
                0 <= k <= items@.len(),
                forall|a: int, b: int| #[trigger]
                    self.bucket(a, b) == filled(self.spec_tile_size(), items@.take(k as int), a, b),
            decreases items@.len() - k,
        {
            let (aabb, id) = items[k];
            self.insert(aabb, id);
            assert(items@.take(k as int + 1).drop_last() =~= items@.take(k as int));
            k = k + 1;
        }
        assert(items@.take(items@.len() as int) =~= items@);
    }

    /// The ids, in order, of the entries of `entries` whose box overlaps `q`.
    pub open spec fn hits(entries: Seq<(Aabb, u64)>, q: Aabb) -> Seq<u64>
        decreases entries.len(),
    {
        if entries.len() == 0 {
            Seq::empty()
        } else {
            let prev = Self::hits(entries.drop_last(), q);
            if entries.last().0.overlaps(q) {
                prev.push(entries.last().1)
            } else {
                prev
            }
        }
    }

    /// The ids met in row `ty` from tile `x0` to tile `x1`, tile after tile,
    /// whose box overlaps `q`.
    pub open spec fn row_ids(&self, q: Aabb, ty: int, x0: int, x1: int) -> Seq<u64>
        decreases x1 + 1 - x0,
    {
        if x1 < x0 {
            Seq::empty()
        } else {
            self.row_ids(q, ty, x0, x1 - 1) + Self::hits(self.bucket(x1, ty), q)
        }
    }

    /// The ids met in the block of tiles `[x0, x1] x [y0, y1]`, row after row,
    /// whose box overlaps `q`.
    pub open spec fn block_ids(&self, q: Aabb, x0: int, x1: int, y0: int, y1: int) -> Seq<u64>
        decreases y1 + 1 - y0,
    {
        if y1 < y0 {
            Seq::empty()
        } else {
            self.block_ids(q, x0, x1, y0, y1 - 1) + self.row_ids(q, y1, x0, x1)
        }
    }

    /// The answer to a query with box `q`: the tiles that `q` spans are
    /// visited row after row, and each entry met there whose box overlaps `q`
    /// gives its id. An id whose box spans several of those tiles comes once
    /// for each of them.
    pub open spec fn query_ids(&self, q: Aabb) -> Seq<u64> {
        let size = self.spec_tile_size();
        self.block_ids(
            q,
            floor_div(q.min_x as int, size),
            floor_div(q.max_x as int, size),
            floor_div(q.min_y as int, size),
            floor_div(q.max_y as int, size),
        )
    }

    /// The ids whose box overlaps `q`, gathered from the tiles that `q` spans.
    /// An id whose box spans several of those tiles comes once for each; the
    /// shape inside a box is for the caller to test.
    pub fn query(&self, q: Aabb) -> (r: Vec<u64>)
        requires
            self.wf(),
        ensures
            r@ == self.query_ids(q),
    {
        let size = self.tile_size;
        let x0 = tile_coord(q.min_x, size);
        let x1 = tile_coord(q.max_x, size);
        let y0 = tile_coord(q.min_y, size);
        let y1 = tile_coord(q.max_y, size);
        let mut out: Vec<u64> = Vec::new();
        if y0 > y1 {
            return out;
        }
        let mut ty: i64 = y0 as i64;
        while ty <= y1 as i64
            invariant
                self.wf(),
                y0 <= ty <= y1 + 1,
                out@ == self.block_ids(q, x0 as int, x1 as int, y0 as int, ty - 1),
            decreases y1 + 1 - ty,
        {
            let ghost before = out@;
            let mut tx: i64 = x0 as i64;
            if x0 <= x1 {
                while tx <= x1 as i64
                    invariant
                        self.wf(),
                        x0 <= tx <= x1 + 1,
                        y0 <= ty <= y1,
                        out@ == before + self.row_ids(q, ty as int, x0 as int, tx - 1),
                    decreases x1 + 1 - tx,
                {
                    self.append_hits(tx as i32, ty as i32, q, &mut out);
                    assert(out@ == before + self.row_ids(q, ty as int, x0 as int, tx as int));
                    tx = tx + 1;
                }
            }
            assert(out@ == before + self.row_ids(q, ty as int, x0 as int, x1 as int));
            ty = ty + 1;
        }
        out
    }

    /// Appends to `out` the ids of the entries of tile `(tx, ty)` whose box
    /// overlaps `q`.
    fn append_hits(&self, tx: i32, ty: i32, q: Aabb, out: &mut Vec<u64>)
        requires
            self.wf(),
        ensures
            final(out)@ == old(out)@ + Self::hits(self.bucket(tx as int, ty as int), q),
    {
        let key = pack_tile(tx, ty);
        proof {
            lemma_tile_key_parts(tx as int, ty as int);
        }
        match self.slots.get(&key) {
            Some(s) => {
                let bucket = &self.buckets[*s];
                let ghost start = out@;
                let mut j: usize = 0;
                assert(bucket@.take(0) =~= Seq::<(Aabb, u64)>::empty());
                assert(start + Seq::<u64>::empty() =~= start);
                while j < bucket.len()
                    invariant
                        0 <= j <= bucket@.len(),
                        out@ == start + Self::hits(bucket@.take(j as int), q),
                    decreases bucket@.len() - j,
                {
                    let (b, id) = bucket[j];
                    let ghost taken = bucket@.take(j as int);
                    assert(bucket@.take(j as int + 1).drop_last() =~= taken);
                    if b.intersects(&q) {
                        out.push(id);
                        assert(out@ =~= start + Self::hits(taken, q).push(id));
                    }
                    j = j + 1;
                }
                assert(bucket@.take(bucket@.len() as int) =~= bucket@);
            },
            None => {
                assert(out@ + Self::hits(self.bucket(tx as int, ty as int), q) =~= out@);
            },
        }
    }
}

/// What tile `(tx, ty)` holds after the boxes of `items` are inserted, in
/// order, into an empty grid of tiles of `size` world units: each item whose
/// box spans the tile.
pub open spec fn filled(size: int, items: Seq<(Aabb, u64)>, tx: int, ty: int) -> Seq<(Aabb, u64)>
    decreases items.len(),
{
    if items.len() == 0 {
        Seq::empty()
    } else {
        let prev = filled(size, items.drop_last(), tx, ty);
        if items.last().0.spans_tile(size, tx, ty) {
            prev.push(items.last())
        } else {
            prev
        }
    }
}

/// A tile holds an entry exactly when it is one of the items and its box
/// spans the tile.
proof fn lemma_filled_contains(size: int, items: Seq<(Aabb, u64)>, tx: int, ty: int, e: (Aabb, u64))
    ensures
        filled(size, items, tx, ty).contains(e) <==> exists|k: int|
            0 <= k < items.len() && #[trigger] items[k] == e && e.0.spans_tile(size, tx, ty),
    decreases items.len(),
{
    if items.len() > 0 {
        let init = items.drop_last();
        lemma_filled_contains(size, init, tx, ty, e);
        if filled(size, items, tx, ty).contains(e) {
            if filled(size, init, tx, ty).contains(e) {
                let k = choose|k: int|
                    0 <= k < init.len() && #[trigger] init[k] == e && e.0.spans_tile(size, tx, ty);
                assert(items[k] == init[k]);
            } else {
                assert(items[items.len() - 1] == e);
            }
        }
        if exists|k: int| 0 <= k < items.len() && #[trigger] items[k] == e && e.0.spans_tile(size, tx, ty) {
            let k = choose|k: int|
                0 <= k < items.len() && #[trigger] items[k] == e && e.0.spans_tile(size, tx, ty);
            if k < items.len() - 1 {
                assert(init[k] == items[k]);
            }
        }
    }
}

/// The hits of a sequence of entries are the ids of its entries whose box
/// overlaps `q`.
proof fn lemma_hits_contains(entries: Seq<(Aabb, u64)>, q: Aabb, id: u64)
    ensures
        SpatialIndex::hits(entries, q).contains(id) <==> exists|k: int|
            0 <= k < entries.len() && #[trigger] entries[k].1 == id && entries[k].0.overlaps(q),
    decreases entries.len(),
{
    if entries.len() > 0 {
        let init = entries.drop_last();
        lemma_hits_contains(init, q, id);
        if SpatialIndex::hits(entries, q).contains(id) {
            if SpatialIndex::hits(init, q).contains(id) {
                let k = choose|k: int|
                    0 <= k < init.len() && #[trigger] init[k].1 == id && init[k].0.overlaps(q);
                assert(entries[k] == init[k]);
            } else {
                assert(entries[entries.len() - 1].1 == id);
            }
        }
        if exists|k: int| 0 <= k < entries.len() && #[trigger] entries[k].1 == id && entries[k].0.overlaps(q) {
            let k = choose|k: int|
                0 <= k < entries.len() && #[trigger] entries[k].1 == id && entries[k].0.overlaps(q);
            if k < entries.len() - 1 {
                assert(init[k] == entries[k]);
            }
        }
    }
}

proof fn lemma_row_ids_contains(idx: SpatialIndex, q: Aabb, ty: int, x0: int, x1: int, id: u64)
    ensures
        idx.row_ids(q, ty, x0, x1).contains(id) <==> exists|a: int|
            x0 <= a <= x1 && #[trigger] SpatialIndex::hits(idx.bucket(a, ty), q).contains(id),
    decreases x1 + 1 - x0,
{
    if x1 >= x0 {
        lemma_row_ids_contains(idx, q, ty, x0, x1 - 1, id);
    }
}

proof fn lemma_block_ids_contains(idx: SpatialIndex, q: Aabb, x0: int, x1: int, y0: int, y1: int, id: u64)
    ensures
        idx.block_ids(q, x0, x1, y0, y1).contains(id) <==> exists|a: int, b: int|
            x0 <= a <= x1 && y0 <= b <= y1 && #[trigger] SpatialIndex::hits(idx.bucket(a, b), q).contains(id),
    decreases y1 + 1 - y0,
{
    if y1 >= y0 {
        lemma_block_ids_contains(idx, q, x0, x1, y0, y1 - 1, id);
        lemma_row_ids_contains(idx, q, y1, x0, x1, id);
        if idx.block_ids(q, x0, x1, y0, y1).contains(id) {
            if idx.row_ids(q, y1, x0, x1).contains(id) {
                let a = choose|a: int|
                    x0 <= a <= x1 && #[trigger] SpatialIndex::hits(idx.bucket(a, y1), q).contains(id);
                assert(SpatialIndex::hits(idx.bucket(a, y1), q).contains(id));
            }
        }
        if exists|a: int, b: int|
            x0 <= a <= x1 && y0 <= b <= y1 && #[trigger] SpatialIndex::hits(idx.bucket(a, b), q).contains(id) {
            let (a, b) = choose|a: int, b: int|
                x0 <= a <= x1 && y0 <= b <= y1 && #[trigger] SpatialIndex::hits(idx.bucket(a, b), q).contains(id);
            if b == y1 {
                assert(idx.row_ids(q, y1, x0, x1).contains(id));
            } else {
                assert(idx.block_ids(q, x0, x1, y0, y1 - 1).contains(id));
            }
        }
    }
}

/// An index holds `items` when every tile holds what inserting `items`, in
/// order, into an empty index would put there.
pub open spec fn holds_items(idx: SpatialIndex, items: Seq<(Aabb, u64)>) -> bool {
    &&& idx.wf()
    &&& forall|a: int, b: int| #[trigger] idx.bucket(a, b) == filled(idx.spec_tile_size(), items, a, b)
}

/// Soundness of the broad phase: the id of every item whose box meets the
/// query box is among the query's results.
pub proof fn lemma_query_finds_overlapping(idx: SpatialIndex, items: Seq<(Aabb, u64)>, k: int, q: Aabb)
    requires
        holds_items(idx, items),
        0 <= k < items.len(),
        items[k].0.overlaps(q),
    ensures
        idx.query_ids(q).contains(items[k].1),
{
    let size = idx.spec_tile_size();
    let a = items[k].0;
    let id = items[k].1;
    lemma_overlap_shares_tile(a, q, size);
    let tx = floor_div(if a.min_x >= q.min_x { a.min_x as int } else { q.min_x as int }, size);
    let ty = floor_div(if a.min_y >= q.min_y { a.min_y as int } else { q.min_y as int }, size);
    lemma_filled_contains(size, items, tx, ty, items[k]);
    let bucket = idx.bucket(tx, ty);
    let j = choose|j: int| 0 <= j < bucket.len() && bucket[j] == items[k];
    lemma_hits_contains(bucket, q, id);
    assert(bucket[j].1 == id && bucket[j].0.overlaps(q));
    lemma_block_ids_contains(
        idx,
        q,
        floor_div(q.min_x as int, size),
        floor_div(q.max_x as int, size),
        floor_div(q.min_y as int, size),
        floor_div(q.max_y as int, size),
        id,
    );
}

/// The query returns nothing but overlapping items: every id it gives is the
/// id of an item whose box overlaps the query box, so an id none of whose
/// boxes overlaps the query box never appears.
pub proof fn lemma_query_only_overlapping(idx: SpatialIndex, items: Seq<(Aabb, u64)>, q: Aabb, id: u64)
    requires
        holds_items(idx, items),
        idx.query_ids(q).contains(id),
    ensures
        exists|k: int| 0 <= k < items.len() && #[trigger] items[k].1 == id && items[k].0.overlaps(q),
{
    let size = idx.spec_tile_size();
    lemma_block_ids_contains(
        idx,
        q,
        floor_div(q.min_x as int, size),
        floor_div(q.max_x as int, size),
        floor_div(q.min_y as int, size),
        floor_div(q.max_y as int, size),
        id,
    );
    let (tx, ty) = choose|a: int, b: int|
        floor_div(q.min_x as int, size) <= a <= floor_div(q.max_x as int, size)
            && floor_div(q.min_y as int, size) <= b <= floor_div(q.max_y as int, size)
            && #[trigger] SpatialIndex::hits(idx.bucket(a, b), q).contains(id);
    let bucket = idx.bucket(tx, ty);
    lemma_hits_contains(bucket, q, id);
    let j = choose|j: int| 0 <= j < bucket.len() && #[trigger] bucket[j].1 == id && bucket[j].0.overlaps(q);
    assert(bucket.contains(bucket[j]));
    lemma_filled_contains(size, items, tx, ty, bucket[j]);
    let k = choose|k: int|
        0 <= k < items.len() && #[trigger] items[k] == bucket[j] && bucket[j].0.spans_tile(size, tx, ty);
    assert(items[k].1 == id && items[k].0.overlaps(q));
}

proof fn lemma_same_buckets_same_rows(a: SpatialIndex, b: SpatialIndex, q: Aabb, ty: int, x0: int, x1: int)
    requires
        forall|tx: int, t: int| #[trigger] a.bucket(tx, t) == b.bucket(tx, t),
    ensures
        a.row_ids(q, ty, x0, x1) == b.row_ids(q, ty, x0, x1),
    decreases x1 + 1 - x0,
{
    if x1 >= x0 {
        lemma_same_buckets_same_rows(a, b, q, ty, x0, x1 - 1);
        assert(a.bucket(x1, ty) == b.bucket(x1, ty));
    }
}

proof fn lemma_same_buckets_same_blocks(
    a: SpatialIndex,
    b: SpatialIndex,
    q: Aabb,
    x0: int,
    x1: int,
    y0: int,
    y1: int,
)
    requires
        forall|tx: int, t: int| #[trigger] a.bucket(tx, t) == b.bucket(tx, t),
    ensures
        a.block_ids(q, x0, x1, y0, y1) == b.block_ids(q, x0, x1, y0, y1),
    decreases y1 + 1 - y0,
{
    if y1 >= y0 {
        lemma_same_buckets_same_blocks(a, b, q, x0, x1, y0, y1 - 1);
        lemma_same_buckets_same_rows(a, b, q, y1, x0, x1);
    }
}

/// What an index answers depends only on its tile size and the items it
/// holds: an index rebuilt from any earlier state with `items` answers every
/// query exactly as a fresh index into which `items` were inserted.
pub proof fn lemma_rebuild_matches_fresh(
    rebuilt: SpatialIndex,
    fresh: SpatialIndex,
    items: Seq<(Aabb, u64)>,
    q: Aabb,
)
    requires
        holds_items(rebuilt, items),
        holds_items(fresh, items),
        rebuilt.spec_tile_size() == fresh.spec_tile_size(),
    ensures
        rebuilt.query_ids(q) == fresh.query_ids(q),
{
    let size = rebuilt.spec_tile_size();
    lemma_same_buckets_same_blocks(
        rebuilt,
        fresh,
        q,
        floor_div(q.min_x as int, size),
        floor_div(q.max_x as int, size),
        floor_div(q.min_y as int, size),
        floor_div(q.max_y as int, size),
    );
}

} // verus!
