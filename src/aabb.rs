//! Axis-aligned boxes in integer world coordinates and their tiles.

use vstd::prelude::*;
use vstd::arithmetic::div_mod::{
    lemma_div_is_ordered,
    lemma_fundamental_div_mod,
    lemma_fundamental_div_mod_converse,
    lemma_mod_pos_bound,
};

verus! {

/// The tile of the uniform grid that holds world coordinate `x`, for tiles of
/// `size` world units: `floor(x / size)`. Division in specifications is
/// Euclidean, which is flooring for a positive divisor.
pub open spec fn floor_div(x: int, size: int) -> int {
    x / size
}

/// Tile coordinate of a world coordinate: floor division, so that negative
/// coordinates fall in the tile below zero rather than being rounded toward it.
pub fn tile_coord(x: i32, size: u32) -> (r: i32)
    requires
        size > 0,
    ensures
        r as int == floor_div(x as int, size as int),
{
    let s = size as u64;
    if x >= 0 {
        let q = (x as u64) / s;
        proof {
            let xi = x as int;
            let si = s as int;
            lemma_fundamental_div_mod(xi, si);
            lemma_mod_pos_bound(xi, si);
            assert(xi / si <= xi) by (nonlinear_arith)
                requires
                    xi == si * (xi / si) + xi % si,
                    0 <= xi % si,
                    si >= 1,
                    xi >= 0,
            ;
        }
        q as i32
    } else {
        let n: u64 = (-(x as i64)) as u64;
        let q: u64 = (n + s - 1) / s;
        proof {
            let ni = n as int;
            let si = s as int;
            let m = ni + si - 1;
            lemma_fundamental_div_mod(m, si);
            lemma_mod_pos_bound(m, si);
            assert(q as int == m / si);
            // q * s lies in [n, n + s - 1], so -q is the floor of -n / s.
            let r = -ni + (q as int) * si;
            assert(0 <= r < si) by (nonlinear_arith)
                requires
                    m == si * (q as int) + m % si,
                    0 <= m % si < si,
                    m == ni + si - 1,
                    r == -ni + (q as int) * si,
            ;
            assert(-ni == -(q as int) * si + r) by (nonlinear_arith)
                requires
                    r == -ni + (q as int) * si,
            ;
            lemma_fundamental_div_mod_converse(-ni, si, -(q as int), r);
            assert(q as int <= ni) by (nonlinear_arith)
                requires
                    m == si * (q as int) + m % si,
                    0 <= m % si,
                    m == ni + si - 1,
                    si >= 1,
                    ni >= 1,
            ;
        }
        -(q as i64) as i32
    }
}

/// A closed axis-aligned box `[min_x, max_x] x [min_y, max_y]` in integer
/// world coordinates. A box whose minimum exceeds its maximum on an axis holds
/// no point.
#[derive(Clone, Copy, Debug, PartialEq, Eq)]
pub struct Aabb {
    pub min_x: i32,
    pub min_y: i32,
    pub max_x: i32,
    pub max_y: i32,
}

impl Aabb {
    /// The box holds at least one point.
    pub open spec fn is_nonempty(self) -> bool {
        self.min_x <= self.max_x && self.min_y <= self.max_y
    }

    /// The two boxes share at least one point.
    pub open spec fn overlaps(self, other: Aabb) -> bool {
        &&& self.is_nonempty()
        &&& other.is_nonempty()
        &&& self.min_x <= other.max_x
        &&& other.min_x <= self.max_x
        &&& self.min_y <= other.max_y
        &&& other.min_y <= self.max_y
    }

    /// Tile `(tx, ty)` lies in the block of tiles that the box spans.
    pub open spec fn spans_tile(self, size: int, tx: int, ty: int) -> bool {
        &&& floor_div(self.min_x as int, size) <= tx <= floor_div(self.max_x as int, size)
        &&& floor_div(self.min_y as int, size) <= ty <= floor_div(self.max_y as int, size)
    }

    /// The box centred on `(cx, cy)` that reaches `radius` in each direction.
    pub fn from_circle(cx: i32, cy: i32, radius: i32) -> (r: Aabb)
        requires
            radius >= 0,
            i32::MIN <= cx - radius,
            cx + radius <= i32::MAX,
            i32::MIN <= cy - radius,
            cy + radius <= i32::MAX,
        ensures
            r.min_x == cx - radius,
            r.max_x == cx + radius,
            r.min_y == cy - radius,
            r.max_y == cy + radius,
    {
        Aabb { min_x: cx - radius, min_y: cy - radius, max_x: cx + radius, max_y: cy + radius }
    }

    /// Whether the two boxes share a point.
    pub fn intersects(&self, other: &Aabb) -> (r: bool)
        ensures
            r == self.overlaps(*other),
    {
        self.min_x <= self.max_x && other.min_x <= other.max_x && self.min_y <= self.max_y
            && other.min_y <= other.max_y && self.min_x <= other.max_x && other.min_x
            <= self.max_x && self.min_y <= other.max_y && other.min_y <= self.max_y
    }
}

/// Overlapping boxes share a tile of every grid: the tile of the corner where
/// their intersection starts lies in the block of each.
pub proof fn lemma_overlap_shares_tile(a: Aabb, b: Aabb, size: int)
    requires
        size > 0,
        a.overlaps(b),
    ensures
        ({
            let tx = floor_div(if a.min_x >= b.min_x { a.min_x as int } else { b.min_x as int }, size);
            let ty = floor_div(if a.min_y >= b.min_y { a.min_y as int } else { b.min_y as int }, size);
            a.spans_tile(size, tx, ty) && b.spans_tile(size, tx, ty)
        }),
{
    let x = if a.min_x >= b.min_x { a.min_x as int } else { b.min_x as int };
    let y = if a.min_y >= b.min_y { a.min_y as int } else { b.min_y as int };
    lemma_div_is_ordered(a.min_x as int, x, size);
    lemma_div_is_ordered(b.min_x as int, x, size);
    lemma_div_is_ordered(x, a.max_x as int, size);
    lemma_div_is_ordered(x, b.max_x as int, size);
    lemma_div_is_ordered(a.min_y as int, y, size);
    lemma_div_is_ordered(b.min_y as int, y, size);
    lemma_div_is_ordered(y, a.max_y as int, size);
    lemma_div_is_ordered(y, b.max_y as int, size);
}

} // verus!
