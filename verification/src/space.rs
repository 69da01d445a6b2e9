//! Spatial helpers: iteration over integer boxes, face adjacency, border
//! offsets, and row-major index conversions for the chunk grid.

use vstd::prelude::*;

use crate::math::{Int3, USize3};

verus! {

/// Bound on the coordinates this module works with. Every position that the
/// chunk grid can produce is far below it, and it keeps all the integer
/// arithmetic here free of overflow.
pub const POS_LIMIT: i32 = 16777216;

pub open spec fn pos_bounded(p: Int3) -> bool {
    -POS_LIMIT <= p.x <= POS_LIMIT && -POS_LIMIT <= p.y <= POS_LIMIT && -POS_LIMIT <= p.z
        <= POS_LIMIT
}

/// The six face offsets, in the fixed order `+X, -X, +Y, -Y, +Z, -Z`.
pub open spec fn adj_offsets() -> Seq<Int3> {
    seq![
        Int3 { x: 1i32, y: 0i32, z: 0i32 },
        Int3 { x: -1i32, y: 0i32, z: 0i32 },
        Int3 { x: 0i32, y: 1i32, z: 0i32 },
        Int3 { x: 0i32, y: -1i32, z: 0i32 },
        Int3 { x: 0i32, y: 0i32, z: 1i32 },
        Int3 { x: 0i32, y: 0i32, z: -1i32 },
    ]
}

/// The six face-adjacent positions of `p`, in offset order.
pub open spec fn adj_positions_spec(p: Int3) -> Seq<Int3> {
    Seq::new(6, |i: int| shifted(p, adj_offsets()[i]))
}

pub open spec fn shifted(p: Int3, o: Int3) -> Int3 {
    Int3 { x: (p.x + o.x) as i32, y: (p.y + o.y) as i32, z: (p.z + o.z) as i32 }
}

/// Yields the six face-adjacent positions of `pos`, in the fixed order
/// `+X, -X, +Y, -Y, +Z, -Z`.
pub fn adj_iter(pos: Int3) -> (r: Vec<Int3>)
    requires
        pos_bounded(pos),
    ensures
        r@ == adj_positions_spec(pos),
{
    let mut r: Vec<Int3> = Vec::new();
    r.push(Int3 { x: pos.x + 1, y: pos.y, z: pos.z });
    r.push(Int3 { x: pos.x - 1, y: pos.y, z: pos.z });
    r.push(Int3 { x: pos.x, y: pos.y + 1, z: pos.z });
    r.push(Int3 { x: pos.x, y: pos.y - 1, z: pos.z });
    r.push(Int3 { x: pos.x, y: pos.y, z: pos.z + 1 });
    r.push(Int3 { x: pos.x, y: pos.y, z: pos.z - 1 });
    proof {
        assert(r@ =~= adj_positions_spec(pos));
    }
    r
}

/// Face adjacency is symmetric: whenever `q` is listed among the neighbors
/// of `p`, `p` is listed among the neighbors of `q`.
pub proof fn lemma_adjacency_symmetry(p: Int3, q: Int3)
    requires
        pos_bounded(p),
        pos_bounded(q),
        adj_positions_spec(p).contains(q),
    ensures
        adj_positions_spec(q).contains(p),
{
    let i = choose|i: int| 0 <= i < 6 && adj_positions_spec(p)[i] == q;
    let j = if i % 2 == 0 {
        i + 1
    } else {
        i - 1
    };
    assert(adj_positions_spec(q)[j] == p);
}

/// The positions of the integer box `[from, to)` in lexicographic order over
/// `(x, y, z)` with `z` varying fastest; empty when any extent is empty.
pub open spec fn space_positions_spec(from: Int3, to: Int3) -> Seq<Int3> {
    let ex = if from.x <= to.x { to.x - from.x } else { 0 };
    let ey = if from.y <= to.y { to.y - from.y } else { 0 };
    let ez = if from.z <= to.z { to.z - from.z } else { 0 };
    Seq::new(
        (ex * ey * ez) as nat,
        |i: int|
            Int3 {
                x: (from.x + i / (ey * ez)) as i32,
                y: (from.y + (i / ez) % ey) as i32,
                z: (from.z + i % ez) as i32,
            },
    )
}

/// Iterates the integer box `[from, to)` in lexicographic order over
/// `(x, y, z)`, `z` fastest.
pub fn space_iter(from: Int3, to: Int3) -> (r: Vec<Int3>)
    requires
        pos_bounded(from),
        pos_bounded(to),
        from.x <= to.x && from.y <= to.y && from.z <= to.z,
        (to.x - from.x) * (to.y - from.y) * (to.z - from.z) <= 100_000_000,
    ensures
        r@ == space_positions_spec(from, to),
{
    let ex: usize = (to.x - from.x) as usize;
    let ey: usize = (to.y - from.y) as usize;
    let ez: usize = (to.z - from.z) as usize;
    let ghost eyz: int = ey as int * ez as int;
    proof {
        lemma_extent_products(ex as int, ey as int, ez as int);
    }
    let mut r: Vec<Int3> = Vec::new();
    let mut xi: usize = 0;
    while xi < ex
        invariant
            pos_bounded(from),
            pos_bounded(to),
            ex == to.x - from.x && ey == to.y - from.y && ez == to.z - from.z,
            eyz == ey * ez,
            xi <= ex,
            ex * eyz <= 100_000_000,
            r@.len() == xi * eyz,
            forall|i: int|
                0 <= i < r@.len() ==> r@[i] == space_positions_spec(from, to)[i],
        decreases ex - xi,
    {
        let mut yi: usize = 0;
        while yi < ey
            invariant
                pos_bounded(from),
                pos_bounded(to),
                ex == to.x - from.x && ey == to.y - from.y && ez == to.z - from.z,
                eyz == ey * ez,
                xi < ex,
                yi <= ey,
                ex * eyz <= 100_000_000,
                r@.len() == xi * eyz + yi * ez,
                forall|i: int|
                    0 <= i < r@.len() ==> r@[i] == space_positions_spec(from, to)[i],
            decreases ey - yi,
        {
            let mut zi: usize = 0;
            while zi < ez
                invariant
                    pos_bounded(from),
                    pos_bounded(to),
                    ex == to.x - from.x && ey == to.y - from.y && ez == to.z - from.z,
                    eyz == ey * ez,
                    xi < ex,
                    yi < ey,
                    zi <= ez,
                    ex * eyz <= 100_000_000,
                    r@.len() == xi * eyz + yi * ez + zi,
                    forall|i: int|
                        0 <= i < r@.len() ==> r@[i] == space_positions_spec(from, to)[i],
                decreases ez - zi,
            {
                let p = Int3 {
                    x: from.x + xi as i32,
                    y: from.y + yi as i32,
                    z: from.z + zi as i32,
                };
                proof {
                    lemma_space_index(
                        ex as int,
                        ey as int,
                        ez as int,
                        xi as int,
                        yi as int,
                        zi as int,
                    );
                }
                r.push(p);
                proof {
                    let gi: int = xi * eyz + yi as int * ez as int + zi as int;
                    assert((ex as int) * eyz == (ex as int * ey as int) * ez as int)
                        by (nonlinear_arith)
                        requires eyz == ey as int * ez as int;
                    assert(space_positions_spec(from, to).len() == (ex as int * ey as int) * ez
                        as int);
                    assert(space_positions_spec(from, to)[gi] == p);
                }
                zi += 1;
            }
            proof {
                assert((yi + 1) * ez == yi * ez + ez) by (nonlinear_arith);
            }
            yi += 1;
        }
        proof {
            assert((yi * ez) as int == eyz);
            assert(xi * eyz + eyz == (xi + 1) * eyz) by (nonlinear_arith);
        }
        xi += 1;
    }
    proof {
        assert(r@.len() == ex * eyz);
        assert(space_positions_spec(from, to).len() == ex * eyz) by {
            assert(ex as int * (ey as int * ez as int) == (ex as int * ey as int) * ez as int)
                by (nonlinear_arith);
        }
        assert(r@ =~= space_positions_spec(from, to));
    }
    r
}

/// Bounds on the partial products of the three extents.
proof fn lemma_extent_products(ex: int, ey: int, ez: int)
    requires
        0 <= ex,
        0 <= ey,
        0 <= ez,
        ex * ey * ez <= 100_000_000,
    ensures
        ex * (ey * ez) <= 100_000_000,
        (ex > 0 && ey > 0 && ez > 0) ==> ey * ez <= 100_000_000,
{
    assert(ex * (ey * ez) == ex * ey * ez) by (nonlinear_arith);
    if ex > 0 && ey > 0 && ez > 0 {
        assert(ey * ez <= ex * ey * ez) by (nonlinear_arith)
            requires 0 < ex && 0 <= ey && 0 <= ez;
    }
}

/// The linear position of `(xi, yi, zi)` in the box and the decomposition of
/// that index back into coordinates.
proof fn lemma_space_index(ex: int, ey: int, ez: int, xi: int, yi: int, zi: int)
    requires
        0 <= xi < ex,
        0 <= yi < ey,
        0 <= zi < ez,
    ensures
        xi * (ey * ez) + yi * ez + zi < ex * (ey * ez),
        (xi * (ey * ez) + yi * ez + zi) / (ey * ez) == xi,
        ((xi * (ey * ez) + yi * ez + zi) / ez) % ey == yi,
        (xi * (ey * ez) + yi * ez + zi) % ez == zi,
{
    let i = xi * (ey * ez) + yi * ez + zi;
    assert(0 <= yi * ez + zi < ey * ez) by (nonlinear_arith)
        requires 0 <= yi < ey && 0 <= zi < ez;
    assert(i < ex * (ey * ez)) by (nonlinear_arith)
        requires 0 <= xi < ex && 0 <= yi * ez + zi < ey * ez && i == xi * (ey * ez) + yi * ez + zi;
    assert(i / (ey * ez) == xi) by (nonlinear_arith)
        requires 0 < ey * ez && 0 <= yi * ez + zi < ey * ez && i == xi * (ey * ez) + yi * ez + zi;
    assert(i / ez == xi * ey + yi && i % ez == zi) by (nonlinear_arith)
        requires 0 < ez && 0 <= zi < ez && i == xi * (ey * ez) + yi * ez + zi;
    assert((xi * ey + yi) % ey == yi) by (nonlinear_arith)
        requires 0 <= yi < ey;
}

/// The unit offsets into neighboring chunks that a local voxel touches: one
/// per axis where it sits on the lower or upper border of `[lo, hi)`.
pub open spec fn border_offsets_spec(local: Int3, lo: Int3, hi: Int3) -> Seq<Int3> {
    let sx: Seq<Int3> = if local.x == lo.x {
        seq![Int3 { x: -1i32, y: 0i32, z: 0i32 }]
    } else if local.x == hi.x - 1 {
        seq![Int3 { x: 1i32, y: 0i32, z: 0i32 }]
    } else {
        seq![]
    };
    let sy: Seq<Int3> = if local.y == lo.y {
        seq![Int3 { x: 0i32, y: -1i32, z: 0i32 }]
    } else if local.y == hi.y - 1 {
        seq![Int3 { x: 0i32, y: 1i32, z: 0i32 }]
    } else {
        seq![]
    };
    let sz: Seq<Int3> = if local.z == lo.z {
        seq![Int3 { x: 0i32, y: 0i32, z: -1i32 }]
    } else if local.z == hi.z - 1 {
        seq![Int3 { x: 0i32, y: 0i32, z: 1i32 }]
    } else {
        seq![]
    };
    sx + sy + sz
}

/// Yields the unit offsets into neighboring chunks touched by the local
/// voxel `local` of the box `[lo, hi)`: 0 to 3 offsets, axis by axis.
pub fn offsets_from_border(local: Int3, lo: Int3, hi: Int3) -> (r: Vec<Int3>)
    requires
        pos_bounded(lo),
        pos_bounded(hi),
        lo.x < hi.x && lo.y < hi.y && lo.z < hi.z,
    ensures
        r@ == border_offsets_spec(local, lo, hi),
{
    let mut r: Vec<Int3> = Vec::new();
    if local.x == lo.x {
        r.push(Int3 { x: -1, y: 0, z: 0 });
    } else if local.x == hi.x - 1 {
        r.push(Int3 { x: 1, y: 0, z: 0 });
    }
    if local.y == lo.y {
        r.push(Int3 { x: 0, y: -1, z: 0 });
    } else if local.y == hi.y - 1 {
        r.push(Int3 { x: 0, y: 1, z: 0 });
    }
    if local.z == lo.z {
        r.push(Int3 { x: 0, y: 0, z: -1 });
    } else if local.z == hi.z - 1 {
        r.push(Int3 { x: 0, y: 0, z: 1 });
    }
    proof {
        assert(r@ =~= border_offsets_spec(local, lo, hi));
    }
    r
}

/// Row-major linear index of the 3-dimensional grid index `c` in a grid of
/// dimensions `sizes`: `x` slowest, `z` fastest.
pub open spec fn coord_idx_to_idx_spec(sizes: USize3, c: USize3) -> int {
    c.x * (sizes.y * sizes.z) + c.y * sizes.z + c.z
}

/// The 3-dimensional grid index behind the row-major linear index `idx`.
pub open spec fn idx_to_coord_idx_spec(idx: int, sizes: USize3) -> USize3 {
    USize3 {
        x: (idx / (sizes.y * sizes.z) as int) as usize,
        y: ((idx / sizes.z as int) % sizes.y as int) as usize,
        z: (idx % sizes.z as int) as usize,
    }
}

} // verus!
