//! The error map: for every hypotenuse midpoint, the worst interpolation
//! error that leaving the midpoint out of the mesh can cause.
//!
//! Errors are counted in half height units: the error of a triangle with
//! hypotenuse ends of heights `p` and `q` and midpoint height `m` is
//! `|p + q - 2 m|`, twice the distance between `m` and the average of `p` and
//! `q`.

use vstd::prelude::*;
use crate::grid::{
    flat, flat_index, lemma_flat_in_range, lemma_flat_injective, lemma_placed_children,
    lemma_roots_placed, lemma_sites_apart, midpoint_site, root_a, root_b, side_rank, top_rank,
    valid_side, Triangle,
};

verus! {

/// The largest height that the error map accepts, so that the sum of two
/// heights still fits.
pub const MAX_HEIGHT: u64 = 0x7fff_ffff_ffff_ffff;

/// No height exceeds `MAX_HEIGHT`.
pub open spec fn heights_bounded(heights: Seq<u64>) -> bool {
    forall|i: int| 0 <= i < heights.len() ==> #[trigger] heights[i] <= MAX_HEIGHT
}

/// The larger of two numbers.
pub open spec fn larger(x: nat, y: nat) -> nat {
    if x >= y {
        x
    } else {
        y
    }
}

/// The interpolation error at the hypotenuse midpoint of `t`, in half height
/// units.
pub open spec fn local_error(heights: Seq<u64>, n: nat, t: Triangle) -> nat {
    vstd::math::abs(heights[t.ia(n)] + heights[t.ib(n)] - 2 * heights[t.im(n)])
}

/// The error that a triangle of `rank` reports for its hypotenuse midpoint:
/// its own interpolation error and, unless it is of the finest rank that has
/// a midpoint, the errors of the midpoints of its two halves.
pub open spec fn subdivision_error(heights: Seq<u64>, n: nat, t: Triangle, rank: nat) -> nat
    decreases rank, 0nat, 0nat,
{
    if rank <= 1 {
        local_error(heights, n, t)
    } else {
        larger(
            local_error(heights, n, t),
            larger(
                error_upto(heights, n, (rank - 1) as nat, t.left().im(n)),
                error_upto(heights, n, (rank - 1) as nat, t.right().im(n)),
            ),
        )
    }
}

/// The largest error that the triangles `depth` bisections below `t`, which
/// are of `rank`, report for the vertex with flat index `v`; zero where none
/// of them has its hypotenuse midpoint there.
pub open spec fn level_worst(
    heights: Seq<u64>,
    n: nat,
    t: Triangle,
    depth: nat,
    rank: nat,
    v: int,
) -> nat
    decreases rank, 1nat, depth,
{
    if depth == 0 {
        if t.im(n) == v {
            subdivision_error(heights, n, t, rank)
        } else {
            0
        }
    } else {
        larger(
            level_worst(heights, n, t.left(), (depth - 1) as nat, rank, v),
            level_worst(heights, n, t.right(), (depth - 1) as nat, rank, v),
        )
    }
}

/// The error of the vertex with flat index `v` once the triangles of every
/// rank from one up to `rank` have reported.
pub open spec fn error_upto(heights: Seq<u64>, n: nat, rank: nat, v: int) -> nat
    decreases rank, 2nat, 0nat,
{
    if rank == 0 {
        0
    } else {
        let depth = (top_rank(n) - rank) as nat;
        larger(
            error_upto(heights, n, (rank - 1) as nat, v),
            larger(
                level_worst(heights, n, root_a(n), depth, rank, v),
                level_worst(heights, n, root_b(n), depth, rank, v),
            ),
        )
    }
}

/// The error of the vertex with flat index `v` in the finished error map.
pub open spec fn vertex_error(heights: Seq<u64>, n: nat, v: int) -> nat {
    error_upto(heights, n, top_rank(n), v)
}

/// The finished error map of a terrain: one entry for every vertex.
pub open spec fn error_map(heights: Seq<u64>, n: nat) -> Seq<u64> {
    Seq::new(n * n, |v: int| vertex_error(heights, n, v) as u64)
}

/// The entries of `errors` at the midpoint sites of `rank` are the errors of
/// the ranks up to `rank`.
pub open spec fn sites_hold(errors: Seq<u64>, heights: Seq<u64>, n: nat, rank: nat) -> bool {
    forall|x: int, y: int|
        0 <= x < n && 0 <= y < n && #[trigger] midpoint_site(x, y, rank) ==> errors[flat(n, x, y)]
            == error_upto(heights, n, rank, flat(n, x, y))
}

/// The triangles of `rank` below `t` report nothing for a vertex that is no
/// midpoint site of that rank.
pub proof fn lemma_level_worst_off_site(
    heights: Seq<u64>,
    n: nat,
    t: Triangle,
    depth: nat,
    rank: nat,
    x: int,
    y: int,
)
    requires
        t.placed(n, rank + depth),
        rank >= 1,
        0 <= x < n,
        0 <= y < n,
        !midpoint_site(x, y, rank),
    ensures
        level_worst(heights, n, t, depth, rank, flat(n, x, y)) == 0,
    decreases depth,
{
    lemma_placed_children(t, n, rank + depth);
    if depth == 0 {
        if t.im(n) == flat(n, x, y) {
            lemma_flat_injective(n, t.mx(), t.my(), x, y);
        }
    } else {
        lemma_level_worst_off_site(heights, n, t.left(), (depth - 1) as nat, rank, x, y);
        lemma_level_worst_off_site(heights, n, t.right(), (depth - 1) as nat, rank, x, y);
    }
}

/// The biggest of four numbers.
pub fn get_biggest(set: [u64; 4]) -> (biggest: u64)
    ensures
        biggest == larger(
            larger(set[0] as nat, set[1] as nat),
            larger(set[2] as nat, set[3] as nat),
        ),
{
    let mut biggest: u64 = 0;
    let mut i: usize = 0;
    while i < 4
        invariant
            i <= 4,
            forall|j: int| 0 <= j < i ==> set[j] <= biggest,
            biggest == 0 || exists|j: int| 0 <= j < i && set[j] == biggest,
        decreases 4 - i,
    {
        if set[i] > biggest {
            biggest = set[i];
        }
        i = i + 1;
    }
    biggest
}

/// Lets every triangle of `rank` below `t` report its error into `errors`.
fn fold_level(
    terrain: &Vec<u64>,
    errors: &mut Vec<u64>,
    n: u32,
    t: Triangle,
    depth: u32,
    rank: u32,
)
    requires
        t.placed(n as nat, (rank + depth) as nat),
        rank >= 1,
        terrain.len() == n * n,
        old(errors).len() == n * n,
        heights_bounded(terrain@),
        rank >= 2 ==> sites_hold(old(errors)@, terrain@, n as nat, (rank - 1) as nat),
    ensures
        final(errors).len() == n * n,
        forall|v: int|
            0 <= v < n * n ==> final(errors)[v] == larger(
                old(errors)[v] as nat,
                #[trigger] level_worst(terrain@, n as nat, t, depth as nat, rank as nat, v),
            ),
    decreases depth,
{
    proof {
        lemma_placed_children(t, n as nat, (rank + depth) as nat);
    }
    if depth == 0 {
        let (mx, my) = t.midpoint();
        let im = flat_index(n, mx, my);
        let ia = flat_index(n, t.ax, t.ay);
        let ib = flat_index(n, t.bx, t.by);
        let ends: u64 = terrain[ia] + terrain[ib];
        let twice: u64 = 2 * terrain[im];
        let middle_error: u64 = if ends >= twice {
            ends - twice
        } else {
            twice - ends
        };
        let mut left_child_error: u64 = 0;
        let mut right_child_error: u64 = 0;
        if rank >= 2 {
            let (left, right) = t.halves();
            proof {
                lemma_placed_children(left, n as nat, (rank - 1) as nat);
                lemma_placed_children(right, n as nat, (rank - 1) as nat);
            }
            let (lx, ly) = left.midpoint();
            let (rx, ry) = right.midpoint();
            left_child_error = errors[flat_index(n, lx, ly)];
            right_child_error = errors[flat_index(n, rx, ry)];
        }
        let options = [errors[im], middle_error, left_child_error, right_child_error];
        let biggest = get_biggest(options);
        let ghost before = errors@;
        errors.set(im, biggest);
        proof {
            assert(middle_error == local_error(terrain@, n as nat, t));
            assert(biggest == larger(
                before[im as int] as nat,
                subdivision_error(terrain@, n as nat, t, rank as nat),
            ));
            assert forall|v: int| 0 <= v < n * n implies errors[v] == larger(
                before[v] as nat,
                #[trigger] level_worst(terrain@, n as nat, t, 0, rank as nat, v),
            ) by {}
        }
    } else {
        let (left, right) = t.halves();
        let ghost before = errors@;
        fold_level(terrain, errors, n, left, depth - 1, rank);
        proof {
            lemma_level_keeps_sites(terrain@, before, errors@, n as nat, left, (depth - 1) as nat,
                rank as nat);
        }
        let ghost between = errors@;
        fold_level(terrain, errors, n, right, depth - 1, rank);
        proof {
            assert forall|v: int| 0 <= v < n * n implies errors[v] == larger(
                before[v] as nat,
                #[trigger] level_worst(terrain@, n as nat, t, depth as nat, rank as nat, v),
            ) by {
                let lower = (depth - 1) as nat;
                assert(between[v] == larger(
                    before[v] as nat,
                    level_worst(terrain@, n as nat, left, lower, rank as nat, v),
                ));
                assert(errors[v] == larger(
                    between[v] as nat,
                    level_worst(terrain@, n as nat, right, lower, rank as nat, v),
                ));
            }
        }
    }
}

/// Where the triangles of `rank` below `t` have reported into `before`, the
/// entries at the midpoint sites of the rank below are as they were.
proof fn lemma_level_keeps_sites(
    heights: Seq<u64>,
    before: Seq<u64>,
    after: Seq<u64>,
    n: nat,
    t: Triangle,
    depth: nat,
    rank: nat,
)
    requires
        t.placed(n, rank + depth),
        rank >= 1,
        before.len() == n * n,
        after.len() == n * n,
        rank >= 2 ==> sites_hold(before, heights, n, (rank - 1) as nat),
        forall|v: int|
            0 <= v < n * n ==> after[v] == larger(
                before[v] as nat,
                #[trigger] level_worst(heights, n, t, depth, rank, v),
            ),
    ensures
        rank >= 2 ==> sites_hold(after, heights, n, (rank - 1) as nat),
{
    if rank >= 2 {
        assert forall|x: int, y: int|
            0 <= x < n && 0 <= y < n && #[trigger] midpoint_site(
                x,
                y,
                (rank - 1) as nat,
            ) implies after[flat(n, x, y)] == error_upto(
            heights,
            n,
            (rank - 1) as nat,
            flat(n, x, y),
        ) by {
            lemma_flat_in_range(n, x, y);
            if midpoint_site(x, y, rank) {
                lemma_sites_apart(x, y, rank);
            }
            lemma_level_worst_off_site(heights, n, t, depth, rank, x, y);
        }
    }
}

/// Builds the error map of a terrain: for every vertex the error that
/// `vertex_error` gives it.
pub fn generate_error_map(terrain: &Vec<u64>, grid_size: u32, tile_size: u32) -> (errors: Vec<u64>)
    requires
        valid_side(grid_size as nat),
        tile_size == grid_size - 1,
        terrain.len() == grid_size * grid_size,
        heights_bounded(terrain@),
    ensures
        errors@ == error_map(terrain@, grid_size as nat),
        errors.len() == terrain.len(),
        forall|v: int|
            0 <= v < errors.len() ==> errors[v] == #[trigger] vertex_error(
                terrain@,
                grid_size as nat,
                v,
            ),
{
    let mut errors: Vec<u64> = vec![0u64; terrain.len()];
    let top: u32 = match side_rank(grid_size) {
        Some(top) => top,
        None => 0,
    };
    proof {
        lemma_roots_placed(grid_size as nat);
    }
    let mut rank: u32 = 1;
    while rank <= top
        invariant
            1 <= rank <= top + 1,
            top == top_rank(grid_size as nat),
            top <= 62,
            tile_size == grid_size - 1,
            valid_side(grid_size as nat),
            root_a(grid_size as nat).placed(grid_size as nat, top as nat),
            root_b(grid_size as nat).placed(grid_size as nat, top as nat),
            terrain.len() == grid_size * grid_size,
            errors.len() == grid_size * grid_size,
            heights_bounded(terrain@),
            forall|v: int|
                0 <= v < errors.len() ==> errors[v] == #[trigger] error_upto(
                    terrain@,
                    grid_size as nat,
                    (rank - 1) as nat,
                    v,
                ),
        decreases top + 1 - rank,
    {
        let ghost below = errors@;
        proof {
            assert(rank >= 2 ==> sites_hold(below, terrain@, grid_size as nat, (rank - 1) as nat))
                by {
                if rank >= 2 {
                    assert forall|x: int, y: int|
                        0 <= x < grid_size && 0 <= y < grid_size && #[trigger] midpoint_site(
                            x,
                            y,
                            (rank - 1) as nat,
                        ) implies below[flat(grid_size as nat, x, y)] == error_upto(
                        terrain@,
                        grid_size as nat,
                        (rank - 1) as nat,
                        flat(grid_size as nat, x, y),
                    ) by {
                        lemma_flat_in_range(grid_size as nat, x, y);
                    }
                }
            }
        }
        let depth: u32 = top - rank;
        fold_level(terrain, &mut errors, grid_size, Triangle::first_root(grid_size), depth, rank);
        let ghost between = errors@;
        proof {
            lemma_level_keeps_sites(terrain@, below, between, grid_size as nat,
                root_a(grid_size as nat), depth as nat, rank as nat);
        }
        fold_level(terrain, &mut errors, grid_size, Triangle::second_root(grid_size), depth, rank);
        proof {
            assert forall|v: int| 0 <= v < errors.len() implies errors[v] == #[trigger] error_upto(
                terrain@,
                grid_size as nat,
                rank as nat,
                v,
            ) by {
                let side = grid_size as nat;
                assert(depth as nat == (top_rank(side) - rank) as nat);
                assert(below[v] == error_upto(terrain@, side, (rank - 1) as nat, v));
                assert(between[v] == larger(
                    below[v] as nat,
                    level_worst(terrain@, side, root_a(side), depth as nat, rank as nat, v),
                ));
                assert(errors[v] == larger(
                    between[v] as nat,
                    level_worst(terrain@, side, root_b(side), depth as nat, rank as nat, v),
                ));
            }
        }
        rank = rank + 1;
    }
    proof {
        assert forall|v: int| 0 <= v < errors.len() implies errors[v] == #[trigger] vertex_error(
            terrain@,
            grid_size as nat,
            v,
        ) by {
            assert(errors[v] == error_upto(terrain@, grid_size as nat, (rank - 1) as nat, v));
        }
        assert(errors@ =~= error_map(terrain@, grid_size as nat));
    }
    errors
}

/// Where no triangle of the tree has an interpolation error above `bound`,
/// no error of any rank is above it.
pub proof fn lemma_error_ceiling(heights: Seq<u64>, n: nat, rank: nat, bound: nat)
    requires
        valid_side(n),
        n <= u32::MAX,
        rank <= top_rank(n),
        forall|t: Triangle, r: nat|
            r >= 1 && #[trigger] t.placed(n, r) ==> local_error(heights, n, t) <= bound,
    ensures
        forall|v: int| #[trigger] error_upto(heights, n, rank, v) <= bound,
    decreases rank,
{
    if rank >= 1 {
        lemma_error_ceiling(heights, n, (rank - 1) as nat, bound);
        lemma_roots_placed(n);
        let depth = (top_rank(n) - rank) as nat;
        assert forall|v: int| #[trigger] error_upto(heights, n, rank, v) <= bound by {
            lemma_level_ceiling(heights, n, root_a(n), depth, rank, v, bound);
            lemma_level_ceiling(heights, n, root_b(n), depth, rank, v, bound);
            assert(error_upto(heights, n, (rank - 1) as nat, v) <= bound);
            assert(error_upto(heights, n, rank, v) == larger(
                error_upto(heights, n, (rank - 1) as nat, v),
                larger(
                    level_worst(heights, n, root_a(n), depth, rank, v),
                    level_worst(heights, n, root_b(n), depth, rank, v),
                ),
            ));
        }
    }
}

/// The step of `lemma_error_ceiling` for the triangles of one rank.
proof fn lemma_level_ceiling(
    heights: Seq<u64>,
    n: nat,
    t: Triangle,
    depth: nat,
    rank: nat,
    v: int,
    bound: nat,
)
    requires
        t.placed(n, rank + depth),
        rank >= 1,
        forall|t: Triangle, r: nat|
            r >= 1 && #[trigger] t.placed(n, r) ==> local_error(heights, n, t) <= bound,
        forall|w: int| #[trigger] error_upto(heights, n, (rank - 1) as nat, w) <= bound,
    ensures
        level_worst(heights, n, t, depth, rank, v) <= bound,
    decreases depth,
{
    if depth >= 1 {
        lemma_placed_children(t, n, rank + depth);
        lemma_level_ceiling(heights, n, t.left(), (depth - 1) as nat, rank, v, bound);
        lemma_level_ceiling(heights, n, t.right(), (depth - 1) as nat, rank, v, bound);
    } else {
        assert(t.placed(n, rank));
        assert(local_error(heights, n, t) <= bound);
        assert(error_upto(heights, n, (rank - 1) as nat, t.left().im(n)) <= bound);
        assert(error_upto(heights, n, (rank - 1) as nat, t.right().im(n)) <= bound);
        assert(subdivision_error(heights, n, t, rank) <= bound);
    }
}

/// The interpolation error of a triangle of the tree is at most twice the
/// largest height.
pub proof fn lemma_local_error_bounded(heights: Seq<u64>, n: nat, t: Triangle, rank: nat)
    requires
        t.placed(n, rank),
        rank >= 1,
        heights.len() == n * n,
        heights_bounded(heights),
    ensures
        local_error(heights, n, t) <= 2 * MAX_HEIGHT,
{
    lemma_placed_children(t, n, rank);
    lemma_flat_in_range(n, t.ax as int, t.ay as int);
    lemma_flat_in_range(n, t.bx as int, t.by as int);
    lemma_flat_in_range(n, t.mx(), t.my());
}

/// Every entry of the error map is the error of its vertex, and none is
/// above twice the largest height.
pub proof fn lemma_error_map_entries(heights: Seq<u64>, n: nat)
    requires
        valid_side(n),
        n <= u32::MAX,
        heights.len() == n * n,
        heights_bounded(heights),
    ensures
        error_map(heights, n).len() == n * n,
        forall|v: int|
            0 <= v < n * n ==> #[trigger] error_map(heights, n)[v] == vertex_error(heights, n, v),
        forall|v: int| #[trigger] vertex_error(heights, n, v) <= 2 * MAX_HEIGHT,
{
    assert forall|t: Triangle, r: nat| r >= 1 && #[trigger] t.placed(n, r) implies local_error(
        heights,
        n,
        t,
    ) <= 2 * MAX_HEIGHT by {
        lemma_local_error_bounded(heights, n, t, r);
    }
    lemma_error_ceiling(heights, n, top_rank(n), (2 * MAX_HEIGHT) as nat);
    assert forall|v: int| #[trigger] vertex_error(heights, n, v) <= 2 * MAX_HEIGHT by {
        assert(error_upto(heights, n, top_rank(n), v) <= 2 * MAX_HEIGHT);
    }
}

/// An error never shrinks when further ranks report.
pub proof fn lemma_error_grows(heights: Seq<u64>, n: nat, low: nat, high: nat, v: int)
    requires
        low <= high,
    ensures
        error_upto(heights, n, low, v) <= error_upto(heights, n, high, v),
    decreases high,
{
    if low < high {
        lemma_error_grows(heights, n, low, (high - 1) as nat, v);
    }
}

/// On a terrain whose heights are all the same, every error is zero.
pub proof fn law_flat_errors(heights: Seq<u64>, n: nat, height: u64)
    requires
        valid_side(n),
        n <= u32::MAX,
        heights.len() == n * n,
        forall|i: int| 0 <= i < heights.len() ==> heights[i] == height,
    ensures
        forall|v: int| #[trigger] vertex_error(heights, n, v) == 0,
        error_map(heights, n) == Seq::new(n * n, |v: int| 0u64),
{
    assert forall|t: Triangle, r: nat| r >= 1 && #[trigger] t.placed(n, r) implies local_error(
        heights,
        n,
        t,
    ) <= 0 by {
        lemma_placed_children(t, n, r);
        lemma_flat_in_range(n, t.ax as int, t.ay as int);
        lemma_flat_in_range(n, t.bx as int, t.by as int);
        lemma_flat_in_range(n, t.mx(), t.my());
    }
    lemma_error_ceiling(heights, n, top_rank(n), 0);
    assert forall|v: int| #[trigger] vertex_error(heights, n, v) == 0 by {
        assert(error_upto(heights, n, top_rank(n), v) <= 0);
    }
    assert(error_map(heights, n) =~= Seq::new(n * n, |v: int| 0u64));
}

} // verus!
