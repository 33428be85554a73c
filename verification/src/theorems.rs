//! What holds of the error map and the mesh together.

use vstd::prelude::*;
use crate::error_map::{
    error_map, error_upto, heights_bounded, larger, law_flat_errors, lemma_error_grows,
    lemma_error_map_entries, lemma_level_worst_off_site, level_worst, local_error,
    subdivision_error, vertex_error,
};
use crate::extract::{emitted, extracted, lemma_centre_tolerated, root_mesh};
use crate::grid::{
    flat, leaves, leg, lemma_flat_in_range, lemma_leaves_square, lemma_placed_children,
    lemma_roots_placed, lemma_sites_unique, midpoint_site, root_a, root_b, top_rank,
    valid_side, Triangle,
};

verus! {

/// `t` is reached from `ancestor` by `depth` bisections.
pub open spec fn descends(ancestor: Triangle, depth: nat, t: Triangle) -> bool
    decreases depth,
{
    if depth == 0 {
        t == ancestor
    } else {
        descends(ancestor.left(), (depth - 1) as nat, t) || descends(
            ancestor.right(),
            (depth - 1) as nat,
            t,
        )
    }
}

/// The halves of a descendant are descendants, one bisection further down.
pub proof fn lemma_descends_step(ancestor: Triangle, depth: nat, t: Triangle)
    requires
        descends(ancestor, depth, t),
    ensures
        descends(ancestor, depth + 1, t.left()),
        descends(ancestor, depth + 1, t.right()),
    decreases depth,
{
    if depth == 0 {
        assert(descends(ancestor.left(), 0, t.left()));
        assert(descends(ancestor.right(), 0, t.right()));
    } else {
        if descends(ancestor.left(), (depth - 1) as nat, t) {
            lemma_descends_step(ancestor.left(), (depth - 1) as nat, t);
        } else {
            lemma_descends_step(ancestor.right(), (depth - 1) as nat, t);
        }
    }
}

/// What a triangle reports for its midpoint is counted among the reports of
/// its rank.
pub proof fn lemma_level_reports(
    heights: Seq<u64>,
    n: nat,
    ancestor: Triangle,
    depth: nat,
    rank: nat,
    t: Triangle,
)
    requires
        descends(ancestor, depth, t),
    ensures
        level_worst(heights, n, ancestor, depth, rank, t.im(n)) >= subdivision_error(
            heights,
            n,
            t,
            rank,
        ),
    decreases depth,
{
    if depth >= 1 {
        if descends(ancestor.left(), (depth - 1) as nat, t) {
            lemma_level_reports(heights, n, ancestor.left(), (depth - 1) as nat, rank, t);
        } else {
            lemma_level_reports(heights, n, ancestor.right(), (depth - 1) as nat, rank, t);
        }
    }
}

/// A vertex that is no midpoint site of any rank up to `rank` has no error
/// when those ranks have reported.
pub proof fn lemma_error_zero_off_sites(heights: Seq<u64>, n: nat, rank: nat, x: int, y: int)
    requires
        valid_side(n),
        n <= u32::MAX,
        rank <= top_rank(n),
        0 <= x < n,
        0 <= y < n,
        forall|r: nat| 1 <= r <= rank ==> !#[trigger] midpoint_site(x, y, r),
    ensures
        error_upto(heights, n, rank, flat(n, x, y)) == 0,
    decreases rank,
{
    if rank >= 1 {
        lemma_error_zero_off_sites(heights, n, (rank - 1) as nat, x, y);
        lemma_roots_placed(n);
        let depth = (top_rank(n) - rank) as nat;
        assert(!midpoint_site(x, y, rank));
        lemma_level_worst_off_site(heights, n, root_a(n), depth, rank, x, y);
        lemma_level_worst_off_site(heights, n, root_b(n), depth, rank, x, y);
    }
}

/// The error of a midpoint site of `rank` is zero before its rank reports,
/// and stays what it is once its rank has reported.
pub proof fn lemma_error_settles(
    heights: Seq<u64>,
    n: nat,
    rank: nat,
    later: nat,
    x: int,
    y: int,
)
    requires
        valid_side(n),
        n <= u32::MAX,
        1 <= rank <= later <= top_rank(n),
        0 <= x < n,
        0 <= y < n,
        midpoint_site(x, y, rank),
    ensures
        error_upto(heights, n, (rank - 1) as nat, flat(n, x, y)) == 0,
        error_upto(heights, n, later, flat(n, x, y)) == error_upto(
            heights,
            n,
            rank,
            flat(n, x, y),
        ),
    decreases later,
{
    if later > rank {
        lemma_error_settles(heights, n, rank, (later - 1) as nat, x, y);
        lemma_roots_placed(n);
        let depth = (top_rank(n) - later) as nat;
        lemma_sites_unique(x, y, rank, later);
        lemma_level_worst_off_site(heights, n, root_a(n), depth, later, x, y);
        lemma_level_worst_off_site(heights, n, root_b(n), depth, later, x, y);
    } else {
        assert forall|r: nat| 1 <= r <= rank - 1 implies !#[trigger] midpoint_site(x, y, r) by {
            if midpoint_site(x, y, r) {
                lemma_sites_unique(x, y, r, rank);
            }
        }
        lemma_error_zero_off_sites(heights, n, (rank - 1) as nat, x, y);
    }
}

/// The error of a vertex that is the hypotenuse midpoint of no triangle of
/// the tree is zero.
pub proof fn law_error_off_midpoints(heights: Seq<u64>, n: nat, x: int, y: int)
    requires
        valid_side(n),
        n <= u32::MAX,
        0 <= x < n,
        0 <= y < n,
        forall|r: nat| 1 <= r <= top_rank(n) ==> !#[trigger] midpoint_site(x, y, r),
    ensures
        vertex_error(heights, n, flat(n, x, y)) == 0,
{
    lemma_error_zero_off_sites(heights, n, top_rank(n), x, y);
}

/// The error of the hypotenuse midpoint of a triangle of the tree is the
/// largest of what the triangles with that midpoint make of it, and what a
/// triangle makes of it is the largest of its own interpolation error and,
/// where its halves can be bisected, the errors of their midpoints.
pub proof fn law_error_of_midpoint(heights: Seq<u64>, n: nat, t: Triangle, rank: nat)
    requires
        valid_side(n),
        n <= u32::MAX,
        1 <= rank <= top_rank(n),
        t.placed(n, rank),
    ensures
        vertex_error(heights, n, t.im(n)) == larger(
            level_worst(heights, n, root_a(n), (top_rank(n) - rank) as nat, rank, t.im(n)),
            level_worst(heights, n, root_b(n), (top_rank(n) - rank) as nat, rank, t.im(n)),
        ),
        rank == 1 ==> subdivision_error(heights, n, t, rank) == local_error(heights, n, t),
        rank >= 2 ==> subdivision_error(heights, n, t, rank) == larger(
            local_error(heights, n, t),
            larger(
                vertex_error(heights, n, t.left().im(n)),
                vertex_error(heights, n, t.right().im(n)),
            ),
        ),
{
    lemma_placed_children(t, n, rank);
    lemma_error_settles(heights, n, rank, top_rank(n), t.mx(), t.my());
    if rank >= 2 {
        let lower = (rank - 1) as nat;
        let left = t.left();
        let right = t.right();
        lemma_placed_children(left, n, lower);
        lemma_placed_children(right, n, lower);
        lemma_error_settles(heights, n, lower, top_rank(n), left.mx(), left.my());
        lemma_error_settles(heights, n, lower, top_rank(n), right.mx(), right.my());
    }
}

/// The error of the hypotenuse midpoint of a triangle that descends from a
/// root is at least the interpolation error of the triangle and at least
/// the errors of the midpoints of its halves: a triangle whose error is
/// tolerated has nothing below it that is not.
pub proof fn law_error_dominates(
    heights: Seq<u64>,
    n: nat,
    root: Triangle,
    t: Triangle,
    rank: nat,
)
    requires
        valid_side(n),
        n <= u32::MAX,
        root == root_a(n) || root == root_b(n),
        1 <= rank <= top_rank(n),
        descends(root, (top_rank(n) - rank) as nat, t),
        t.placed(n, rank),
    ensures
        vertex_error(heights, n, t.im(n)) >= local_error(heights, n, t),
        rank >= 2 ==> vertex_error(heights, n, t.im(n)) >= vertex_error(
            heights,
            n,
            t.left().im(n),
        ),
        rank >= 2 ==> vertex_error(heights, n, t.im(n)) >= vertex_error(
            heights,
            n,
            t.right().im(n),
        ),
{
    law_error_of_midpoint(heights, n, t, rank);
    lemma_level_reports(heights, n, root, (top_rank(n) - rank) as nat, rank, t);
}

/// Below a triangle whose error is tolerated, every triangle that can be
/// bisected has an interpolation error and a midpoint error that are
/// tolerated too: nothing that a coarse triangle of the mesh leaves out
/// would have mattered.
pub proof fn law_tolerated_below(
    heights: Seq<u64>,
    n: nat,
    root: Triangle,
    t: Triangle,
    rank: nat,
    depth: nat,
    below: Triangle,
    max_error: u64,
)
    requires
        valid_side(n),
        n <= u32::MAX,
        root == root_a(n) || root == root_b(n),
        1 <= rank <= top_rank(n),
        descends(root, (top_rank(n) - rank) as nat, t),
        t.placed(n, rank),
        depth < rank,
        descends(t, depth, below),
        vertex_error(heights, n, t.im(n)) <= max_error,
    ensures
        local_error(heights, n, below) <= max_error,
        vertex_error(heights, n, below.im(n)) <= max_error,
    decreases depth,
{
    law_error_dominates(heights, n, root, t, rank);
    if depth >= 1 {
        lemma_placed_children(t, n, rank);
        lemma_descends_step(root, (top_rank(n) - rank) as nat, t);
        let half = if descends(t.left(), (depth - 1) as nat, below) {
            t.left()
        } else {
            t.right()
        };
        law_tolerated_below(
            heights,
            n,
            root,
            half,
            (rank - 1) as nat,
            (depth - 1) as nat,
            below,
            max_error,
        );
    }
}

/// The height at `(x, y)`, a vertex with one odd and one even coordinate, is
/// not the average of the heights of its two neighbours along the odd
/// coordinate.
pub open spec fn bend_at(heights: Seq<u64>, n: nat, x: int, y: int) -> bool {
    if x % 2 == 1 {
        heights[flat(n, x - 1, y)] + heights[flat(n, x + 1, y)] != 2 * heights[flat(n, x, y)]
    } else {
        heights[flat(n, x, y - 1)] + heights[flat(n, x, y + 1)] != 2 * heights[flat(n, x, y)]
    }
}

/// The terrain bends at every vertex with one odd and one even coordinate:
/// at every hypotenuse midpoint of the finest triangles that can be
/// bisected.
pub open spec fn bends(heights: Seq<u64>, n: nat) -> bool {
    forall|x: int, y: int|
        0 <= x < n && 0 <= y < n && (x + y) % 2 == 1 ==> #[trigger] bend_at(heights, n, x, y)
}

/// On a terrain that bends, the finest triangles that can be bisected have
/// an interpolation error.
pub proof fn lemma_finest_bends(heights: Seq<u64>, n: nat, t: Triangle)
    requires
        t.placed(n, 1),
        bends(heights, n),
    ensures
        local_error(heights, n, t) > 0,
{
    lemma_placed_children(t, n, 1);
    assert(leg(1) == 1);
    let x = t.mx();
    let y = t.my();
    assert(bend_at(heights, n, x, y));
    if x % 2 == 1 {
        assert(t.ay == y && t.by == y);
        assert(t.ax == x - 1 && t.bx == x + 1 || t.ax == x + 1 && t.bx == x - 1);
    } else {
        assert(t.ax == x && t.bx == x);
        assert(t.ay == y - 1 && t.by == y + 1 || t.ay == y + 1 && t.by == y - 1);
    }
}

/// On a terrain that bends, the error at the hypotenuse midpoint of every
/// triangle of the tree that can be bisected is not zero.
pub proof fn lemma_error_positive(
    heights: Seq<u64>,
    n: nat,
    root: Triangle,
    t: Triangle,
    rank: nat,
)
    requires
        valid_side(n),
        n <= u32::MAX,
        bends(heights, n),
        root == root_a(n) || root == root_b(n),
        1 <= rank <= top_rank(n),
        descends(root, (top_rank(n) - rank) as nat, t),
        t.placed(n, rank),
    ensures
        error_upto(heights, n, rank, t.im(n)) > 0,
    decreases rank,
{
    let depth = (top_rank(n) - rank) as nat;
    if rank == 1 {
        lemma_finest_bends(heights, n, t);
    } else {
        lemma_placed_children(t, n, rank);
        lemma_descends_step(root, depth, t);
        lemma_error_positive(heights, n, root, t.left(), (rank - 1) as nat);
    }
    assert(subdivision_error(heights, n, t, rank) > 0);
    lemma_level_reports(heights, n, root, depth, rank, t);
}

/// On a terrain that bends, a triangle of the tree is cut down to its
/// smallest triangles when nothing is tolerated.
pub proof fn lemma_full_count(
    errors: Seq<u64>,
    heights: Seq<u64>,
    n: nat,
    root: Triangle,
    t: Triangle,
    rank: nat,
)
    requires
        valid_side(n),
        n <= u32::MAX,
        bends(heights, n),
        errors.len() == n * n,
        forall|v: int| 0 <= v < n * n ==> #[trigger] errors[v] == vertex_error(heights, n, v),
        root == root_a(n) || root == root_b(n),
        rank <= top_rank(n),
        descends(root, (top_rank(n) - rank) as nat, t),
        t.placed(n, rank),
    ensures
        emitted(errors, n, 0, t, rank).len() == 3 * leaves(rank),
    decreases rank,
{
    if rank >= 1 {
        let depth = (top_rank(n) - rank) as nat;
        lemma_placed_children(t, n, rank);
        lemma_flat_in_range(n, t.mx(), t.my());
        lemma_error_positive(heights, n, root, t, rank);
        lemma_error_grows(heights, n, rank, top_rank(n), t.im(n));
        assert(errors[t.im(n)] > 0);
        lemma_descends_step(root, depth, t);
        lemma_full_count(errors, heights, n, root, t.left(), (rank - 1) as nat);
        lemma_full_count(errors, heights, n, root, t.right(), (rank - 1) as nat);
    }
}

/// With a tolerance of zero, the mesh of a terrain that bends at every
/// vertex with one odd and one even coordinate is the finest there is:
/// `2 (n - 1)^2` triangles.
pub proof fn law_full_tessellation(heights: Seq<u64>, n: nat)
    requires
        valid_side(n),
        n <= u32::MAX,
        heights.len() == n * n,
        heights_bounded(heights),
        bends(heights, n),
    ensures
        extracted(error_map(heights, n), n, 0).len() == 3 * (2 * ((n - 1) * (n - 1))),
{
    let errors = error_map(heights, n);
    let top = top_rank(n);
    lemma_error_map_entries(heights, n);
    lemma_roots_placed(n);
    lemma_full_count(errors, heights, n, root_a(n), root_a(n), top);
    lemma_full_count(errors, heights, n, root_b(n), root_b(n), top);
    lemma_leaves_square(top);
}

/// On a terrain whose heights are all the same, the mesh is the two root
/// triangles, whatever the tolerance and whatever the size of the grid.
pub proof fn law_flat_mesh(heights: Seq<u64>, n: nat, height: u64, max_error: u64)
    requires
        valid_side(n),
        n <= u32::MAX,
        heights.len() == n * n,
        forall|i: int| 0 <= i < heights.len() ==> heights[i] == height,
    ensures
        extracted(error_map(heights, n), n, max_error) == root_mesh(n),
        extracted(error_map(heights, n), n, max_error).len() == 6,
{
    law_flat_errors(heights, n, height);
    lemma_roots_placed(n);
    lemma_placed_children(root_a(n), n, top_rank(n));
    lemma_flat_in_range(n, root_a(n).mx(), root_a(n).my());
    lemma_centre_tolerated(error_map(heights, n), n, max_error);
}

} // verus!
