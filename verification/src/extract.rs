//! Cutting a mesh from the triangle tree: a triangle is bisected where it can
//! be and the error at its hypotenuse midpoint exceeds the tolerance, and is
//! emitted otherwise.

use vstd::prelude::*;
use crate::grid::{
    flat_index, leaves, leg, lemma_flat_in_range, lemma_leaves_positive, lemma_leaves_square,
    lemma_leg_pairs,
    lemma_placed_children, lemma_roots_placed, lemma_split_rank, root_a, root_b, top_rank,
    valid_side, Triangle,
};

verus! {

/// The flat corner indices, in the order `a`, `b`, `c`, of the triangles that
/// are emitted below a triangle `t` of `rank`, in the order in which a walk
/// that takes the half `(c, a, m)` before the half `(b, c, m)` meets them.
pub open spec fn emitted(
    errors: Seq<u64>,
    n: nat,
    max_error: u64,
    t: Triangle,
    rank: nat,
) -> Seq<usize>
    decreases rank,
{
    if rank >= 1 && errors[t.im(n)] > max_error {
        emitted(errors, n, max_error, t.left(), (rank - 1) as nat) + emitted(
            errors,
            n,
            max_error,
            t.right(),
            (rank - 1) as nat,
        )
    } else {
        seq![t.ia(n) as usize, t.ib(n) as usize, t.ic(n) as usize]
    }
}

/// The mesh of a grid of side `n`: what the first root emits, then what the
/// second root emits.
pub open spec fn extracted(errors: Seq<u64>, n: nat, max_error: u64) -> Seq<usize> {
    emitted(errors, n, max_error, root_a(n), top_rank(n)) + emitted(
        errors,
        n,
        max_error,
        root_b(n),
        top_rank(n),
    )
}

/// The triangle whose corner indices stand at the places `3 j`, `3 j + 1` and
/// `3 j + 2` of `mesh`.
pub open spec fn triangle_at(mesh: Seq<usize>, n: nat, j: int) -> Triangle {
    Triangle {
        ax: (mesh[3 * j] as int % n as int) as u32,
        ay: (mesh[3 * j] as int / n as int) as u32,
        bx: (mesh[3 * j + 1] as int % n as int) as u32,
        by: (mesh[3 * j + 1] as int / n as int) as u32,
        cx: (mesh[3 * j + 2] as int % n as int) as u32,
        cy: (mesh[3 * j + 2] as int / n as int) as u32,
    }
}

/// `t` is a triangle of the tree of a grid of side `n`, of whatever rank.
pub open spec fn in_tree(t: Triangle, n: nat) -> bool {
    exists|r: nat| t.placed(n, r)
}

/// Appends to `indices` what the triangle `t` emits.
fn process_triangle(
    indices: &mut Vec<usize>,
    max_error: u64,
    errors: &Vec<u64>,
    grid_size: u32,
    t: Triangle,
    Ghost(rank): Ghost<nat>,
)
    requires
        t.placed(grid_size as nat, rank),
        errors.len() == grid_size * grid_size,
    ensures
        final(indices)@ == old(indices)@ + emitted(
            errors@,
            grid_size as nat,
            max_error,
            t,
            rank,
        ),
    decreases rank,
{
    proof {
        lemma_split_rank(t, grid_size as nat, rank);
        if rank >= 1 {
            lemma_placed_children(t, grid_size as nat, rank);
        }
    }
    let (mx, my) = t.midpoint();
    if t.can_split() && errors[flat_index(grid_size, mx, my)] > max_error {
        let (left, right) = t.halves();
        let ghost before = indices@;
        process_triangle(indices, max_error, errors, grid_size, left, Ghost((rank - 1) as nat));
        process_triangle(indices, max_error, errors, grid_size, right, Ghost((rank - 1) as nat));
        proof {
            let first = emitted(errors@, grid_size as nat, max_error, left, (rank - 1) as nat);
            let second = emitted(errors@, grid_size as nat, max_error, right, (rank - 1) as nat);
            assert((before + first) + second =~= before + (first + second));
        }
    } else {
        let ghost before = indices@;
        let ia = flat_index(grid_size, t.ax, t.ay);
        let ib = flat_index(grid_size, t.bx, t.by);
        let ic = flat_index(grid_size, t.cx, t.cy);
        indices.push(ia);
        indices.push(ib);
        indices.push(ic);
        proof {
            assert(indices@ =~= before + seq![ia, ib, ic]);
        }
    }
}

/// The mesh of a grid: the corner indices of the emitted triangles, three
/// for each triangle.
pub fn extract_triangles(errors: &Vec<u64>, grid_size: u32, max_error: u64) -> (indices: Vec<
    usize,
>)
    requires
        valid_side(grid_size as nat),
        errors.len() == grid_size * grid_size,
    ensures
        indices@ == extracted(errors@, grid_size as nat, max_error),
{
    proof {
        lemma_roots_placed(grid_size as nat);
    }
    let mut indices: Vec<usize> = Vec::new();
    let ghost top = top_rank(grid_size as nat);
    process_triangle(
        &mut indices,
        max_error,
        errors,
        grid_size,
        Triangle::first_root(grid_size),
        Ghost(top),
    );
    process_triangle(
        &mut indices,
        max_error,
        errors,
        grid_size,
        Triangle::second_root(grid_size),
        Ghost(top),
    );
    proof {
        let n = grid_size as nat;
        assert(indices@ =~= extracted(errors@, n, max_error));
    }
    indices
}

/// The triangle read back from its flat corner indices is the triangle.
pub proof fn lemma_triangle_read_back(t: Triangle, n: nat, rank: nat)
    requires
        t.placed(n, rank),
        n * n <= usize::MAX,
    ensures
        triangle_at(seq![t.ia(n) as usize, t.ib(n) as usize, t.ic(n) as usize], n, 0) == t,
        t.ia(n) < n * n,
        t.ib(n) < n * n,
        t.ic(n) < n * n,
{
    lemma_flat_in_range(n, t.ax as int, t.ay as int);
    lemma_flat_in_range(n, t.bx as int, t.by as int);
    lemma_flat_in_range(n, t.cx as int, t.cy as int);
}

/// What a triangle of the tree emits is a whole number of triples, at least
/// one, and every triple holds the corners of a triangle of the tree.
pub proof fn lemma_emitted_triples(
    errors: Seq<u64>,
    n: nat,
    max_error: u64,
    t: Triangle,
    rank: nat,
)
    requires
        t.placed(n, rank),
        n * n <= usize::MAX,
    ensures
        emitted(errors, n, max_error, t, rank).len() % 3 == 0,
        emitted(errors, n, max_error, t, rank).len() >= 3,
        forall|j: int|
            0 <= j < emitted(errors, n, max_error, t, rank).len() / 3 ==> in_tree(
                #[trigger] triangle_at(emitted(errors, n, max_error, t, rank), n, j),
                n,
            ),
        forall|i: int|
            0 <= i < emitted(errors, n, max_error, t, rank).len() ==> #[trigger] emitted(
                errors,
                n,
                max_error,
                t,
                rank,
            )[i] < n * n,
    decreases rank,
{
    let out = emitted(errors, n, max_error, t, rank);
    if rank >= 1 && errors[t.im(n)] > max_error {
        let lower = (rank - 1) as nat;
        lemma_placed_children(t, n, rank);
        lemma_emitted_triples(errors, n, max_error, t.left(), lower);
        lemma_emitted_triples(errors, n, max_error, t.right(), lower);
        let first = emitted(errors, n, max_error, t.left(), lower);
        let second = emitted(errors, n, max_error, t.right(), lower);
        assert(out == first + second);
        assert forall|j: int| 0 <= j < out.len() / 3 implies in_tree(
            #[trigger] triangle_at(out, n, j),
            n,
        ) by {
            if j < first.len() / 3 {
                assert(triangle_at(out, n, j) == triangle_at(first, n, j));
            } else {
                let k = j - first.len() / 3;
                assert(triangle_at(out, n, j) == triangle_at(second, n, k));
            }
        }
    } else {
        lemma_triangle_read_back(t, n, rank);
        assert forall|j: int| 0 <= j < out.len() / 3 implies in_tree(
            #[trigger] triangle_at(out, n, j),
            n,
        ) by {
            assert(triangle_at(out, n, 0) == t);
            assert(triangle_at(out, n, 0).placed(n, rank));
        }
    }
}

/// The mesh is a whole number of triples, at least two, every index in it
/// is the index of a grid vertex, and every triple holds the corners of a
/// triangle of the tree.
pub proof fn lemma_extracted_triples(errors: Seq<u64>, n: nat, max_error: u64)
    requires
        valid_side(n),
        n <= u32::MAX,
        n * n <= usize::MAX,
    ensures
        extracted(errors, n, max_error).len() % 3 == 0,
        extracted(errors, n, max_error).len() >= 6,
        forall|i: int|
            0 <= i < extracted(errors, n, max_error).len() ==> #[trigger] extracted(
                errors,
                n,
                max_error,
            )[i] < n * n,
        forall|j: int|
            0 <= j < extracted(errors, n, max_error).len() / 3 ==> in_tree(
                #[trigger] triangle_at(extracted(errors, n, max_error), n, j),
                n,
            ),
{
    lemma_roots_placed(n);
    let top = top_rank(n);
    let first = emitted(errors, n, max_error, root_a(n), top);
    let second = emitted(errors, n, max_error, root_b(n), top);
    let out = extracted(errors, n, max_error);
    lemma_emitted_triples(errors, n, max_error, root_a(n), top);
    lemma_emitted_triples(errors, n, max_error, root_b(n), top);
    assert(out == first + second);
    assert forall|j: int| 0 <= j < out.len() / 3 implies in_tree(
        #[trigger] triangle_at(out, n, j),
        n,
    ) by {
        if j < first.len() / 3 {
            assert(triangle_at(out, n, j) == triangle_at(first, n, j));
        } else {
            let k = j - first.len() / 3;
            assert(triangle_at(out, n, j) == triangle_at(second, n, k));
        }
    }
}

/// Every triangle of the mesh is wound the same way and none is flat: the
/// corners `a`, `b`, `c` of a triple, taken as points `(x, z)`, are never on
/// one line, and twice the signed area that they span is always negative.
pub proof fn law_winding(errors: Seq<u64>, n: nat, max_error: u64, j: int)
    requires
        valid_side(n),
        n <= u32::MAX,
        n * n <= usize::MAX,
        0 <= j < extracted(errors, n, max_error).len() / 3,
    ensures
        triangle_at(extracted(errors, n, max_error), n, j).doubled_area() < 0,
{
    lemma_extracted_triples(errors, n, max_error);
    let t = triangle_at(extracted(errors, n, max_error), n, j);
    assert(in_tree(t, n));
    let r = choose|r: nat| t.placed(n, r);
    lemma_placed_winding(t, n, r);
}

/// The corner indices of the two root triangles, first root first.
pub open spec fn root_mesh(n: nat) -> Seq<usize> {
    seq![
        0usize,
        (n * n - 1) as usize,
        (n - 1) as usize,
        (n * n - 1) as usize,
        0usize,
        (n * (n - 1)) as usize,
    ]
}

/// Where the error at the centre of the grid does not exceed the tolerance,
/// the mesh is the two root triangles.
pub proof fn lemma_centre_tolerated(errors: Seq<u64>, n: nat, max_error: u64)
    requires
        valid_side(n),
        n <= u32::MAX,
        errors[root_a(n).im(n)] <= max_error,
    ensures
        root_a(n).im(n) == root_b(n).im(n),
        extracted(errors, n, max_error) == root_mesh(n),
        root_mesh(n).len() == 6,
{
    lemma_roots_placed(n);
    let a = root_a(n);
    let b = root_b(n);
    assert(a.ib(n) == n * n - 1 && b.ic(n) == n * (n - 1)) by (nonlinear_arith)
        requires
            a.ib(n) == (n - 1) * n + (n - 1),
            b.ic(n) == (n - 1) * n + 0,
    ;
    assert(extracted(errors, n, max_error) =~= root_mesh(n));
}

/// With the largest tolerance there is, the mesh of every grid is its two
/// root triangles, which cover the whole square: six indices, whatever the
/// errors are.
pub proof fn law_unbounded_tolerance(errors: Seq<u64>, n: nat)
    requires
        valid_side(n),
        n <= u32::MAX,
    ensures
        extracted(errors, n, u64::MAX) == root_mesh(n),
        extracted(errors, n, u64::MAX).len() == 6,
{
    lemma_centre_tolerated(errors, n, u64::MAX);
}

/// A triangle emits at most its smallest triangles.
pub proof fn lemma_emitted_at_most(
    errors: Seq<u64>,
    n: nat,
    max_error: u64,
    t: Triangle,
    rank: nat,
)
    ensures
        emitted(errors, n, max_error, t, rank).len() <= 3 * leaves(rank),
    decreases rank,
{
    if rank >= 1 && errors[t.im(n)] > max_error {
        lemma_emitted_at_most(errors, n, max_error, t.left(), (rank - 1) as nat);
        lemma_emitted_at_most(errors, n, max_error, t.right(), (rank - 1) as nat);
        assert(leaves(rank) == 2 * leaves((rank - 1) as nat));
    } else {
        lemma_leaves_positive(rank);
    }
}

/// No mesh has more triangles than the finest one: at most `2 (n - 1)^2`.
pub proof fn law_at_most_finest(errors: Seq<u64>, n: nat, max_error: u64)
    requires
        valid_side(n),
        n <= u32::MAX,
    ensures
        extracted(errors, n, max_error).len() <= 3 * (2 * ((n - 1) * (n - 1))),
{
    lemma_roots_placed(n);
    lemma_emitted_at_most(errors, n, max_error, root_a(n), top_rank(n));
    lemma_emitted_at_most(errors, n, max_error, root_b(n), top_rank(n));
    lemma_leaves_square(top_rank(n));
}

/// Twice the area of the first `count` triangles of `mesh`, added up.
pub open spec fn doubled_area_sum(mesh: Seq<usize>, n: nat, count: nat) -> int
    decreases count,
{
    if count == 0 {
        0
    } else {
        doubled_area_sum(mesh, n, (count - 1) as nat) - triangle_at(
            mesh,
            n,
            count - 1,
        ).doubled_area()
    }
}

/// Twice the area of a triangle of the tree is the number of smallest
/// triangles below it.
pub proof fn lemma_placed_area(t: Triangle, n: nat, rank: nat)
    requires
        t.placed(n, rank),
    ensures
        -t.doubled_area() == leaves(rank),
{
    let s = leg(rank) as int;
    let ux = t.ax - t.cx;
    let uy = t.ay - t.cy;
    assert(t.doubled_area() == -(ux * ux) - uy * uy) by (nonlinear_arith)
        requires
            t.doubled_area() == (t.bx - t.ax) * (t.cy - t.ay) - (t.by - t.ay) * (t.cx - t.ax),
            ux == t.ax - t.cx,
            uy == t.ay - t.cy,
            t.bx - t.cx == uy,
            t.by - t.cy == -ux,
    ;
    if rank % 2 == 0 {
        lemma_leaves_square(rank);
        assert(ux * ux + uy * uy == s * s) by (nonlinear_arith)
            requires
                ((ux == s || ux == -s) && uy == 0) || (ux == 0 && (uy == s || uy == -s)),
        ;
    } else {
        lemma_leg_pairs(rank);
        lemma_leaves_square((rank - 1) as nat);
        assert(leaves(rank) == 2 * leaves((rank - 1) as nat));
        assert(ux * ux + uy * uy == 2 * (s * s)) by (nonlinear_arith)
            requires
                ux == s || ux == -s,
                uy == s || uy == -s,
        ;
    }
}

/// A triangle of the tree is wound the same way as every other, and is not
/// flat.
pub proof fn lemma_placed_winding(t: Triangle, n: nat, rank: nat)
    requires
        t.placed(n, rank),
    ensures
        t.doubled_area() < 0,
{
    lemma_placed_area(t, n, rank);
    lemma_leaves_positive(rank);
}

/// The area of two meshes in a row is the area of the first and the area of
/// the second.
pub proof fn lemma_area_sum_splits(
    first: Seq<usize>,
    second: Seq<usize>,
    n: nat,
    p: nat,
    q: nat,
)
    requires
        first.len() == 3 * p,
        second.len() >= 3 * q,
    ensures
        doubled_area_sum(first + second, n, p + q) == doubled_area_sum(first, n, p)
            + doubled_area_sum(second, n, q),
    decreases q,
{
    if q == 0 {
        lemma_area_sum_prefix(first, second, n, p);
    } else {
        lemma_area_sum_splits(first, second, n, p, (q - 1) as nat);
        assert(triangle_at(first + second, n, p + q - 1) == triangle_at(second, n, q - 1));
    }
}

/// The area of the first triangles of a mesh does not depend on what
/// follows them.
pub proof fn lemma_area_sum_prefix(first: Seq<usize>, second: Seq<usize>, n: nat, p: nat)
    requires
        first.len() >= 3 * p,
    ensures
        doubled_area_sum(first + second, n, p) == doubled_area_sum(first, n, p),
    decreases p,
{
    if p >= 1 {
        lemma_area_sum_prefix(first, second, n, (p - 1) as nat);
        assert(triangle_at(first + second, n, p - 1) == triangle_at(first, n, p - 1));
    }
}

/// The triangles that a triangle of the tree emits have its area together.
pub proof fn lemma_emitted_area(
    errors: Seq<u64>,
    n: nat,
    max_error: u64,
    t: Triangle,
    rank: nat,
)
    requires
        t.placed(n, rank),
        n * n <= usize::MAX,
    ensures
        doubled_area_sum(
            emitted(errors, n, max_error, t, rank),
            n,
            emitted(errors, n, max_error, t, rank).len() / 3,
        ) == leaves(rank),
    decreases rank,
{
    let out = emitted(errors, n, max_error, t, rank);
    if rank >= 1 && errors[t.im(n)] > max_error {
        let lower = (rank - 1) as nat;
        lemma_placed_children(t, n, rank);
        let first = emitted(errors, n, max_error, t.left(), lower);
        let second = emitted(errors, n, max_error, t.right(), lower);
        lemma_emitted_triples(errors, n, max_error, t.left(), lower);
        lemma_emitted_triples(errors, n, max_error, t.right(), lower);
        lemma_emitted_area(errors, n, max_error, t.left(), lower);
        lemma_emitted_area(errors, n, max_error, t.right(), lower);
        lemma_area_sum_splits(first, second, n, first.len() / 3, second.len() / 3);
        assert(out == first + second);
        assert(out.len() / 3 == first.len() / 3 + second.len() / 3);
        assert(leaves(rank) == 2 * leaves(lower));
    } else {
        lemma_triangle_read_back(t, n, rank);
        lemma_placed_area(t, n, rank);
        assert(out.len() / 3 == 1);
        assert(doubled_area_sum(out, n, 1) == doubled_area_sum(out, n, 0) - triangle_at(
            out,
            n,
            0,
        ).doubled_area());
    }
}

/// The triangles of a mesh have the area of the grid together: twice the
/// square of the side less one, counted twice.
pub proof fn law_area_kept(errors: Seq<u64>, n: nat, max_error: u64)
    requires
        valid_side(n),
        n <= u32::MAX,
        n * n <= usize::MAX,
    ensures
        doubled_area_sum(
            extracted(errors, n, max_error),
            n,
            extracted(errors, n, max_error).len() / 3,
        ) == 2 * ((n - 1) * (n - 1)),
{
    lemma_roots_placed(n);
    let top = top_rank(n);
    let first = emitted(errors, n, max_error, root_a(n), top);
    let second = emitted(errors, n, max_error, root_b(n), top);
    lemma_emitted_triples(errors, n, max_error, root_a(n), top);
    lemma_emitted_triples(errors, n, max_error, root_b(n), top);
    lemma_emitted_area(errors, n, max_error, root_a(n), top);
    lemma_emitted_area(errors, n, max_error, root_b(n), top);
    lemma_area_sum_splits(first, second, n, first.len() / 3, second.len() / 3);
    lemma_leaves_square(top);
    let out = extracted(errors, n, max_error);
    assert(out == first + second);
    assert(out.len() / 3 == first.len() / 3 + second.len() / 3);
}

} // verus!
