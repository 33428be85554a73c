//! The implicit triangle tree of a square grid of side `2^k + 1`.

use vstd::prelude::*;

verus! {

/// A right isosceles triangle given by three grid vertices. The hypotenuse
/// runs from `a` to `b`, and `c` is the corner with the right angle.
#[derive(Clone, Copy, Debug)]
pub struct Triangle {
    pub ax: u32,
    pub ay: u32,
    pub bx: u32,
    pub by: u32,
    pub cx: u32,
    pub cy: u32,
}

/// `t` is `1` or can be halved down to `1`.
pub open spec fn is_power_of_two(t: nat) -> bool
    decreases t,
{
    t == 1 || (t >= 2 && t % 2 == 0 && is_power_of_two(t / 2))
}

/// How often `t` can be halved before it reaches `1`.
pub open spec fn halvings(t: nat) -> nat
    decreases t,
{
    if t >= 2 {
        1 + halvings(t / 2)
    } else {
        0
    }
}

/// A grid side is valid when it is `2^k + 1` for some `k >= 1`.
pub open spec fn valid_side(n: nat) -> bool {
    n >= 3 && is_power_of_two((n - 1) as nat)
}

/// The rank of the two root triangles of a grid of side `n`: the number of
/// bisections that lead from a root to a triangle with legs of length one.
pub open spec fn top_rank(n: nat) -> nat {
    2 * halvings((n - 1) as nat)
}

/// The leg size of the triangles of a rank. Triangles of even rank have legs
/// along the grid axes, of this length. Triangles of odd rank have diagonal
/// legs that span this length along both axes.
pub open spec fn leg(rank: nat) -> nat
    decreases rank,
{
    if rank < 2 {
        1
    } else {
        2 * leg((rank - 2) as nat)
    }
}

/// The number of smallest triangles below a triangle of `rank`.
pub open spec fn leaves(rank: nat) -> nat
    decreases rank,
{
    if rank == 0 {
        1
    } else {
        2 * leaves((rank - 1) as nat)
    }
}

/// The root triangle below the main diagonal.
pub open spec fn root_a(n: nat) -> Triangle {
    Triangle { ax: 0, ay: 0, bx: (n - 1) as u32, by: (n - 1) as u32, cx: (n - 1) as u32, cy: 0 }
}

/// The root triangle above the main diagonal.
pub open spec fn root_b(n: nat) -> Triangle {
    Triangle { ax: (n - 1) as u32, ay: (n - 1) as u32, bx: 0, by: 0, cx: 0, cy: (n - 1) as u32 }
}

/// The position of vertex `(x, y)` in a row-major grid of side `n`.
pub open spec fn flat(n: nat, x: int, y: int) -> int {
    y * n + x
}

impl Triangle {
    /// Column of the hypotenuse midpoint.
    pub open spec fn mx(self) -> int {
        (self.ax + self.bx) / 2
    }

    /// Row of the hypotenuse midpoint.
    pub open spec fn my(self) -> int {
        (self.ay + self.by) / 2
    }

    /// Flat index of corner `a`.
    pub open spec fn ia(self, n: nat) -> int {
        flat(n, self.ax as int, self.ay as int)
    }

    /// Flat index of corner `b`.
    pub open spec fn ib(self, n: nat) -> int {
        flat(n, self.bx as int, self.by as int)
    }

    /// Flat index of corner `c`.
    pub open spec fn ic(self, n: nat) -> int {
        flat(n, self.cx as int, self.cy as int)
    }

    /// Flat index of the hypotenuse midpoint.
    pub open spec fn im(self, n: nat) -> int {
        flat(n, self.mx(), self.my())
    }

    /// The first half of the bisected triangle: `(c, a, m)`.
    pub open spec fn left(self) -> Triangle {
        Triangle {
            ax: self.cx,
            ay: self.cy,
            bx: self.ax,
            by: self.ay,
            cx: self.mx() as u32,
            cy: self.my() as u32,
        }
    }

    /// The second half of the bisected triangle: `(b, c, m)`.
    pub open spec fn right(self) -> Triangle {
        Triangle {
            ax: self.bx,
            ay: self.by,
            bx: self.cx,
            by: self.cy,
            cx: self.mx() as u32,
            cy: self.my() as u32,
        }
    }

    /// Twice the signed area of the triangle, taken in the order `a`, `b`,
    /// `c` with `x` to the right and `y` upwards.
    pub open spec fn doubled_area(self) -> int {
        (self.bx - self.ax) * (self.cy - self.ay) - (self.by - self.ay) * (self.cx - self.ax)
    }

    /// `t` is a triangle of the tree of a grid of side `n`, `rank` bisections
    /// above the smallest triangles: its corners are grid vertices, the leg
    /// from `c` to `b` is the leg from `c` to `a` turned by a quarter, the
    /// legs have the size of the rank, and `c` lies on the lattice of the
    /// rank.
    pub open spec fn placed(self, n: nat, rank: nat) -> bool {
        let s = leg(rank) as int;
        let ux = self.ax - self.cx;
        let uy = self.ay - self.cy;
        &&& self.ax < n && self.ay < n && self.bx < n && self.by < n && self.cx < n && self.cy < n
        &&& self.bx - self.cx == uy
        &&& self.by - self.cy == -ux
        &&& if rank % 2 == 0 {
            &&& ((ux == s || ux == -s) && uy == 0) || (ux == 0 && (uy == s || uy == -s))
            &&& self.cx as int % s == 0
            &&& self.cy as int % s == 0
        } else {
            &&& ux == s || ux == -s
            &&& uy == s || uy == -s
            &&& self.cx as int % (2 * s) == s
            &&& self.cy as int % (2 * s) == s
        }
    }
}

/// `(x, y)` lies where the hypotenuse midpoints of the triangles of `rank`
/// lie.
pub open spec fn midpoint_site(x: int, y: int, rank: nat) -> bool {
    let s = leg(rank) as int;
    if rank % 2 == 0 {
        x % s == s / 2 && y % s == s / 2
    } else {
        (x % (2 * s) == 0 && y % (2 * s) == s) || (x % (2 * s) == s && y % (2 * s) == 0)
    }
}

/// A leg is at least one long, and twice as long as two ranks below.
pub proof fn lemma_leg_positive(rank: nat)
    ensures
        leg(rank) >= 1,
        rank >= 2 ==> leg(rank) == 2 * leg((rank - 2) as nat),
    decreases rank,
{
    if rank >= 2 {
        lemma_leg_positive((rank - 2) as nat);
    }
}

/// An odd rank has the leg of the even rank below it.
pub proof fn lemma_leg_pairs(rank: nat)
    requires
        rank % 2 == 1,
    ensures
        leg(rank) == leg((rank - 1) as nat),
    decreases rank,
{
    if rank >= 2 {
        lemma_leg_pairs((rank - 2) as nat);
    }
}

/// A remainder by `2 * s` fixes the remainder by `s`.
pub proof fn lemma_mod_halve(x: int, s: int)
    requires
        1 <= s,
    ensures
        x % (2 * s) == 0 ==> x % s == 0,
        x % (2 * s) == s ==> x % s == 0,
{
    vstd::arithmetic::div_mod::lemma_mod_mod(x, s, 2);
    assert(s * 2 == 2 * s);
    vstd::arithmetic::div_mod::lemma_mod_self_0(s);
    vstd::arithmetic::div_mod::lemma_small_mod(0, s as nat);
}

/// Half a period added to a multiple of the period, or taken from it.
pub proof fn lemma_mod_half_step(x: int, h: int)
    requires
        1 <= h,
        x % (2 * h) == 0,
    ensures
        (x + h) % (2 * h) == h,
        (x - h) % (2 * h) == h,
{
    let d = 2 * h;
    vstd::arithmetic::div_mod::lemma_fundamental_div_mod(x, d);
    let q = x / d;
    assert(x == d * q);
    assert(x + h == q * d + h) by (nonlinear_arith)
        requires
            x == d * q,
    ;
    vstd::arithmetic::div_mod::lemma_fundamental_div_mod_converse(x + h, d, q, h);
    assert(x - h == (q - 1) * d + h) by (nonlinear_arith)
        requires
            x == d * q,
            d == 2 * h,
    ;
    vstd::arithmetic::div_mod::lemma_fundamental_div_mod_converse(x - h, d, q - 1, h);
}

/// Half a period added to an odd multiple of the half, or taken from it.
pub proof fn lemma_mod_half_back(x: int, h: int)
    requires
        1 <= h,
        x % (2 * h) == h,
    ensures
        (x + h) % (2 * h) == 0,
        (x - h) % (2 * h) == 0,
{
    let d = 2 * h;
    vstd::arithmetic::div_mod::lemma_fundamental_div_mod(x, d);
    let q = x / d;
    assert(x == d * q + h);
    assert(x + h == (q + 1) * d + 0) by (nonlinear_arith)
        requires
            x == d * q + h,
            d == 2 * h,
    ;
    vstd::arithmetic::div_mod::lemma_fundamental_div_mod_converse(x + h, d, q + 1, 0);
    assert(x - h == q * d + 0) by (nonlinear_arith)
        requires
            x == d * q + h,
    ;
    vstd::arithmetic::div_mod::lemma_fundamental_div_mod_converse(x - h, d, q, 0);
}

/// Below every triangle there is a smallest triangle.
pub proof fn lemma_leaves_positive(rank: nat)
    ensures
        leaves(rank) >= 1,
    decreases rank,
{
    if rank >= 1 {
        lemma_leaves_positive((rank - 1) as nat);
    }
}

/// Below a triangle with legs along the axes there are as many smallest
/// triangles as the square of its leg.
pub proof fn lemma_leaves_square(rank: nat)
    requires
        rank % 2 == 0,
    ensures
        leaves(rank) == leg(rank) * leg(rank),
    decreases rank,
{
    if rank >= 2 {
        lemma_leaves_square((rank - 2) as nat);
        lemma_leg_positive(rank);
        let h = leg((rank - 2) as nat);
        assert(leaves(rank) == 4 * leaves((rank - 2) as nat)) by {
            assert(leaves(rank) == 2 * leaves((rank - 1) as nat));
            assert(leaves((rank - 1) as nat) == 2 * leaves((rank - 2) as nat));
        }
        let s = leg(rank);
        assert(s * s == 4 * (h * h)) by (nonlinear_arith)
            requires
                s == 2 * h,
        ;
    } else {
        let s = leg(rank);
        assert(s * s == 1) by (nonlinear_arith)
            requires
                s == 1,
        ;
    }
}

/// The legs of the root rank span the whole grid.
pub proof fn lemma_leg_of_halvings(t: nat)
    requires
        is_power_of_two(t),
    ensures
        leg(2 * halvings(t)) == t,
    decreases t,
{
    if t >= 2 {
        lemma_leg_of_halvings(t / 2);
        lemma_leg_positive(2 * halvings(t));
    }
}

/// Both root triangles are triangles of the tree, at the top rank.
pub proof fn lemma_roots_placed(n: nat)
    requires
        valid_side(n),
        n <= u32::MAX,
    ensures
        top_rank(n) >= 2,
        top_rank(n) % 2 == 0,
        leg(top_rank(n)) == n - 1,
        root_a(n).placed(n, top_rank(n)),
        root_b(n).placed(n, top_rank(n)),
{
    let t = (n - 1) as nat;
    lemma_leg_of_halvings(t);
    vstd::arithmetic::div_mod::lemma_mod_self_0(t as int);
    vstd::arithmetic::div_mod::lemma_small_mod(0, t);
}

/// Bisecting a triangle of the tree gives two triangles of the tree, one rank
/// lower, and the hypotenuse midpoint is a grid vertex on the sites of the
/// triangle's rank.
pub proof fn lemma_placed_children(t: Triangle, n: nat, rank: nat)
    requires
        t.placed(n, rank),
        rank >= 1,
    ensures
        2 * t.mx() == t.ax + t.bx,
        2 * t.my() == t.ay + t.by,
        0 <= t.mx() < n,
        0 <= t.my() < n,
        midpoint_site(t.mx(), t.my(), rank),
        t.left().placed(n, (rank - 1) as nat),
        t.right().placed(n, (rank - 1) as nat),
{
    let s = leg(rank) as int;
    lemma_leg_positive(rank);
    if rank % 2 == 0 {
        let h = leg((rank - 2) as nat) as int;
        lemma_leg_positive((rank - 2) as nat);
        lemma_leg_pairs((rank - 1) as nat);
        assert(leg((rank - 1) as nat) == h);
        assert(s == 2 * h);
        lemma_mod_half_step(t.cx as int, h);
        lemma_mod_half_step(t.cy as int, h);
        assert(t.mx() == t.cx + h || t.mx() == t.cx - h);
        assert(t.my() == t.cy + h || t.my() == t.cy - h);
    } else {
        lemma_leg_pairs(rank);
        assert(leg((rank - 1) as nat) == s);
        lemma_mod_half_back(t.cx as int, s);
        lemma_mod_half_back(t.cy as int, s);
        lemma_mod_halve(t.cx as int, s);
        lemma_mod_halve(t.cy as int, s);
        assert((t.mx() == t.cx + s || t.mx() == t.cx - s) && t.my() == t.cy || (t.my() == t.cy + s
            || t.my() == t.cy - s) && t.mx() == t.cx);
        lemma_mod_halve(t.mx(), s);
        lemma_mod_halve(t.my(), s);
    }
}

/// No vertex is a midpoint site of two ranks that follow each other.
pub proof fn lemma_sites_apart(x: int, y: int, rank: nat)
    requires
        rank >= 2,
        midpoint_site(x, y, rank),
    ensures
        !midpoint_site(x, y, (rank - 1) as nat),
{
    let s = leg(rank) as int;
    lemma_leg_positive(rank);
    if rank % 2 == 0 {
        lemma_leg_pairs((rank - 1) as nat);
        lemma_leg_positive((rank - 2) as nat);
    } else {
        lemma_leg_pairs(rank);
        lemma_leg_positive((rank - 1) as nat);
        lemma_leg_positive((rank - 3) as nat);
        lemma_mod_halve(x, s);
        lemma_mod_halve(y, s);
    }
}

/// A multiple of the leg of a rank is a multiple of the leg of every lower
/// rank.
pub proof fn lemma_leg_divides(x: int, low: nat, high: nat)
    requires
        low <= high,
        x % (leg(high) as int) == 0,
    ensures
        x % (leg(low) as int) == 0,
    decreases high,
{
    if low < high {
        lemma_leg_positive(high);
        if high % 2 == 1 {
            lemma_leg_pairs(high);
        } else {
            lemma_leg_positive((high - 2) as nat);
            lemma_leg_pairs((high - 1) as nat);
            lemma_mod_halve(x, leg((high - 2) as nat) as int);
        }
        lemma_leg_divides(x, low, (high - 1) as nat);
    }
}

/// No vertex is a midpoint site of two ranks.
pub proof fn lemma_sites_unique(x: int, y: int, low: nat, high: nat)
    requires
        1 <= low < high,
        midpoint_site(x, y, low),
    ensures
        !midpoint_site(x, y, high),
{
    if midpoint_site(x, y, high) {
        if high == low + 1 {
            lemma_sites_apart(x, y, high);
        } else {
            let s = leg(high) as int;
            lemma_leg_positive(high);
            if high % 2 == 0 {
                lemma_leg_positive((high - 2) as nat);
                lemma_leg_pairs((high - 1) as nat);
                lemma_mod_halve(x, leg((high - 2) as nat) as int);
                lemma_mod_halve(y, leg((high - 2) as nat) as int);
            } else {
                lemma_leg_pairs(high);
                lemma_mod_halve(x, s);
                lemma_mod_halve(y, s);
            }
            assert(x % (leg((high - 1) as nat) as int) == 0);
            assert(y % (leg((high - 1) as nat) as int) == 0);
            lemma_leg_divides(x, low + 1, (high - 1) as nat);
            lemma_leg_divides(y, low + 1, (high - 1) as nat);
            lemma_leg_positive(low + 1);
            lemma_leg_positive(low);
            if low % 2 == 0 {
                lemma_leg_pairs(low + 1);
                lemma_leg_positive((low - 2) as nat);
            } else {
                lemma_leg_pairs(low);
            }
        }
    }
}

/// Flat indices of grid vertices are below the number of vertices, and the
/// vertex can be read back from its index.
pub proof fn lemma_flat_in_range(n: nat, x: int, y: int)
    requires
        0 <= x < n,
        0 <= y < n,
    ensures
        0 <= flat(n, x, y) < n * n,
        flat(n, x, y) % (n as int) == x,
        flat(n, x, y) / (n as int) == y,
{
    assert(y * n + x < n * n && 0 <= y * n) by (nonlinear_arith)
        requires
            0 <= x < n,
            0 <= y < n,
    ;
    vstd::arithmetic::div_mod::lemma_fundamental_div_mod_converse(flat(n, x, y), n as int, y, x);
}

/// Two grid vertices with the same flat index are the same vertex.
pub proof fn lemma_flat_injective(n: nat, x1: int, y1: int, x2: int, y2: int)
    requires
        0 <= x1 < n,
        0 <= y1 < n,
        0 <= x2 < n,
        0 <= y2 < n,
        flat(n, x1, y1) == flat(n, x2, y2),
    ensures
        x1 == x2,
        y1 == y2,
{
    lemma_flat_in_range(n, x1, y1);
    lemma_flat_in_range(n, x2, y2);
}

/// The top rank of a grid of side `n`, or `None` where `n` is not a valid
/// side.
pub fn side_rank(n: u32) -> (r: Option<u32>)
    ensures
        r is Some <==> valid_side(n as nat),
        r matches Some(k) ==> k == top_rank(n as nat) && 2 <= k <= 62,
{
    if n < 3 {
        return None;
    }
    let mut t: u32 = n - 1;
    let mut count: u32 = 0;
    proof {
        lemma_halvings_bound((n - 1) as nat);
    }
    while t >= 2 && t % 2 == 0
        invariant
            1 <= t <= n - 1,
            n >= 3,
            is_power_of_two((n - 1) as nat) <==> is_power_of_two(t as nat),
            halvings((n - 1) as nat) == count + halvings(t as nat),
            count + halvings(t as nat) <= 31,
            count <= 31,
        decreases t,
    {
        t = t / 2;
        count = count + 1;
    }
    if t == 1 {
        Some(2 * count)
    } else {
        None
    }
}

/// A number below `2^32` can be halved at most 31 times.
pub proof fn lemma_halvings_bound(t: nat)
    requires
        t <= u32::MAX,
    ensures
        halvings(t) <= 31,
{
    reveal_with_fuel(halvings, 33);
}

/// The flat index of vertex `(x, y)`.
pub fn flat_index(n: u32, x: u32, y: u32) -> (r: usize)
    requires
        x < n,
        y < n,
        n * n <= usize::MAX,
    ensures
        r == flat(n as nat, x as int, y as int),
        r < n * n,
{
    proof {
        lemma_flat_in_range(n as nat, x as int, y as int);
        assert(y * n <= n * n) by (nonlinear_arith)
            requires
                0 <= y < n,
        ;
    }
    y as usize * n as usize + x as usize
}

impl Triangle {
    /// The root triangle below the main diagonal of a grid of side `n`.
    pub fn first_root(n: u32) -> (t: Triangle)
        requires
            n >= 1,
        ensures
            t == root_a(n as nat),
    {
        Triangle { ax: 0, ay: 0, bx: n - 1, by: n - 1, cx: n - 1, cy: 0 }
    }

    /// The root triangle above the main diagonal of a grid of side `n`.
    pub fn second_root(n: u32) -> (t: Triangle)
        requires
            n >= 1,
        ensures
            t == root_b(n as nat),
    {
        Triangle { ax: n - 1, ay: n - 1, bx: 0, by: 0, cx: 0, cy: n - 1 }
    }

    /// The hypotenuse midpoint, rounded down where the sum of two
    /// coordinates is odd.
    pub fn midpoint(&self) -> (m: (u32, u32))
        ensures
            m.0 == self.mx(),
            m.1 == self.my(),
    {
        let mx: u64 = (self.ax as u64 + self.bx as u64) / 2;
        let my: u64 = (self.ay as u64 + self.by as u64) / 2;
        (mx as u32, my as u32)
    }

    /// The two halves of the bisected triangle, `(c, a, m)` and `(b, c, m)`.
    pub fn halves(&self) -> (r: (Triangle, Triangle))
        ensures
            r.0 == self.left(),
            r.1 == self.right(),
    {
        let (mx, my) = self.midpoint();
        (
            Triangle { ax: self.cx, ay: self.cy, bx: self.ax, by: self.ay, cx: mx, cy: my },
            Triangle { ax: self.bx, ay: self.by, bx: self.cx, by: self.cy, cx: mx, cy: my },
        )
    }

    /// Whether the leg from `a` to `c` is longer than one grid step, counted
    /// along the axes.
    pub fn can_split(&self) -> (r: bool)
        ensures
            r == (vstd::math::abs(self.ax - self.cx) + vstd::math::abs(self.ay - self.cy) > 1),
    {
        let dx: u32 = if self.ax >= self.cx {
            self.ax - self.cx
        } else {
            self.cx - self.ax
        };
        let dy: u32 = if self.ay >= self.cy {
            self.ay - self.cy
        } else {
            self.cy - self.ay
        };
        dx as u64 + dy as u64 > 1
    }
}

/// A triangle of the tree can be bisected exactly where its rank is not
/// zero.
pub proof fn lemma_split_rank(t: Triangle, n: nat, rank: nat)
    requires
        t.placed(n, rank),
    ensures
        (vstd::math::abs(t.ax - t.cx) + vstd::math::abs(t.ay - t.cy) > 1) <==> rank >= 1,
{
    lemma_leg_positive(rank);
    if rank >= 2 {
        lemma_leg_positive((rank - 2) as nat);
    }
}

} // verus!
