use crate::models::node::Position;
use vstd::prelude::*;

verus! {

/// The distance between two coordinates on one axis.
pub open spec fn axis_distance(a: i32, b: i32) -> int {
    if a >= b {
        a - b
    } else {
        b - a
    }
}

/// The Manhattan distance between two positions.
pub open spec fn manhattan(a: Position, b: Position) -> int {
    axis_distance(a.x, b.x) + axis_distance(a.y, b.y)
}

/// The square of the Euclidean distance between two positions.
pub open spec fn squared_distance(a: Position, b: Position) -> int {
    axis_distance(a.x, b.x) * axis_distance(a.x, b.x) + axis_distance(a.y, b.y) * axis_distance(
        a.y,
        b.y,
    )
}

/// `root` is the square root of `n`, rounded down.
pub open spec fn is_floor_sqrt(n: int, root: int) -> bool {
    0 <= root && root * root <= n < (root + 1) * (root + 1)
}

/// The square root of `n`, rounded down.
pub open spec fn floor_sqrt(n: int) -> int {
    choose|root: int| is_floor_sqrt(n, root)
}

/// The Euclidean distance between two positions, rounded down to a whole
/// number.
pub open spec fn euclidean(a: Position, b: Position) -> int {
    floor_sqrt(squared_distance(a, b))
}

/// Squaring keeps the order of numbers that are not negative.
pub proof fn lemma_square_monotonic(a: int, b: int)
    requires
        0 <= a <= b,
    ensures
        a * a <= b * b,
{
    assert(a * a <= b * b) by (nonlinear_arith)
        requires
            0 <= a <= b,
    ;
}

/// A number has at most one rounded-down square root.
pub proof fn lemma_floor_sqrt_unique(n: int, root: int)
    requires
        is_floor_sqrt(n, root),
    ensures
        floor_sqrt(n) == root,
{
    let other = floor_sqrt(n);
    assert(is_floor_sqrt(n, other));
    if other < root {
        lemma_square_monotonic(other + 1, root);
    } else if root < other {
        lemma_square_monotonic(root + 1, other);
    }
}

fn axis_steps(a: i32, b: i32) -> (d: u64)
    ensures
        d == axis_distance(a, b),
        d <= 0xffff_ffff,
{
    if a >= b {
        (a as i64 - b as i64) as u64
    } else {
        (b as i64 - a as i64) as u64
    }
}

/// The Euclidean distance between `a` and `b`: the square root of the sum
/// of the squared coordinate differences, rounded down.
pub fn euclidean_distance(a: &Position, b: &Position) -> (d: u64)
    ensures
        d == euclidean(*a, *b),
        is_floor_sqrt(squared_distance(*a, *b), d as int),
        d <= 0x1_ffff_ffff,
{
    let dx: u128 = axis_steps(a.x, b.x) as u128;
    let dy: u128 = axis_steps(a.y, b.y) as u128;
    assert(dx * dx <= 0xffff_ffff * 0xffff_ffff) by (nonlinear_arith)
        requires
            0 <= dx <= 0xffff_ffff,
    ;
    assert(dy * dy <= 0xffff_ffff * 0xffff_ffff) by (nonlinear_arith)
        requires
            0 <= dy <= 0xffff_ffff,
    ;
    let n: u128 = dx * dx + dy * dy;
    let mut low: u128 = 0;
    let mut high: u128 = 0x2_0000_0000;
    assert(low * low <= n < high * high) by (nonlinear_arith)
        requires
            low == 0,
            high == 0x2_0000_0000,
            n <= 2 * (0xffff_ffff * 0xffff_ffff),
    ;
    while high - low > 1
        invariant
            low < high <= 0x2_0000_0000,
            low * low <= n < high * high,
        decreases high - low,
    {
        let middle: u128 = low + (high - low) / 2;
        assert(middle * middle <= 0x2_0000_0000 * 0x2_0000_0000) by (nonlinear_arith)
            requires
                0 <= middle <= 0x2_0000_0000,
        ;
        if middle * middle <= n {
            low = middle;
        } else {
            high = middle;
        }
    }
    proof {
        lemma_floor_sqrt_unique(n as int, low as int);
    }
    low as u64
}

/// The Manhattan distance between `a` and `b`: the sum of the coordinate
/// differences.
pub fn manhattan_distance(a: &Position, b: &Position) -> (d: u64)
    ensures
        d == manhattan(*a, *b),
        d <= 0x1_ffff_fffe,
{
    let dx: u64 = axis_steps(a.x, b.x);
    let dy: u64 = axis_steps(a.y, b.y);
    dx + dy
}

} // verus!
