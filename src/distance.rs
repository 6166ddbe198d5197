//! The search heuristic: Euclidean distance between cells, in fixed point.
//!
//! Priorities are whole numbers in units of `1 / SCALE` of a step cost, so the
//! frontier orders them exactly. The distance is rounded down, which keeps it an
//! underestimate of the true straight-line distance.
use crate::board::Coord;
use vstd::prelude::*;

verus! {

/// Units of a priority per unit of step cost.
pub const SCALE: u128 = 65536;

/// The largest `r <= k` with `r * r <= n`.
pub open spec fn sqrt_below(n: nat, k: nat) -> nat
    decreases k,
{
    if k * k <= n || k == 0 {
        k
    } else {
        sqrt_below(n, (k - 1) as nat)
    }
}

/// The integer square root: the largest `r` with `r * r <= n`.
pub open spec fn floor_sqrt(n: nat) -> nat {
    sqrt_below(n, n)
}

/// Squared Euclidean distance between two cells.
pub open spec fn dist_sq(p: Coord, q: Coord) -> nat {
    let dx = p.0 as int - q.0 as int;
    let dy = p.1 as int - q.1 as int;
    (dx * dx + dy * dy) as nat
}

/// The Euclidean distance from `p` to `q` times `SCALE`, rounded down.
#[verifier::opaque]
pub open spec fn heuristic_spec(p: Coord, q: Coord) -> nat {
    floor_sqrt(dist_sq(p, q) * (SCALE * SCALE) as nat)
}

/// The priority of a cell reached at cost `g`: `g` in priority units plus the
/// estimate of what is left to `goal`.
pub open spec fn priority_spec(g: nat, p: Coord, goal: Coord) -> nat {
    g * (SCALE as nat) + heuristic_spec(p, goal)
}

/// `r` is the integer square root of `n` when `r * r <= n < (r + 1) * (r + 1)`.
pub proof fn lemma_floor_sqrt_unique(n: nat, r: nat)
    requires
        r * r <= n < (r + 1) * (r + 1),
    ensures
        floor_sqrt(n) == r,
{
    assert(r <= n) by (nonlinear_arith)
        requires
            r * r <= n,
    ;
    lemma_sqrt_below(n, r, n);
}

proof fn lemma_sqrt_below(n: nat, r: nat, k: nat)
    requires
        r * r <= n < (r + 1) * (r + 1),
        r <= k,
    ensures
        sqrt_below(n, k) == r,
    decreases k,
{
    if k > r {
        assert(k * k > n) by (nonlinear_arith)
            requires
                k >= r + 1,
                n < (r + 1) * (r + 1),
        ;
        lemma_sqrt_below(n, r, (k - 1) as nat);
    }
}

proof fn lemma_sqrt_below_bounds(n: nat, k: nat)
    requires
        n < (k + 1) * (k + 1),
    ensures
        sqrt_below(n, k) * sqrt_below(n, k) <= n < (sqrt_below(n, k) + 1) * (sqrt_below(n, k) + 1),
    decreases k,
{
    if !(k * k <= n || k == 0) {
        lemma_sqrt_below_bounds(n, (k - 1) as nat);
    }
}

/// `floor_sqrt(n)` squared is at most `n`, and its successor squared exceeds `n`.
pub proof fn lemma_floor_sqrt_bounds(n: nat)
    ensures
        floor_sqrt(n) * floor_sqrt(n) <= n < (floor_sqrt(n) + 1) * (floor_sqrt(n) + 1),
{
    assert(n < (n + 1) * (n + 1)) by (nonlinear_arith);
    lemma_sqrt_below_bounds(n, n);
}

/// One step to a touching cell changes the estimate by at most two units of
/// step cost: the estimate is consistent for steps that cost 2 or more.
pub proof fn lemma_heuristic_step(a: Coord, b: Coord, goal: Coord)
    requires
        -1 <= a.0 - b.0 <= 1,
        -1 <= a.1 - b.1 <= 1,
    ensures
        heuristic_spec(a, goal) <= 2 * SCALE + heuristic_spec(b, goal),
{
    reveal(heuristic_spec);
    let ss = (SCALE * SCALE) as nat;
    let s = SCALE as int;
    let da = dist_sq(a, goal);
    let db = dist_sq(b, goal);
    let ra = floor_sqrt(da * ss);
    let r = floor_sqrt(db * ss);
    lemma_floor_sqrt_bounds(da * ss);
    lemma_floor_sqrt_bounds(db * ss);
    let dx = b.0 - goal.0;
    let dy = b.1 - goal.1;
    let ex = a.0 - b.0;
    let ey = a.1 - b.1;
    let t = (if dx >= 0 { dx } else { -dx }) + (if dy >= 0 { dy } else { -dy });
    assert(dx * dx + dy * dy >= 0) by (nonlinear_arith);
    assert((dx + ex) * (dx + ex) + (dy + ey) * (dy + ey) >= 0) by (nonlinear_arith);
    assert(db == dx * dx + dy * dy);
    assert(a.0 - goal.0 == dx + ex && a.1 - goal.1 == dy + ey);
    assert(da == (dx + ex) * (dx + ex) + (dy + ey) * (dy + ey));
    assert(da <= db + 2 * t + 2) by (nonlinear_arith)
        requires
            da == (dx + ex) * (dx + ex) + (dy + ey) * (dy + ey),
            db == dx * dx + dy * dy,
            -1 <= ex <= 1,
            -1 <= ey <= 1,
            t == (if dx >= 0 { dx } else { -dx }) + (if dy >= 0 { dy } else { -dy }),
    ;
    assert(t * t <= 2 * db) by (nonlinear_arith)
        requires
            db == dx * dx + dy * dy,
            t == (if dx >= 0 { dx } else { -dx }) + (if dy >= 0 { dy } else { -dy }),
    ;
    assert(db * ss < (r + 1) * (r + 1));
    assert(s * t <= 2 * (r + 1)) by (nonlinear_arith)
        requires
            t * t <= 2 * db,
            db * (s * s) < (r + 1) * (r + 1),
            t >= 0,
            r >= 0,
            s > 0,
    ;
    assert(da * ss < (r + 1 + 2 * s) * (r + 1 + 2 * s)) by (nonlinear_arith)
        requires
            da <= db + 2 * t + 2,
            db * (s * s) < (r + 1) * (r + 1),
            s * t <= 2 * (r + 1),
            ss == s * s,
            t >= 0,
            s > 0,
            r >= 0,
    ;
    assert(ra < r + 1 + 2 * s) by (nonlinear_arith)
        requires
            ra * ra <= da * ss,
            da * ss < (r + 1 + 2 * s) * (r + 1 + 2 * s),
            ra >= 0,
            r >= 0,
            s > 0,
    ;
}

/// The integer square root of `n`.
pub fn isqrt(n: u128) -> (r: u128)
    ensures
        r == floor_sqrt(n as nat),
        r < 0x1_0000_0000_0000_0000u128,
{
    let mut lo: u128 = 0;
    let mut hi: u128 = 0x1_0000_0000_0000_0000;
    assert(n < hi * hi) by (nonlinear_arith)
        requires
            hi == 0x1_0000_0000_0000_0000u128,
            n <= u128::MAX,
    ;
    while hi - lo > 1
        invariant
            lo < hi <= 0x1_0000_0000_0000_0000u128,
            lo * lo <= n,
            n < hi * hi,
        decreases hi - lo,
    {
        let mid = lo + (hi - lo) / 2;
        assert(mid * mid < 0x1_0000_0000_0000_0000_0000_0000_0000_0000int) by (nonlinear_arith)
            requires
                mid < 0x1_0000_0000_0000_0000u128,
        ;
        if mid * mid <= n {
            lo = mid;
        } else {
            hi = mid;
        }
    }
    proof {
        lemma_floor_sqrt_unique(n as nat, lo as nat);
    }
    lo
}

/// The distance estimate from `p` to `goal`, `heuristic_spec(p, goal)`; `None`
/// where it does not fit the arithmetic (cells about 2^48 apart).
pub fn heuristic(p: Coord, goal: Coord) -> (r: Option<u128>)
    ensures
        r matches Some(h) ==> h == heuristic_spec(p, goal) && h < 0x1_0000_0000_0000_0000u128,
        dist_sq(p, goal) * (SCALE * SCALE) as nat <= u128::MAX ==> r is Some,
{
    let dx: u128 = if p.0 >= goal.0 {
        (p.0 - goal.0) as u128
    } else {
        (goal.0 - p.0) as u128
    };
    let dy: u128 = if p.1 >= goal.1 {
        (p.1 - goal.1) as u128
    } else {
        (goal.1 - p.1) as u128
    };
    assert(dx * dx <= u128::MAX && dy * dy <= u128::MAX) by (nonlinear_arith)
        requires
            dx <= usize::MAX,
            dy <= usize::MAX,
    ;
    assert(dist_sq(p, goal) == dx * dx + dy * dy) by (nonlinear_arith)
        requires
            dx == p.0 - goal.0 || dx == goal.0 - p.0,
            dy == p.1 - goal.1 || dy == goal.1 - p.1,
    ;
    let d = match (dx * dx).checked_add(dy * dy) {
        Some(d) => d,
        None => {
            assert(dist_sq(p, goal) * (SCALE * SCALE) as nat > u128::MAX) by (nonlinear_arith)
                requires
                    dx * dx + dy * dy > u128::MAX,
                    dist_sq(p, goal) == dx * dx + dy * dy,
            ;
            return None;
        },
    };
    match d.checked_mul(SCALE * SCALE) {
        Some(scaled) => {
            assert(scaled == dist_sq(p, goal) * (SCALE * SCALE) as nat) by (nonlinear_arith)
                requires
                    scaled == d * (SCALE * SCALE),
                    d == dist_sq(p, goal),
            ;
            let r = isqrt(scaled);
            proof {
                reveal(heuristic_spec);
            }
            Some(r)
        },
        None => {
            assert(dist_sq(p, goal) * (SCALE * SCALE) as nat > u128::MAX) by (nonlinear_arith)
                requires
                    d * (SCALE * SCALE) > u128::MAX,
                    d == dist_sq(p, goal),
            ;
            None
        },
    }
}

} // verus!
