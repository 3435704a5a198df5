//! Planar integer geometry: the turn test and the lexicographic order on points.

use vstd::prelude::*;

verus! {

/// The cross product `(b - a) x (c - a)`: positive when `a -> b -> c` turns
/// left, negative when it turns right, zero when the three are collinear.
#[verifier::opaque]
pub open spec fn cross_spec(a: (i32, i32), b: (i32, i32), c: (i32, i32)) -> int {
    (b.0 - a.0) * (c.1 - a.1) - (b.1 - a.1) * (c.0 - a.0)
}

/// `a` comes strictly before `b` when ordered by `x`, then by `y`.
pub open spec fn lex_lt(a: (i32, i32), b: (i32, i32)) -> bool {
    a.0 < b.0 || (a.0 == b.0 && a.1 < b.1)
}

/// `a` comes before `b`, or is `b`, when ordered by `x`, then by `y`.
pub open spec fn lex_le(a: (i32, i32), b: (i32, i32)) -> bool {
    a.0 < b.0 || (a.0 == b.0 && a.1 <= b.1)
}

/// Among three vectors of one closed half-plane, "turns left of" is transitive
/// through a non-zero middle vector.
pub proof fn lemma_turn_transitive(ux: int, uy: int, vx: int, vy: int, wx: int, wy: int)
    by (nonlinear_arith)
    requires
        ux > 0 || (ux == 0 && uy >= 0),
        vx > 0 || (vx == 0 && vy > 0),
        wx > 0 || (wx == 0 && wy >= 0),
        ux * vy - uy * vx >= 0,
        vx * wy - vy * wx >= 0,
    ensures
        ux * wy - uy * wx >= 0,
{
    if vx > 0 {
        assert(vx * (ux * wy - uy * wx) == ux * (vx * wy - vy * wx) + wx * (ux * vy - uy * vx));
        assert(ux * (vx * wy - vy * wx) >= 0);
        assert(wx * (ux * vy - uy * vx) >= 0);
        assert(vx * (ux * wy - uy * wx) >= 0);
    } else {
        assert(vy * wx <= 0);
        assert(wx == 0);
        assert(ux * wy >= 0);
    }
}

/// The same for three vectors of the opposite half-plane.
pub proof fn lemma_turn_transitive_backward(ux: int, uy: int, vx: int, vy: int, wx: int, wy: int)
    requires
        ux < 0 || (ux == 0 && uy <= 0),
        vx < 0 || (vx == 0 && vy < 0),
        wx < 0 || (wx == 0 && wy <= 0),
        ux * vy - uy * vx >= 0,
        vx * wy - vy * wx >= 0,
    ensures
        ux * wy - uy * wx >= 0,
{
    assert((-ux) * (-vy) - (-uy) * (-vx) == ux * vy - uy * vx) by (nonlinear_arith);
    assert((-vx) * (-wy) - (-vy) * (-wx) == vx * wy - vy * wx) by (nonlinear_arith);
    assert((-ux) * (-wy) - (-uy) * (-wx) == ux * wy - uy * wx) by (nonlinear_arith);
    lemma_turn_transitive(-ux, -uy, -vx, -vy, -wx, -wy);
}

/// The turn test on three points, computed without overflow.
pub fn cross(a: (i32, i32), b: (i32, i32), c: (i32, i32)) -> (r: i128)
    ensures
        r == cross_spec(a, b, c),
{
    reveal(cross_spec);
    let abx: i128 = b.0 as i128 - a.0 as i128;
    let aby: i128 = b.1 as i128 - a.1 as i128;
    let acx: i128 = c.0 as i128 - a.0 as i128;
    let acy: i128 = c.1 as i128 - a.1 as i128;
    assert(-0x1_0000_0000_0000_0000 <= abx * acy <= 0x1_0000_0000_0000_0000) by (nonlinear_arith)
        requires
            -0x1_0000_0000 <= abx <= 0x1_0000_0000,
            -0x1_0000_0000 <= acy <= 0x1_0000_0000,
    ;
    assert(-0x1_0000_0000_0000_0000 <= aby * acx <= 0x1_0000_0000_0000_0000) by (nonlinear_arith)
        requires
            -0x1_0000_0000 <= aby <= 0x1_0000_0000,
            -0x1_0000_0000 <= acx <= 0x1_0000_0000,
    ;
    abx * acy - aby * acx
}

} // verus!
