//! Convex hulls by Andrew's monotone chain.

use vstd::prelude::*;
use crate::geometry::{cross, cross_spec, lex_le, lex_lt};
use crate::geometry::{lemma_turn_transitive, lemma_turn_transitive_backward};

verus! {

/// Why no hull could be built.
#[derive(Debug, Clone, Copy, PartialEq, Eq, Structural)]
pub enum HullError {
    /// The cell at this position of the input has fewer than three distinct points.
    InsufficientPoints { cell: usize },
}

/// At least three pairwise different points occur in `pts`.
pub open spec fn has_three_distinct(pts: Seq<(i32, i32)>) -> bool {
    exists|i: int, j: int, k: int|
        0 <= i < pts.len() && 0 <= j < pts.len() && 0 <= k < pts.len() && #[trigger] pts[i]
            != #[trigger] pts[j] && pts[j] != #[trigger] pts[k] && pts[i] != pts[k]
}

/// The position that follows `i` on a closed polygon of `n` vertices.
pub open spec fn succ(i: int, n: int) -> int {
    if i + 1 >= n {
        0
    } else {
        i + 1
    }
}

/// The side of the polygon's edge that leaves vertex `i` on which `q` lies:
/// positive to its left, zero on its line.
pub open spec fn edge_side(h: Seq<(i32, i32)>, i: int, q: (i32, i32)) -> int {
    cross_spec(h[i], h[succ(i, h.len() as int)], q)
}

/// The turn that the closed polygon makes at the vertex after `i`.
pub open spec fn corner_turn(h: Seq<(i32, i32)>, i: int) -> int {
    let n = h.len() as int;
    cross_spec(h[i], h[succ(i, n)], h[succ(succ(i, n), n)])
}

/// `h` is the convex hull of `pts`, walked counter-clockwise from the
/// lexicographically smallest point.
///
/// Every vertex is one of the points; every point lies to the left of, or on,
/// every edge; and with three vertices or more the walk turns strictly left at
/// each of them. Two vertices are left when all points lie on one line: they
/// are then the smallest and the largest point.
pub open spec fn is_convex_hull_of(h: Seq<(i32, i32)>, pts: Seq<(i32, i32)>) -> bool {
    let n = h.len() as int;
    &&& n >= 2
    &&& forall|i: int| 0 <= i < n ==> pts.contains(#[trigger] h[i])
    &&& forall|j: int| 0 <= j < pts.len() ==> lex_le(h[0], #[trigger] pts[j])
    &&& forall|i: int, j: int|
        0 <= i < n && 0 <= j < pts.len() ==> #[trigger] edge_side(h, i, pts[j]) >= 0
    &&& n >= 3 ==> forall|i: int| 0 <= i < n ==> #[trigger] corner_turn(h, i) > 0
    &&& n == 2 ==> forall|j: int| 0 <= j < pts.len() ==> lex_le(#[trigger] pts[j], h[1])
}

/// `a` comes strictly before `b` in the direction of the walk.
pub open spec fn before(a: (i32, i32), b: (i32, i32), backward: bool) -> bool {
    if backward {
        lex_lt(b, a)
    } else {
        lex_lt(a, b)
    }
}

/// The points are listed strictly in the direction of the walk.
pub open spec fn monotone(seq: Seq<(i32, i32)>, backward: bool) -> bool {
    forall|i: int, j: int|
        0 <= i < j < seq.len() ==> before(#[trigger] seq[i], #[trigger] seq[j], backward)
}

/// The points are listed in ascending order; equal neighbours are allowed.
pub open spec fn ascending(seq: Seq<(i32, i32)>) -> bool {
    forall|i: int, j: int| 0 <= i < j < seq.len() ==> lex_le(#[trigger] seq[i], #[trigger] seq[j])
}

/// The turn that an open chain makes at the point after position `a`.
pub open spec fn turn_at(chain: Seq<(i32, i32)>, a: int) -> int {
    cross_spec(chain[a], chain[a + 1], chain[a + 2])
}

/// The side of the chain's edge from position `a` on which `q` lies.
pub open spec fn side(chain: Seq<(i32, i32)>, a: int, q: (i32, i32)) -> int {
    cross_spec(chain[a], chain[a + 1], q)
}

/// Every three consecutive points of the chain turn strictly left.
pub open spec fn left_turns(chain: Seq<(i32, i32)>) -> bool {
    forall|a: int| 0 <= a && a + 2 < chain.len() ==> #[trigger] turn_at(chain, a) > 0
}

/// Each of the first `count` points lies to the left of, or on, every edge of the chain.
pub open spec fn keeps_left(chain: Seq<(i32, i32)>, pts: Seq<(i32, i32)>, count: int) -> bool {
    forall|a: int, j: int|
        0 <= a && a + 1 < chain.len() && 0 <= j < count ==> #[trigger] side(chain, a, pts[j]) >= 0
}

/// `chain` is the half hull of `seq`: it runs from the first point to the last,
/// in the direction of the walk, turns left at every inner vertex and leaves
/// no point to its right.
pub open spec fn is_chain(chain: Seq<(i32, i32)>, seq: Seq<(i32, i32)>, backward: bool) -> bool {
    &&& chain.len() >= 2
    &&& chain[0] == seq[0]
    &&& chain[chain.len() - 1] == seq[seq.len() - 1]
    &&& forall|a: int| 0 <= a < chain.len() ==> seq.contains(#[trigger] chain[a])
    &&& monotone(chain, backward)
    &&& left_turns(chain)
    &&& keeps_left(chain, seq, seq.len() as int)
}

/// `idx` names, for each point of the chain, its position among the first
/// `count` points of `seq`; the positions ascend from zero.
pub open spec fn tracks(chain: Seq<(i32, i32)>, idx: Seq<int>, seq: Seq<(i32, i32)>, count: int) -> bool {
    &&& chain.len() == idx.len()
    &&& chain.len() >= 1
    &&& idx[0] == 0
    &&& forall|a: int| 0 <= a < idx.len() ==> 0 <= #[trigger] idx[a] < count
    &&& forall|a: int| 0 <= a < idx.len() ==> #[trigger] chain[a] == seq[idx[a]]
    &&& forall|a: int, b: int| 0 <= a < b < idx.len() ==> #[trigger] idx[a] < #[trigger] idx[b]
}

/// When the chain's last point `b` lies right of, or on, the way from `a` to
/// the coming point `r`, every point `q` left of `a -> b` is left of `a -> r`.
proof fn lemma_pop(a: (i32, i32), b: (i32, i32), r: (i32, i32), q: (i32, i32), backward: bool)
    requires
        before(a, b, backward),
        a == r || before(a, r, backward),
        a == q || before(a, q, backward),
        cross_spec(a, b, r) <= 0,
        cross_spec(a, b, q) >= 0,
    ensures
        cross_spec(a, r, q) >= 0,
{
    reveal(cross_spec);
    let bx = b.0 - a.0;
    let by = b.1 - a.1;
    let rx = r.0 - a.0;
    let ry = r.1 - a.1;
    let qx = q.0 - a.0;
    let qy = q.1 - a.1;
    assert(rx * by - ry * bx == -(bx * ry - by * rx)) by (nonlinear_arith);
    if backward {
        lemma_turn_transitive_backward(rx, ry, bx, by, qx, qy);
    } else {
        lemma_turn_transitive(rx, ry, bx, by, qx, qy);
    }
}

/// When the walk turns left at `b` towards `r`, a point `q` that is not past
/// `b` and lies left of `a -> b` lies left of `b -> r` too.
proof fn lemma_new_edge(a: (i32, i32), b: (i32, i32), r: (i32, i32), q: (i32, i32), backward: bool)
    requires
        before(a, b, backward),
        before(b, r, backward),
        q == b || before(q, b, backward),
        cross_spec(a, b, q) >= 0,
        cross_spec(a, b, r) > 0,
    ensures
        cross_spec(b, r, q) >= 0,
{
    reveal(cross_spec);
    let ex = b.0 - a.0;
    let ey = b.1 - a.1;
    let mx = b.0 - q.0;
    let my = b.1 - q.1;
    let px = r.0 - b.0;
    let py = r.1 - b.1;
    assert(mx * ey - my * ex == ex * (ey - my) - ey * (ex - mx)) by (nonlinear_arith);
    assert(ex * py - ey * px == ex * (ey + py) - ey * (ex + px)) by (nonlinear_arith);
    assert(mx * py - my * px == px * (-my) - py * (-mx)) by (nonlinear_arith);
    assert(q.1 - a.1 == ey - my && q.0 - a.0 == ex - mx);
    assert(r.1 - a.1 == ey + py && r.0 - a.0 == ex + px);
    assert(q.1 - b.1 == -my && q.0 - b.0 == -mx);
    if backward {
        lemma_turn_transitive_backward(mx, my, ex, ey, px, py);
    } else {
        lemma_turn_transitive(mx, my, ex, ey, px, py);
    }
}

/// A point `r` at or past `c` that lies left of `b -> c` lies strictly left of
/// the edge `a -> b` before it, when the walk turns left at `b`.
proof fn lemma_extend(a: (i32, i32), b: (i32, i32), c: (i32, i32), r: (i32, i32), backward: bool)
    requires
        before(a, b, backward),
        before(b, c, backward),
        c == r || before(c, r, backward),
        cross_spec(a, b, c) > 0,
        cross_spec(b, c, r) >= 0,
    ensures
        cross_spec(a, b, r) > 0,
{
    reveal(cross_spec);
    let ux = b.0 - a.0;
    let uy = b.1 - a.1;
    let vx = c.0 - b.0;
    let vy = c.1 - b.1;
    let wx = r.0 - c.0;
    let wy = r.1 - c.1;
    assert(ux * vy - uy * vx == ux * (uy + vy) - uy * (ux + vx)) by (nonlinear_arith);
    assert(vx * wy - vy * wx == vx * (vy + wy) - vy * (vx + wx)) by (nonlinear_arith);
    assert(ux * (uy + vy + wy) - uy * (ux + vx + wx) == (ux * vy - uy * vx) + (ux * wy - uy * wx))
        by (nonlinear_arith);
    assert(c.1 - a.1 == uy + vy && c.0 - a.0 == ux + vx);
    assert(r.1 - b.1 == vy + wy && r.0 - b.0 == vx + wx);
    assert(r.1 - a.1 == uy + vy + wy && r.0 - a.0 == ux + vx + wx);
    if backward {
        lemma_turn_transitive_backward(ux, uy, vx, vy, wx, wy);
    } else {
        lemma_turn_transitive(ux, uy, vx, vy, wx, wy);
    }
}

/// The coming point `r` lies left of every edge of a chain whose last edge it
/// lies strictly left of.
proof fn lemma_chain_sees(chain: Seq<(i32, i32)>, r: (i32, i32), backward: bool, a: int)
    requires
        chain.len() >= 2,
        monotone(chain, backward),
        left_turns(chain),
        before(chain[chain.len() - 1], r, backward),
        cross_spec(chain[chain.len() - 2], chain[chain.len() - 1], r) > 0,
        0 <= a && a + 1 < chain.len(),
    ensures
        cross_spec(chain[a], chain[a + 1], r) > 0,
    decreases chain.len() - a,
{
    if a + 2 < chain.len() {
        lemma_chain_sees(chain, r, backward, a + 1);
        let last = chain.len() - 1;
        assert(turn_at(chain, a) > 0);
        assert(before(chain[a], chain[a + 1], backward));
        assert(before(chain[a + 1], chain[a + 2], backward));
        assert(chain[a + 2] == chain[last] || before(chain[a + 2], chain[last], backward));
        lemma_extend(chain[a], chain[a + 1], chain[a + 2], r, backward);
    }
}

/// What holds of the chain once the first `count` points of `seq` are worked in.
pub open spec fn chain_inv(
    chain: Seq<(i32, i32)>,
    idx: Seq<int>,
    seq: Seq<(i32, i32)>,
    count: int,
    backward: bool,
) -> bool {
    &&& tracks(chain, idx, seq, count)
    &&& monotone(chain, backward)
    &&& left_turns(chain)
    &&& keeps_left(chain, seq, count)
}

/// While points are taken off the chain for the coming point `r`: the points
/// worked in at or after the chain's last one lie left of the way from it to `r`.
pub open spec fn pending(
    chain: Seq<(i32, i32)>,
    idx: Seq<int>,
    seq: Seq<(i32, i32)>,
    count: int,
    r: (i32, i32),
) -> bool {
    forall|j: int|
        idx[idx.len() - 1] <= j < count ==> cross_spec(
            chain[chain.len() - 1],
            r,
            #[trigger] seq[j],
        ) >= 0
}

/// Before any point is taken off, only the chain's last point is at issue.
proof fn lemma_pending_start(
    chain: Seq<(i32, i32)>,
    idx: Seq<int>,
    seq: Seq<(i32, i32)>,
    i: int,
    backward: bool,
)
    requires
        chain_inv(chain, idx, seq, i, backward),
        idx[idx.len() - 1] == i - 1,
        1 <= i < seq.len(),
    ensures
        pending(chain, idx, seq, i, seq[i]),
{
    let top = chain[chain.len() - 1];
    let r = seq[i];
    assert(top == seq[idx[idx.len() - 1]]);
    assert(cross_spec(top, r, top) == 0) by (nonlinear_arith) {
        reveal(cross_spec);
    }
}

/// Taking the last point off a chain that turns right at it keeps the chain in order.
proof fn lemma_pop_step(
    chain: Seq<(i32, i32)>,
    idx: Seq<int>,
    seq: Seq<(i32, i32)>,
    i: int,
    backward: bool,
)
    requires
        monotone(seq, backward),
        chain_inv(chain, idx, seq, i, backward),
        1 <= i < seq.len(),
        pending(chain, idx, seq, i, seq[i]),
        chain.len() >= 2,
        cross_spec(chain[chain.len() - 2], chain[chain.len() - 1], seq[i]) <= 0,
    ensures
        chain_inv(chain.drop_last(), idx.drop_last(), seq, i, backward),
        pending(chain.drop_last(), idx.drop_last(), seq, i, seq[i]),
{
    let r = seq[i];
    let top = chain.len() - 1;
    let a = chain[top - 1];
    let b = chain[top];
    let rest = chain.drop_last();
    let ridx = idx.drop_last();
    assert(before(a, b, backward));
    assert(a == seq[idx[top - 1]]);
    assert(idx[top - 1] < idx[top]);
    assert(idx[top - 1] < i);
    assert(before(a, r, backward));
    assert forall|j: int| ridx[ridx.len() - 1] <= j < i implies cross_spec(
        rest[rest.len() - 1],
        r,
        #[trigger] seq[j],
    ) >= 0 by {
        assert(a == seq[j] || before(a, seq[j], backward));
        assert(side(chain, top - 1, seq[j]) >= 0);
        lemma_pop(a, b, r, seq[j], backward);
    }
    assert forall|x: int| 0 <= x && x + 2 < rest.len() implies #[trigger] turn_at(rest, x) > 0 by {
        assert(turn_at(chain, x) > 0);
    }
    assert forall|x: int, j: int|
        0 <= x && x + 1 < rest.len() && 0 <= j < i implies #[trigger] side(rest, x, seq[j])
        >= 0 by {
        assert(side(chain, x, seq[j]) >= 0);
    }
    assert forall|x: int, y: int| 0 <= x < y < rest.len() implies before(
        #[trigger] rest[x],
        #[trigger] rest[y],
        backward,
    ) by {
        assert(before(chain[x], chain[y], backward));
    }
    assert forall|x: int| 0 <= x < ridx.len() implies #[trigger] rest[x] == seq[ridx[x]] by {
        assert(chain[x] == seq[idx[x]]);
    }
    assert forall|x: int, y: int| 0 <= x < y < ridx.len() implies #[trigger] ridx[x]
        < #[trigger] ridx[y] by {
        assert(idx[x] < idx[y]);
    }
    assert forall|x: int| 0 <= x < ridx.len() implies 0 <= #[trigger] ridx[x] < i by {
        assert(0 <= idx[x] < i);
    }
}

/// Appending the coming point to a chain that turns left towards it keeps the
/// chain in order, now with that point worked in.
proof fn lemma_push_step(
    chain: Seq<(i32, i32)>,
    idx: Seq<int>,
    seq: Seq<(i32, i32)>,
    i: int,
    backward: bool,
)
    requires
        monotone(seq, backward),
        chain_inv(chain, idx, seq, i, backward),
        1 <= i < seq.len(),
        pending(chain, idx, seq, i, seq[i]),
        chain.len() >= 2 ==> cross_spec(chain[chain.len() - 2], chain[chain.len() - 1], seq[i]) > 0,
    ensures
        chain_inv(chain.push(seq[i]), idx.push(i), seq, i + 1, backward),
{
    let r = seq[i];
    let top = chain.len() - 1;
    let b = chain[top];
    let grown = chain.push(r);
    let gidx = idx.push(i);
    assert(b == seq[idx[top]]);
    assert(idx[top] < i);
    assert(before(b, r, backward));
    assert forall|x: int, y: int| 0 <= x < y < grown.len() implies before(
        #[trigger] grown[x],
        #[trigger] grown[y],
        backward,
    ) by {
        if y == grown.len() - 1 {
            assert(chain[x] == seq[idx[x]]);
            assert(idx[x] < i);
        } else {
            assert(before(chain[x], chain[y], backward));
        }
    }
    assert forall|x: int| 0 <= x && x + 2 < grown.len() implies #[trigger] turn_at(grown, x)
        > 0 by {
        if x + 2 < chain.len() {
            assert(turn_at(chain, x) > 0);
        }
    }
    assert forall|x: int, j: int|
        0 <= x && x + 1 < grown.len() && 0 <= j < i + 1 implies #[trigger] side(
        grown,
        x,
        seq[j],
    ) >= 0 by {
        if x + 1 < chain.len() {
            if j < i {
                assert(side(chain, x, seq[j]) >= 0);
            } else {
                lemma_chain_sees(chain, r, backward, x);
            }
        } else {
            if j == i {
                assert(cross_spec(b, r, r) == 0) by (nonlinear_arith) {
                    reveal(cross_spec);
                }
            } else if idx[top] <= j {
                assert(cross_spec(chain[chain.len() - 1], r, seq[j]) >= 0);
            } else {
                assert(idx[0] == 0);
                assert(top >= 1);
                let a = chain[top - 1];
                assert(before(a, b, backward));
                assert(before(seq[j], seq[idx[top]], backward));
                assert(side(chain, top - 1, seq[j]) >= 0);
                lemma_new_edge(a, b, r, seq[j], backward);
            }
        }
    }
    assert forall|x: int| 0 <= x < gidx.len() implies #[trigger] grown[x] == seq[gidx[x]] by {
        if x < chain.len() {
            assert(chain[x] == seq[idx[x]]);
        }
    }
    assert forall|x: int, y: int| 0 <= x < y < gidx.len() implies #[trigger] gidx[x]
        < #[trigger] gidx[y] by {
        if y < idx.len() {
            assert(idx[x] < idx[y]);
        } else {
            assert(0 <= idx[x] < i);
        }
    }
    assert forall|x: int| 0 <= x < gidx.len() implies 0 <= #[trigger] gidx[x] < i + 1 by {
        if x < idx.len() {
            assert(0 <= idx[x] < i);
        }
    }
}

/// With every point worked in, the chain is the half hull.
proof fn lemma_chain_done(chain: Seq<(i32, i32)>, idx: Seq<int>, seq: Seq<(i32, i32)>, backward: bool)
    requires
        monotone(seq, backward),
        seq.len() >= 2,
        chain_inv(chain, idx, seq, seq.len() as int, backward),
        idx[idx.len() - 1] == seq.len() - 1,
    ensures
        is_chain(chain, seq, backward),
{
    assert forall|a: int| 0 <= a < chain.len() implies seq.contains(#[trigger] chain[a]) by {
        assert(chain[a] == seq[idx[a]]);
        assert(0 <= idx[a] < seq.len());
    }
    assert(chain[0] == seq[idx[0]]);
    assert(chain[chain.len() - 1] == seq[idx[idx.len() - 1]]);
}

/// Builds one half of the hull over points listed in the direction of the walk.
fn build_chain(seq: &Vec<(i32, i32)>, backward: bool) -> (chain: Vec<(i32, i32)>)
    requires
        monotone(seq@, backward),
        seq.len() >= 2,
    ensures
        is_chain(chain@, seq@, backward),
{
    let n = seq.len();
    let mut chain: Vec<(i32, i32)> = Vec::new();
    chain.push(seq[0]);
    let ghost mut idx: Seq<int> = seq![0int];
    let mut i: usize = 1;
    while i < n
        invariant
            1 <= i <= n,
            n == seq.len(),
            monotone(seq@, backward),
            chain_inv(chain@, idx, seq@, i as int, backward),
            idx[idx.len() - 1] == i - 1,
        decreases n - i,
    {
        let r = seq[i];
        proof {
            lemma_pending_start(chain@, idx, seq@, i as int, backward);
        }
        while chain.len() >= 2 && cross(chain[chain.len() - 2], chain[chain.len() - 1], r) <= 0
            invariant
                1 <= i < n,
                n == seq.len(),
                r == seq@[i as int],
                monotone(seq@, backward),
                chain_inv(chain@, idx, seq@, i as int, backward),
                pending(chain@, idx, seq@, i as int, r),
            decreases chain.len(),
        {
            proof {
                lemma_pop_step(chain@, idx, seq@, i as int, backward);
            }
            chain.pop();
            proof {
                idx = idx.drop_last();
            }
        }
        proof {
            lemma_push_step(chain@, idx, seq@, i as int, backward);
        }
        chain.push(r);
        proof {
            idx = idx.push(i as int);
        }
        i += 1;
    }
    proof {
        lemma_chain_done(chain@, idx, seq@, backward);
    }
    chain
}

/// Where one chain ends at `b` and the returning chain begins, the walk does
/// not go straight on when the first chain turned left just before: the point
/// before that turn would otherwise lie right of the returning chain's first edge.
proof fn lemma_junction_first(
    xp: (i32, i32),
    x: (i32, i32),
    b: (i32, i32),
    y: (i32, i32),
    backward: bool,
)
    requires
        before(xp, x, backward),
        before(x, b, backward),
        before(y, b, backward),
        cross_spec(xp, x, b) > 0,
        cross_spec(b, y, xp) >= 0,
    ensures
        cross_spec(x, b, y) != 0,
{
    reveal(cross_spec);
    let xx = x.0 - b.0;
    let xy = x.1 - b.1;
    let yx = y.0 - b.0;
    let yy = y.1 - b.1;
    let zx = xp.0 - b.0;
    let zy = xp.1 - b.1;
    assert(xx * yy - xy * yx == -((-xx) * (yy - xy) - (-xy) * (yx - xx))) by (nonlinear_arith);
    assert((xx - zx) * (-zy) - (xy - zy) * (-zx) == -(xx * zy - xy * zx)) by (nonlinear_arith);
    assert(b.0 - x.0 == -xx && b.1 - x.1 == -xy);
    assert(y.1 - x.1 == yy - xy && y.0 - x.0 == yx - xx);
    assert(x.0 - xp.0 == xx - zx && x.1 - xp.1 == xy - zy);
    assert(b.1 - xp.1 == -zy && b.0 - xp.0 == -zx);
    if cross_spec(x, b, y) == 0 {
        if backward {
            lemma_turn_transitive(xx, xy, yx, yy, zx, zy);
        } else {
            lemma_turn_transitive_backward(xx, xy, yx, yy, zx, zy);
        }
    }
}

/// The same where the returning chain turns left right after the junction.
proof fn lemma_junction_second(
    x: (i32, i32),
    b: (i32, i32),
    y: (i32, i32),
    yp: (i32, i32),
    backward: bool,
)
    requires
        before(x, b, backward),
        before(y, b, backward),
        before(yp, y, backward),
        cross_spec(b, y, yp) > 0,
        cross_spec(x, b, yp) >= 0,
    ensures
        cross_spec(x, b, y) != 0,
{
    reveal(cross_spec);
    let xx = x.0 - b.0;
    let xy = x.1 - b.1;
    let yx = y.0 - b.0;
    let yy = y.1 - b.1;
    let zx = yp.0 - b.0;
    let zy = yp.1 - b.1;
    assert(xx * yy - xy * yx == -((-xx) * (yy - xy) - (-xy) * (yx - xx))) by (nonlinear_arith);
    assert(zx * xy - zy * xx == (-xx) * (zy - xy) - (-xy) * (zx - xx)) by (nonlinear_arith);
    assert(zx * yy - zy * yx == -(yx * zy - yy * zx)) by (nonlinear_arith);
    assert(b.0 - x.0 == -xx && b.1 - x.1 == -xy);
    assert(y.1 - x.1 == yy - xy && y.0 - x.0 == yx - xx);
    assert(yp.1 - x.1 == zy - xy && yp.0 - x.0 == zx - xx);
    if cross_spec(x, b, y) == 0 {
        if backward {
            lemma_turn_transitive(zx, zy, xx, xy, yx, yy);
        } else {
            lemma_turn_transitive_backward(zx, zy, xx, xy, yx, yy);
        }
    }
}

/// No point of the sequence lies right of an edge of its half hull.
proof fn lemma_side_of_member(
    chain: Seq<(i32, i32)>,
    seq: Seq<(i32, i32)>,
    backward: bool,
    a: int,
    q: (i32, i32),
)
    requires
        is_chain(chain, seq, backward),
        seq.contains(q),
        0 <= a && a + 1 < chain.len(),
    ensures
        cross_spec(chain[a], chain[a + 1], q) >= 0,
{
    let j = choose|j: int| 0 <= j < seq.len() && seq[j] == q;
    assert(side(chain, a, seq[j]) >= 0);
}

/// `rev` lists the points of `d` from the last to the first.
pub open spec fn mirrors(rev: Seq<(i32, i32)>, d: Seq<(i32, i32)>) -> bool {
    &&& rev.len() == d.len()
    &&& forall|j: int| 0 <= j < d.len() ==> #[trigger] rev[j] == d[d.len() - 1 - j]
}

/// The two half hulls, each without its last point, close to the convex hull.
proof fn lemma_hull_closed(
    lower: Seq<(i32, i32)>,
    upper: Seq<(i32, i32)>,
    d: Seq<(i32, i32)>,
    rev: Seq<(i32, i32)>,
)
    requires
        d.len() >= 2,
        monotone(d, false),
        mirrors(rev, d),
        is_chain(lower, d, false),
        is_chain(upper, rev, true),
    ensures
        is_convex_hull_of(lower.drop_last() + upper.drop_last(), d),
{
    let h = lower.drop_last() + upper.drop_last();
    let k = lower.len() - 1;
    let m = upper.len() - 1;
    let n = h.len() as int;
    let last = d.len() - 1;
    assert(n == k + m);
    assert(rev[0] == d[last - 0]);
    assert(rev[last] == d[last - last]);
    assert(upper[0] == lower[k]);
    assert(upper[m] == lower[0]);
    assert forall|q: (i32, i32)| rev.contains(q) <==> d.contains(q) by {
        if rev.contains(q) {
            let j = choose|j: int| 0 <= j < rev.len() && rev[j] == q;
            assert(d[last - j] == q);
        }
        if d.contains(q) {
            let j = choose|j: int| 0 <= j < d.len() && d[j] == q;
            assert(rev[last - j] == d[last - (last - j)]);
        }
    }
    // The closed walk: the edge that leaves vertex i of h.
    assert forall|i: int| 0 <= i < k implies h[i] == lower[i] && h[succ(i, n)] == lower[i + 1] by {}
    assert forall|i: int| k <= i < n implies h[i] == upper[i - k] && h[succ(i, n)] == upper[i - k + 1] by {}
    assert forall|i: int| 0 <= i < n implies d.contains(#[trigger] h[i]) by {
        if i < k {
            assert(d.contains(lower[i]));
        } else {
            assert(rev.contains(upper[i - k]));
        }
    }
    assert forall|j: int| 0 <= j < d.len() implies lex_le(h[0], #[trigger] d[j]) by {
        assert(h[0] == d[0]);
        if j > 0 {
            assert(before(d[0], d[j], false));
        }
    }
    assert forall|i: int, j: int| 0 <= i < n && 0 <= j < d.len() implies #[trigger] edge_side(
        h,
        i,
        d[j],
    ) >= 0 by {
        assert(d.contains(d[j]));
        if i < k {
            lemma_side_of_member(lower, d, false, i, d[j]);
        } else {
            lemma_side_of_member(upper, rev, true, i - k, d[j]);
        }
    }
    if n >= 3 {
        assert forall|i: int| 0 <= i < n implies #[trigger] corner_turn(h, i) > 0 by {
            let i1 = succ(i, n);
            let i2 = succ(i1, n);
            if i + 2 <= k {
                assert(h[i2] == lower[i + 2]);
                assert(turn_at(lower, i) > 0);
            } else if i == k - 1 {
                let x = lower[k - 1];
                let b = lower[k];
                let y = upper[1];
                assert(h[i2] == y);
                assert(before(lower[k - 1], lower[k], false));
                assert(before(upper[0], upper[1], true));
                assert(d.contains(y)) by {
                    assert(rev.contains(upper[1]));
                }
                lemma_side_of_member(lower, d, false, k - 1, y);
                {
                    if k >= 2 {
                        let xp = lower[k - 2];
                        assert(before(lower[k - 2], lower[k - 1], false));
                        assert(turn_at(lower, k - 2) > 0);
                        assert(rev.contains(xp)) by {
                            assert(d.contains(lower[k - 2]));
                        }
                        lemma_side_of_member(upper, rev, true, 0, xp);
                        lemma_junction_first(xp, x, b, y, false);
                    } else {
                        let yp = upper[2];
                        assert(before(upper[1], upper[2], true));
                        assert(turn_at(upper, 0) > 0);
                        assert(d.contains(yp)) by {
                            assert(rev.contains(upper[2]));
                        }
                        lemma_side_of_member(lower, d, false, 0, yp);
                        lemma_junction_second(x, b, y, yp, false);
                    }
                }
            } else if i + 2 <= n {
                assert(h[i2] == upper[i - k + 2]);
                assert(turn_at(upper, i - k) > 0);
            } else {
                let x = upper[m - 1];
                let b = upper[m];
                let y = lower[1];
                assert(i == n - 1);
                assert(h[i1] == lower[0]);
                assert(h[i2] == y);
                assert(before(upper[m - 1], upper[m], true));
                assert(before(lower[0], lower[1], false));
                assert(rev.contains(y)) by {
                    assert(d.contains(lower[1]));
                }
                lemma_side_of_member(upper, rev, true, m - 1, y);
                {
                    if m >= 2 {
                        let xp = upper[m - 2];
                        assert(before(upper[m - 2], upper[m - 1], true));
                        assert(turn_at(upper, m - 2) > 0);
                        assert(d.contains(xp)) by {
                            assert(rev.contains(upper[m - 2]));
                        }
                        lemma_side_of_member(lower, d, false, 0, xp);
                        lemma_junction_first(xp, x, b, y, true);
                    } else {
                        let yp = lower[2];
                        assert(before(lower[1], lower[2], false));
                        assert(turn_at(lower, 0) > 0);
                        assert(rev.contains(yp)) by {
                            assert(d.contains(lower[2]));
                        }
                        lemma_side_of_member(upper, rev, true, 0, yp);
                        lemma_junction_second(x, b, y, yp, true);
                    }
                }
            }
        }
    }
    if n == 2 {
        assert(h[1] == d[last]);
        assert forall|j: int| 0 <= j < d.len() implies lex_le(#[trigger] d[j], h[1]) by {
            if j < last {
                assert(before(d[j], d[last], false));
            }
        }
    }
}

/// The points of `d`, from the last to the first.
fn reversed(d: &Vec<(i32, i32)>) -> (rev: Vec<(i32, i32)>)
    ensures
        mirrors(rev@, d@),
{
    let n = d.len();
    let mut rev: Vec<(i32, i32)> = Vec::new();
    let mut i: usize = 0;
    while i < n
        invariant
            i <= n,
            n == d.len(),
            rev.len() == i,
            forall|j: int| 0 <= j < i ==> #[trigger] rev@[j] == d@[n - 1 - j],
        decreases n - i,
    {
        rev.push(d[n - 1 - i]);
        i += 1;
    }
    rev
}

/// The convex hull of at least two points listed in strictly ascending order.
fn hull_of_distinct(d: &Vec<(i32, i32)>) -> (hull: Vec<(i32, i32)>)
    requires
        d.len() >= 2,
        monotone(d@, false),
    ensures
        is_convex_hull_of(hull@, d@),
{
    let mut lower = build_chain(d, false);
    let rev = reversed(d);
    proof {
        assert forall|i: int, j: int| 0 <= i < j < rev.len() implies before(
            #[trigger] rev@[i],
            #[trigger] rev@[j],
            true,
        ) by {
            assert(before(d@[d.len() - 1 - j], d@[d.len() - 1 - i], false));
        }
    }
    let mut upper = build_chain(&rev, true);
    proof {
        lemma_hull_closed(lower@, upper@, d@, rev@);
    }
    lower.pop();
    upper.pop();
    lower.append(&mut upper);
    lower
}

/// The two sequences hold the same points, however often and in whatever order.
pub open spec fn same_points(a: Seq<(i32, i32)>, b: Seq<(i32, i32)>) -> bool {
    forall|p: (i32, i32)| a.contains(p) <==> b.contains(p)
}

/// Sorts the points in place by calling the standard library's `sort` on the
/// vector. Trusted: afterwards the vector holds the same points as often as
/// before, in ascending order by `x`, then by `y`, which is how the standard
/// library orders pairs.
#[verifier::external_body]
fn sort_points(points: &mut Vec<(i32, i32)>)
    ensures
        ascending(final(points)@),
        final(points)@.to_multiset() == old(points)@.to_multiset(),
{
    points.sort();
}

/// A copy of the points.
fn copy_points(points: &Vec<(i32, i32)>) -> (out: Vec<(i32, i32)>)
    ensures
        out@ == points@,
{
    let mut out: Vec<(i32, i32)> = Vec::new();
    let mut i: usize = 0;
    while i < points.len()
        invariant
            i <= points.len(),
            out@ == points@.subrange(0, i as int),
        decreases points.len() - i,
    {
        out.push(points[i]);
        assert(out@ =~= points@.subrange(0, i + 1));
        i += 1;
    }
    assert(out@ =~= points@);
    out
}

/// The points of an ascending sequence, each kept once.
fn distinct_sorted(sorted: &Vec<(i32, i32)>) -> (out: Vec<(i32, i32)>)
    requires
        ascending(sorted@),
    ensures
        monotone(out@, false),
        same_points(out@, sorted@),
{
    let mut out: Vec<(i32, i32)> = Vec::new();
    let mut i: usize = 0;
    while i < sorted.len()
        invariant
            i <= sorted.len(),
            ascending(sorted@),
            monotone(out@, false),
            forall|a: int| 0 <= a < out.len() ==> sorted@.contains(#[trigger] out@[a]),
            forall|j: int| 0 <= j < i ==> out@.contains(#[trigger] sorted@[j]),
            i == 0 ==> out.len() == 0,
            i > 0 ==> out.len() > 0 && out@[out.len() - 1] == sorted@[i - 1],
        decreases sorted.len() - i,
    {
        let p = sorted[i];
        let fresh = if out.len() == 0 {
            true
        } else {
            let q = out[out.len() - 1];
            q.0 != p.0 || q.1 != p.1
        };
        if fresh {
            let ghost before_push = out@;
            out.push(p);
            proof {
                assert forall|x: int, y: int| 0 <= x < y < out.len() implies before(
                    #[trigger] out@[x],
                    #[trigger] out@[y],
                    false,
                ) by {
                    if y == out.len() - 1 && i > 0 {
                        let top = before_push.len() - 1;
                        assert(lex_le(sorted@[i - 1], sorted@[i as int]));
                        assert(lex_lt(before_push[top], p));
                        if x < top {
                            assert(before(before_push[x], before_push[top], false));
                        }
                    } else if y < out.len() - 1 {
                        assert(before(before_push[x], before_push[y], false));
                    }
                }
                assert forall|a: int| 0 <= a < out.len() implies sorted@.contains(
                    #[trigger] out@[a],
                ) by {
                    if a < before_push.len() {
                        assert(sorted@.contains(before_push[a]));
                    } else {
                        assert(sorted@[i as int] == p);
                    }
                }
                assert forall|j: int| 0 <= j < i + 1 implies out@.contains(
                    #[trigger] sorted@[j],
                ) by {
                    if j < i {
                        let w = choose|w: int| 0 <= w < before_push.len() && before_push[w] == sorted@[j];
                        assert(out@[w] == sorted@[j]);
                    } else {
                        assert(out@[out.len() - 1] == sorted@[j]);
                    }
                }
            }
        } else {
            proof {
                assert(out@[out.len() - 1] == p);
            }
        }
        i += 1;
    }
    proof {
        assert forall|p: (i32, i32)| out@.contains(p) <==> sorted@.contains(p) by {
            if out@.contains(p) {
                let a = choose|a: int| 0 <= a < out.len() && out@[a] == p;
                assert(sorted@.contains(out@[a]));
            }
            if sorted@.contains(p) {
                let j = choose|j: int| 0 <= j < sorted.len() && sorted@[j] == p;
                assert(out@.contains(sorted@[j]));
            }
        }
    }
    out
}

/// Sequences with the same points as often hold the same points.
proof fn lemma_permutation_same_points(a: Seq<(i32, i32)>, b: Seq<(i32, i32)>)
    requires
        a.to_multiset() == b.to_multiset(),
    ensures
        same_points(a, b),
{
    a.to_multiset_ensures();
    b.to_multiset_ensures();
    assert forall|p: (i32, i32)| a.contains(p) <==> b.contains(p) by {
        assert(a.contains(p) <==> a.to_multiset().count(p) > 0);
        assert(b.contains(p) <==> b.to_multiset().count(p) > 0);
    }
}

/// A strictly ascending listing of the points has three entries or more
/// exactly when three of the points differ pairwise.
proof fn lemma_three_distinct(d: Seq<(i32, i32)>, pts: Seq<(i32, i32)>)
    requires
        monotone(d, false),
        same_points(d, pts),
    ensures
        has_three_distinct(pts) <==> d.len() >= 3,
{
    if d.len() >= 3 {
        assert(before(d[0], d[1], false) && before(d[1], d[2], false) && before(d[0], d[2], false));
        assert(d.contains(d[0]) && d.contains(d[1]) && d.contains(d[2]));
        let i = choose|i: int| 0 <= i < pts.len() && pts[i] == d[0];
        let j = choose|j: int| 0 <= j < pts.len() && pts[j] == d[1];
        let k = choose|k: int| 0 <= k < pts.len() && pts[k] == d[2];
        assert(pts[i] != pts[j] && pts[j] != pts[k] && pts[i] != pts[k]);
    }
    if has_three_distinct(pts) {
        let (i, j, k) = choose|i: int, j: int, k: int|
            0 <= i < pts.len() && 0 <= j < pts.len() && 0 <= k < pts.len() && #[trigger] pts[i]
                != #[trigger] pts[j] && pts[j] != #[trigger] pts[k] && pts[i] != pts[k];
        assert(pts.contains(pts[i]) && pts.contains(pts[j]) && pts.contains(pts[k]));
        let a = choose|a: int| 0 <= a < d.len() && d[a] == pts[i];
        let b = choose|b: int| 0 <= b < d.len() && d[b] == pts[j];
        let c = choose|c: int| 0 <= c < d.len() && d[c] == pts[k];
        assert(a != b && b != c && a != c);
    }
}

/// The hull of a point set is the hull of any listing of the same points.
proof fn lemma_hull_of_same_points(h: Seq<(i32, i32)>, d: Seq<(i32, i32)>, pts: Seq<(i32, i32)>)
    requires
        is_convex_hull_of(h, d),
        same_points(d, pts),
    ensures
        is_convex_hull_of(h, pts),
{
    let n = h.len() as int;
    assert forall|j: int| 0 <= j < pts.len() implies lex_le(h[0], #[trigger] pts[j]) by {
        assert(pts.contains(pts[j]));
        let w = choose|w: int| 0 <= w < d.len() && d[w] == pts[j];
        assert(lex_le(h[0], d[w]));
    }
    assert forall|i: int, j: int| 0 <= i < n && 0 <= j < pts.len() implies #[trigger] edge_side(
        h,
        i,
        pts[j],
    ) >= 0 by {
        assert(pts.contains(pts[j]));
        let w = choose|w: int| 0 <= w < d.len() && d[w] == pts[j];
        assert(edge_side(h, i, d[w]) >= 0);
    }
    if n == 2 {
        assert forall|j: int| 0 <= j < pts.len() implies lex_le(#[trigger] pts[j], h[1]) by {
            assert(pts.contains(pts[j]));
            let w = choose|w: int| 0 <= w < d.len() && d[w] == pts[j];
            assert(lex_le(d[w], h[1]));
        }
    }
}

/// The convex hull of one cell's outline, counter-clockwise from its
/// lexicographically smallest point; `None` when fewer than three of the
/// points differ.
pub fn cell_hull(cell: &Vec<(i32, i32)>) -> (result: Option<Vec<(i32, i32)>>)
    ensures
        result is Some <==> has_three_distinct(cell@),
        result matches Some(hull) ==> is_convex_hull_of(hull@, cell@),
{
    let mut sorted = copy_points(cell);
    sort_points(&mut sorted);
    let d = distinct_sorted(&sorted);
    proof {
        lemma_permutation_same_points(sorted@, cell@);
        assert(same_points(d@, cell@));
        lemma_three_distinct(d@, cell@);
    }
    if d.len() < 3 {
        return None;
    }
    let hull = hull_of_distinct(&d);
    proof {
        lemma_hull_of_same_points(hull@, d@, cell@);
    }
    Some(hull)
}

/// What `convex_hull` owes for the cells before position `count`.
pub open spec fn hulls_of(
    hulls: Seq<Vec<(i32, i32)>>,
    cells: Seq<Vec<(i32, i32)>>,
    count: int,
) -> bool {
    &&& hulls.len() == count
    &&& forall|i: int| 0 <= i < count ==> has_three_distinct(#[trigger] cells[i]@)
    &&& forall|i: int| 0 <= i < count ==> is_convex_hull_of(#[trigger] hulls[i]@, cells[i]@)
}

/// The convex hull of every cell, in the order of the cells. Fails at the
/// first cell in which fewer than three points differ, and names it.
pub fn convex_hull(points: Vec<Vec<(i32, i32)>>) -> (result: Result<Vec<Vec<(i32, i32)>>, HullError>)
    ensures
        match result {
            Ok(hulls) => hulls_of(hulls@, points@, points.len() as int),
            Err(HullError::InsufficientPoints { cell }) => {
                &&& cell < points.len()
                &&& !has_three_distinct(points@[cell as int]@)
                &&& forall|i: int| 0 <= i < cell ==> has_three_distinct(#[trigger] points@[i]@)
            },
        },
{
    let mut hulls: Vec<Vec<(i32, i32)>> = Vec::new();
    let mut i: usize = 0;
    while i < points.len()
        invariant
            i <= points.len(),
            hulls_of(hulls@, points@, i as int),
        decreases points.len() - i,
    {
        match cell_hull(&points[i]) {
            Some(hull) => {
                let ghost done = hulls@;
                hulls.push(hull);
                proof {
                    assert forall|x: int| 0 <= x < i + 1 implies is_convex_hull_of(
                        #[trigger] hulls@[x]@,
                        points@[x]@,
                    ) by {
                        if x < i {
                            assert(is_convex_hull_of(done[x]@, points@[x]@));
                        }
                    }
                }
            },
            None => {
                return Err(HullError::InsufficientPoints { cell: i });
            },
        }
        i += 1;
    }
    Ok(hulls)
}

} // verus!
