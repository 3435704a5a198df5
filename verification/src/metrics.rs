//! Measures of a polygon given by its vertices in order: area, edge lengths
//! and the centre of its vertices, all in exact integers.

use crate::hull::succ;
use vstd::arithmetic::div_mod::lemma_hoist_over_denominator;
use vstd::prelude::*;

verus! {

/// The cross product of the position vectors of `a` and `b`.
pub open spec fn wedge(a: (i32, i32), b: (i32, i32)) -> int {
    a.0 * b.1 - b.0 * a.1
}

/// The shoelace term of the edge that leaves vertex `i`; the last vertex is
/// joined to the first.
pub open spec fn edge_term(points: Seq<(i32, i32)>, i: int) -> int {
    wedge(points[i], points[succ(i, points.len() as int)])
}

/// The sum of the shoelace terms of the first `m` edges.
pub open spec fn shoelace_upto(points: Seq<(i32, i32)>, m: int) -> int
    decreases m,
{
    if m <= 0 {
        0
    } else {
        shoelace_upto(points, m - 1) + edge_term(points, m - 1)
    }
}

/// Twice the signed area of the polygon: positive when the vertices run
/// counter-clockwise.
pub open spec fn signed_doubled_area(points: Seq<(i32, i32)>) -> int {
    shoelace_upto(points, points.len() as int)
}

/// Twice the area of the polygon, whichever way its vertices run.
pub open spec fn doubled_area_spec(points: Seq<(i32, i32)>) -> int {
    if signed_doubled_area(points) < 0 {
        -signed_doubled_area(points)
    } else {
        signed_doubled_area(points)
    }
}

/// The polygon's vertices, listed from vertex `k` on.
pub open spec fn rotated(points: Seq<(i32, i32)>, k: int) -> Seq<(i32, i32)> {
    points.subrange(k, points.len() as int) + points.subrange(0, k)
}

proof fn lemma_shift_once(p: Seq<(i32, i32)>, m: int)
    requires
        p.len() >= 2,
        0 <= m <= p.len() - 1,
    ensures
        shoelace_upto(rotated(p, 1), m) == shoelace_upto(p, m + 1) - edge_term(p, 0),
    decreases m,
{
    let q = rotated(p, 1);
    let n = p.len() as int;
    if m > 0 {
        lemma_shift_once(p, m - 1);
        assert(q[m - 1] == p[m]);
        assert(q[succ(m - 1, n)] == p[succ(m, n)]);
        assert(edge_term(q, m - 1) == edge_term(p, m));
    } else {
        assert(shoelace_upto(p, 1) == shoelace_upto(p, 0) + edge_term(p, 0));
    }
}

proof fn lemma_rotate_once(p: Seq<(i32, i32)>)
    requires
        p.len() >= 1,
    ensures
        signed_doubled_area(rotated(p, 1)) == signed_doubled_area(p),
{
    let q = rotated(p, 1);
    let n = p.len() as int;
    if n == 1 {
        assert(q =~= p);
    } else {
        lemma_shift_once(p, n - 1);
        assert(q[n - 1] == p[0]);
        assert(q[0] == p[1]);
        assert(edge_term(q, n - 1) == edge_term(p, 0));
    }
}

/// The area does not depend on the vertex at which the listing starts.
pub proof fn lemma_area_rotation(points: Seq<(i32, i32)>, k: int)
    requires
        0 <= k <= points.len(),
    ensures
        signed_doubled_area(rotated(points, k)) == signed_doubled_area(points),
        doubled_area_spec(rotated(points, k)) == doubled_area_spec(points),
    decreases k,
{
    if k == 0 {
        assert(rotated(points, 0) =~= points);
    } else {
        lemma_area_rotation(points, k - 1);
        let before = rotated(points, k - 1);
        lemma_rotate_once(before);
        assert(rotated(before, 1) =~= rotated(points, k));
    }
}

proof fn lemma_reverse_sum(p: Seq<(i32, i32)>, m: int)
    requires
        p.len() >= 1,
        0 <= m <= p.len() - 1,
    ensures
        shoelace_upto(p.reverse(), m) == shoelace_upto(p, p.len() - 1 - m) - shoelace_upto(
            p,
            p.len() - 1,
        ),
    decreases m,
{
    let r = p.reverse();
    let n = p.len() as int;
    if m > 0 {
        lemma_reverse_sum(p, m - 1);
        assert(r[m - 1] == p[n - m]);
        assert(r[succ(m - 1, n)] == p[n - 1 - m]);
        assert(edge_term(r, m - 1) == -edge_term(p, n - 1 - m));
        assert(shoelace_upto(p, n - m) == shoelace_upto(p, n - m - 1) + edge_term(p, n - m - 1));
    }
}

/// Listing the vertices the other way round turns the sign of the signed
/// area and leaves the area as it is.
pub proof fn lemma_area_reversal(points: Seq<(i32, i32)>)
    ensures
        signed_doubled_area(points.reverse()) == -signed_doubled_area(points),
        doubled_area_spec(points.reverse()) == doubled_area_spec(points),
{
    let r = points.reverse();
    let n = points.len() as int;
    if n == 0 {
        assert(r.len() == 0);
    } else {
        lemma_reverse_sum(points, n - 1);
        assert(r[n - 1] == points[0]);
        assert(r[0] == points[n - 1]);
        assert(edge_term(r, n - 1) == -edge_term(points, n - 1));
    }
}

/// Twice the area of the polygon by the shoelace formula: the absolute value
/// of the sum of `x_i * y_(i+1) - x_(i+1) * y_i` around the closed polygon.
pub fn doubled_area(points: &Vec<(i32, i32)>) -> (area2: u128)
    ensures
        area2 == doubled_area_spec(points@),
{
    let n = points.len();
    let mut acc: i128 = 0;
    let mut i: usize = 0;
    while i < n
        invariant
            i <= n,
            n == points.len(),
            acc == shoelace_upto(points@, i as int),
            -(i * 0x8000_0000_0000_0000) <= acc <= i * 0x8000_0000_0000_0000,
        decreases n - i,
    {
        let a = points[i];
        let b = if i + 1 == n {
            points[0]
        } else {
            points[i + 1]
        };
        let ax: i128 = a.0 as i128;
        let ay: i128 = a.1 as i128;
        let bx: i128 = b.0 as i128;
        let by: i128 = b.1 as i128;
        assert(-0x4000_0000_0000_0000 <= ax * by <= 0x4000_0000_0000_0000) by (nonlinear_arith)
            requires
                -0x8000_0000 <= ax <= 0x8000_0000,
                -0x8000_0000 <= by <= 0x8000_0000,
        ;
        assert(-0x4000_0000_0000_0000 <= bx * ay <= 0x4000_0000_0000_0000) by (nonlinear_arith)
            requires
                -0x8000_0000 <= bx <= 0x8000_0000,
                -0x8000_0000 <= ay <= 0x8000_0000,
        ;
        assert((i + 1) * 0x8000_0000_0000_0000 == i * 0x8000_0000_0000_0000 + 0x8000_0000_0000_0000)
            by (nonlinear_arith);
        assert((i + 1) * 0x8000_0000_0000_0000 <= 0xffff_ffff_ffff_ffff * 0x8000_0000_0000_0000)
            by (nonlinear_arith)
            requires
                i + 1 <= 0xffff_ffff_ffff_ffff,
        ;
        let term: i128 = ax * by - bx * ay;
        assert(term == edge_term(points@, i as int));
        acc = acc + term;
        i += 1;
    }
    if acc < 0 {
        (-acc) as u128
    } else {
        acc as u128
    }
}

/// The squared length of the edge that leaves vertex `i` of the closed polygon.
pub open spec fn edge_length_squared(points: Seq<(i32, i32)>, i: int) -> int {
    let a = points[i];
    let b = points[succ(i, points.len() as int)];
    (b.0 - a.0) * (b.0 - a.0) + (b.1 - a.1) * (b.1 - a.1)
}

/// The squared length of every edge of the closed polygon, the edge from the
/// last vertex back to the first included. The perimeter is the sum of their
/// square roots.
pub fn squared_edge_lengths(points: &Vec<(i32, i32)>) -> (out: Vec<u128>)
    ensures
        out.len() == points.len(),
        forall|i: int| 0 <= i < points.len() ==> #[trigger] out@[i] == edge_length_squared(points@, i),
{
    let n = points.len();
    let mut out: Vec<u128> = Vec::new();
    let mut i: usize = 0;
    while i < n
        invariant
            i <= n,
            n == points.len(),
            out.len() == i,
            forall|x: int| 0 <= x < i ==> #[trigger] out@[x] == edge_length_squared(points@, x),
        decreases n - i,
    {
        let a = points[i];
        let b = if i + 1 == n {
            points[0]
        } else {
            points[i + 1]
        };
        let dx: i128 = b.0 as i128 - a.0 as i128;
        let dy: i128 = b.1 as i128 - a.1 as i128;
        assert(0 <= dx * dx <= 0x1_0000_0000_0000_0000) by (nonlinear_arith)
            requires
                -0x1_0000_0000 <= dx <= 0x1_0000_0000,
        ;
        assert(0 <= dy * dy <= 0x1_0000_0000_0000_0000) by (nonlinear_arith)
            requires
                -0x1_0000_0000 <= dy <= 0x1_0000_0000,
        ;
        let len2: i128 = dx * dx + dy * dy;
        out.push(len2 as u128);
        i += 1;
    }
    out
}

/// The sum of the first `m` values of `x`, or of `y`, over the vertices.
pub open spec fn coordinate_sum(points: Seq<(i32, i32)>, second: bool, m: int) -> int
    decreases m,
{
    if m <= 0 {
        0
    } else {
        coordinate_sum(points, second, m - 1) + if second {
            points[m - 1].1 as int
        } else {
            points[m - 1].0 as int
        }
    }
}

/// The arithmetic mean of the vertices, each coordinate rounded down.
pub open spec fn centroid_spec(points: Seq<(i32, i32)>) -> (int, int) {
    (
        coordinate_sum(points, false, points.len() as int) / (points.len() as int),
        coordinate_sum(points, true, points.len() as int) / (points.len() as int),
    )
}

/// `c` is the centre of the vertices, or `None` where there is no vertex.
pub open spec fn is_centroid_of(c: Option<(i32, i32)>, points: Seq<(i32, i32)>) -> bool {
    match c {
        None => points.len() == 0,
        Some(p) => points.len() > 0 && (p.0 as int, p.1 as int) == centroid_spec(points),
    }
}

fn mean_of_coordinate(points: &Vec<(i32, i32)>, second: bool) -> (m: i32)
    requires
        points.len() > 0,
    ensures
        m == coordinate_sum(points@, second, points.len() as int) / (points.len() as int),
{
    let n = points.len();
    let mut acc: u128 = 0;
    let mut t: usize = 0;
    while t < n
        invariant
            t <= n,
            n == points.len(),
            acc == coordinate_sum(points@, second, t as int) + t * 0x8000_0000,
            acc <= t * 0xffff_ffff,
        decreases n - t,
    {
        let p = points[t];
        let x: i32 = if second {
            p.1
        } else {
            p.0
        };
        let shifted: u64 = (x as i64 + 0x8000_0000) as u64;
        assert(t * 0xffff_ffff <= 0xffff_ffff_ffff_ffff * 0xffff_ffff) by (nonlinear_arith)
            requires
                t <= 0xffff_ffff_ffff_ffff,
        ;
        acc = acc + shifted as u128;
        t += 1;
    }
    let q: u128 = acc / (n as u128);
    proof {
        let s = coordinate_sum(points@, second, n as int);
        lemma_hoist_over_denominator(s, 0x8000_0000, n as nat);
        assert(n * 0x8000_0000 == 0x8000_0000 * n) by (nonlinear_arith);
        assert(acc / (n as u128) <= 0xffff_ffff) by (nonlinear_arith)
            requires
                acc <= n * 0xffff_ffff,
                n > 0,
        ;
    }
    (q as i64 - 0x8000_0000) as i32
}

/// The centre of the vertices: the arithmetic mean of their `x` and of their
/// `y`, each rounded down to a whole pixel. `None` when there is no vertex.
pub fn centroid(points: &Vec<(i32, i32)>) -> (c: Option<(i32, i32)>)
    ensures
        is_centroid_of(c, points@),
{
    if points.len() == 0 {
        return None;
    }
    let x = mean_of_coordinate(points, false);
    let y = mean_of_coordinate(points, true);
    Some((x, y))
}

/// The centre of every cell's vertices, in the order of the cells; `None`
/// for a cell without vertices.
pub fn calculate_centroids(outlines: &Vec<Vec<(i32, i32)>>) -> (out: Vec<Option<(i32, i32)>>)
    ensures
        out.len() == outlines.len(),
        forall|i: int| 0 <= i < outlines.len() ==> is_centroid_of(#[trigger] out@[i], outlines@[i]@),
{
    let mut out: Vec<Option<(i32, i32)>> = Vec::new();
    let mut i: usize = 0;
    while i < outlines.len()
        invariant
            i <= outlines.len(),
            out.len() == i,
            forall|x: int| 0 <= x < i ==> is_centroid_of(#[trigger] out@[x], outlines@[x]@),
        decreases outlines.len() - i,
    {
        let c = centroid(&outlines[i]);
        out.push(c);
        i += 1;
    }
    out
}

} // verus!
