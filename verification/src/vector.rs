//! Integer vectors of any dimension: the one point type that pixels and
//! feature rows are clustered as.

use vstd::arithmetic::div_mod::lemma_hoist_over_denominator;
use vstd::prelude::*;

verus! {

/// A point of the space being clustered.
pub type Vector = Vec<i32>;

/// The coordinates of each vector of a list.
pub open spec fn grid(m: Seq<Vec<i32>>) -> Seq<Seq<int>> {
    Seq::new(m.len(), |i: int| coords(m[i]@))
}

/// The coordinates of a vector as mathematical integers.
pub open spec fn coords(v: Seq<i32>) -> Seq<int> {
    Seq::new(v.len(), |i: int| v[i] as int)
}

/// Every vector of the list has `dim` coordinates.
pub open spec fn uniform(m: Seq<Seq<int>>, dim: int) -> bool {
    forall|i: int| 0 <= i < m.len() ==> (#[trigger] m[i]).len() == dim
}

/// The sum of the squared differences of the first `n` coordinates.
pub open spec fn dist2_upto(a: Seq<int>, b: Seq<int>, n: int) -> int
    decreases n,
{
    if n <= 0 {
        0
    } else {
        dist2_upto(a, b, n - 1) + (a[n - 1] - b[n - 1]) * (a[n - 1] - b[n - 1])
    }
}

/// The squared Euclidean distance between two vectors of one dimension.
pub open spec fn dist2(a: Seq<int>, b: Seq<int>) -> int {
    dist2_upto(a, b, a.len() as int)
}

/// The squared Euclidean distance, which orders points as the distance does.
pub fn distance_squared(a: &Vector, b: &Vector) -> (d: u128)
    requires
        a.len() == b.len(),
    ensures
        d == dist2(coords(a@), coords(b@)),
{
    let n = a.len();
    let mut d: u128 = 0;
    let mut i: usize = 0;
    while i < n
        invariant
            i <= n,
            n == a.len(),
            n == b.len(),
            d == dist2_upto(coords(a@), coords(b@), i as int),
            d <= i * 0xffff_ffff_0000_0000,
        decreases n - i,
    {
        let diff: i64 = a[i] as i64 - b[i] as i64;
        let gap: u64 = if diff < 0 {
            (-diff) as u64
        } else {
            diff as u64
        };
        assert(gap * gap == diff * diff && gap * gap <= 0xffff_ffff_0000_0000) by (nonlinear_arith)
            requires
                gap == diff || gap == -diff,
                0 <= gap <= 0xffff_ffff,
        ;
        assert((i + 1) * 0xffff_ffff_0000_0000 == i * 0xffff_ffff_0000_0000 + 0xffff_ffff_0000_0000)
            by (nonlinear_arith);
        assert(i * 0xffff_ffff_0000_0000 <= 0xffff_ffff_ffff_ffff * 0xffff_ffff_0000_0000)
            by (nonlinear_arith)
            requires
                i <= 0xffff_ffff_ffff_ffff,
        ;
        let sq: u128 = (gap as u128) * (gap as u128);
        assert(coords(a@)[i as int] - coords(b@)[i as int] == diff);
        d = d + sq;
        i += 1;
    }
    d
}

/// Whether two vectors have the same coordinates.
pub fn equals(a: &Vector, b: &Vector) -> (same: bool)
    ensures
        same == (a@ == b@),
{
    if a.len() != b.len() {
        return false;
    }
    let mut i: usize = 0;
    while i < a.len()
        invariant
            i <= a.len(),
            a.len() == b.len(),
            forall|j: int| 0 <= j < i ==> a@[j] == b@[j],
        decreases a.len() - i,
    {
        if a[i] != b[i] {
            return false;
        }
        i += 1;
    }
    assert(a@ =~= b@);
    true
}

/// Vectors with the same coordinates are the same vector.
pub proof fn lemma_coords_injective(a: Seq<i32>, b: Seq<i32>)
    ensures
        (coords(a) == coords(b)) == (a == b),
{
    if coords(a) == coords(b) {
        assert(a.len() == coords(a).len());
        assert(b.len() == coords(b).len());
        assert forall|i: int| 0 <= i < a.len() implies a[i] == b[i] by {
            assert(coords(a)[i] == a[i] as int);
            assert(coords(b)[i] == b[i] as int);
        }
        assert(a =~= b);
    }
}

/// Positions as mathematical integers.
pub open spec fn ints(v: Seq<usize>) -> Seq<int> {
    Seq::new(v.len(), |i: int| v[i] as int)
}

/// The sum of coordinate `d` over the first `t` members of the group.
pub open spec fn coord_sum_upto(items: Seq<Seq<int>>, group: Seq<int>, d: int, t: int) -> int
    decreases t,
{
    if t <= 0 {
        0
    } else {
        coord_sum_upto(items, group, d, t - 1) + items[group[t - 1]][d]
    }
}

/// The mean of the group's members, coordinate by coordinate, each rounded
/// down to a whole number.
pub open spec fn mean_of(items: Seq<Seq<int>>, group: Seq<int>, dim: int) -> Seq<int> {
    Seq::new(
        dim as nat,
        |d: int| coord_sum_upto(items, group, d, group.len() as int) / (group.len() as int),
    )
}

/// The mean of one coordinate over a group, rounded down.
fn mean_coordinate(items: &Vec<Vec<i32>>, group: &Vec<usize>, d: usize) -> (m: i32)
    requires
        group.len() > 0,
        forall|t: int| 0 <= t < group.len() ==> #[trigger] group@[t] < items.len(),
        forall|i: int| 0 <= i < items.len() ==> d < (#[trigger] items@[i]).len(),
    ensures
        m == coord_sum_upto(grid(items@), ints(group@), d as int, group.len() as int) / (
        group.len() as int),
{
    let ghost gi = grid(items@);
    let ghost gg = ints(group@);
    let n = group.len();
    let mut acc: u128 = 0;
    let mut t: usize = 0;
    while t < n
        invariant
            t <= n,
            n == group.len(),
            gi == grid(items@),
            gg == ints(group@),
            forall|t: int| 0 <= t < group.len() ==> #[trigger] group@[t] < items.len(),
            forall|i: int| 0 <= i < items.len() ==> d < (#[trigger] items@[i]).len(),
            acc == coord_sum_upto(gi, gg, d as int, t as int) + t * 0x8000_0000,
            acc <= t * 0xffff_ffff,
        decreases n - t,
    {
        let g = group[t];
        assert(group@[t as int] < items.len());
        assert(d < items@[g as int].len());
        let x: i32 = items[g][d];
        let shifted: u64 = (x as i64 + 0x8000_0000) as u64;
        assert(gi[gg[t as int]][d as int] == x);
        assert(t * 0xffff_ffff <= 0xffff_ffff_ffff_ffff * 0xffff_ffff) by (nonlinear_arith)
            requires
                t <= 0xffff_ffff_ffff_ffff,
        ;
        acc = acc + shifted as u128;
        t += 1;
    }
    let q: u128 = acc / (n as u128);
    proof {
        let s = coord_sum_upto(gi, gg, d as int, n as int);
        lemma_hoist_over_denominator(s, 0x8000_0000, n as nat);
        assert(n * 0x8000_0000 == 0x8000_0000 * n) by (nonlinear_arith);
        assert(acc / (n as u128) <= 0xffff_ffff) by (nonlinear_arith)
            requires
                acc <= n * 0xffff_ffff,
                n > 0,
        ;
    }
    (q as i64 - 0x8000_0000) as i32
}

/// A copy of the vector.
pub fn copy_vector(v: &Vector) -> (out: Vector)
    ensures
        out@ == v@,
{
    let mut out: Vec<i32> = Vec::new();
    let mut i: usize = 0;
    while i < v.len()
        invariant
            i <= v.len(),
            out@ == v@.subrange(0, i as int),
        decreases v.len() - i,
    {
        out.push(v[i]);
        assert(out@ =~= v@.subrange(0, i + 1));
        i += 1;
    }
    assert(out@ =~= v@);
    out
}

/// The mean of the group's members, coordinate by coordinate, each rounded
/// down to a whole number.
pub fn mean(items: &Vec<Vector>, group: &Vec<usize>, width: usize) -> (m: Vector)
    requires
        group.len() > 0,
        forall|t: int| 0 <= t < group.len() ==> #[trigger] group@[t] < items.len(),
        forall|i: int| 0 <= i < items.len() ==> (#[trigger] items@[i]).len() == width,
    ensures
        coords(m@) == mean_of(grid(items@), ints(group@), width as int),
{
    let mut m: Vec<i32> = Vec::new();
    let mut d: usize = 0;
    while d < width
        invariant
            d <= width,
            group.len() > 0,
            forall|t: int| 0 <= t < group.len() ==> #[trigger] group@[t] < items.len(),
            forall|i: int| 0 <= i < items.len() ==> (#[trigger] items@[i]).len() == width,
            m.len() == d,
            forall|x: int|
                0 <= x < d ==> #[trigger] m@[x] == coord_sum_upto(
                    grid(items@),
                    ints(group@),
                    x,
                    group.len() as int,
                ) / (group.len() as int),
        decreases width - d,
    {
        let c = mean_coordinate(items, group, d);
        m.push(c);
        d += 1;
    }
    proof {
        assert(coords(m@) =~= mean_of(grid(items@), ints(group@), width as int));
    }
    m
}

} // verus!
