//! The share of a rectangular pixel domain that lies nearest to each of a set
//! of fixed centres.

use crate::kmeans::{lemma_nearest_is_closest, nearest, nearest_centroid};
use crate::vector::{coords, grid, uniform};
use vstd::prelude::*;

verus! {

/// The centres as vectors of two coordinates.
pub open spec fn planar(centroids: Seq<(i32, i32)>) -> Seq<Seq<int>> {
    Seq::new(centroids.len(), |i: int| seq![centroids[i].0 as int, centroids[i].1 as int])
}

/// The position of the centre nearest to the pixel `(x, y)`; of several at
/// the same distance, the first.
pub open spec fn owner(centres: Seq<Seq<int>>, x: int, y: int) -> int {
    nearest(seq![x, y], centres)
}

/// How many of the first `xn` pixels of row `y` belong to centre `c`.
pub open spec fn owned_in_row(centres: Seq<Seq<int>>, c: int, y: int, xn: int) -> int
    decreases xn,
{
    if xn <= 0 {
        0
    } else {
        owned_in_row(centres, c, y, xn - 1) + if owner(centres, xn - 1, y) == c {
            1int
        } else {
            0int
        }
    }
}

/// How many pixels of the first `yn` rows, each `width` wide, belong to centre `c`.
pub open spec fn owned_in_rows(centres: Seq<Seq<int>>, c: int, width: int, yn: int) -> int
    decreases yn,
{
    if yn <= 0 {
        0
    } else {
        owned_in_rows(centres, c, width, yn - 1) + owned_in_row(centres, c, yn - 1, width)
    }
}

/// The sum of the first `k` areas.
pub open spec fn total_area(areas: Seq<u64>, k: int) -> int
    decreases k,
{
    if k <= 0 {
        0
    } else {
        total_area(areas, k - 1) + areas[k - 1]
    }
}

/// The pixels of a row's first `xn` that belong to one of the first `k` centres.
pub open spec fn row_share(centres: Seq<Seq<int>>, k: int, y: int, xn: int) -> int
    decreases k,
{
    if k <= 0 {
        0
    } else {
        row_share(centres, k - 1, y, xn) + owned_in_row(centres, k - 1, y, xn)
    }
}

/// The pixels of the first `yn` rows that belong to one of the first `k` centres.
pub open spec fn rows_share(centres: Seq<Seq<int>>, k: int, width: int, yn: int) -> int
    decreases k,
{
    if k <= 0 {
        0
    } else {
        rows_share(centres, k - 1, width, yn) + owned_in_rows(centres, k - 1, width, yn)
    }
}

proof fn lemma_row_share_step(centres: Seq<Seq<int>>, k: int, y: int, xn: int)
    requires
        k >= 0,
        xn >= 1,
    ensures
        row_share(centres, k, y, xn) == row_share(centres, k, y, xn - 1) + if 0 <= owner(
            centres,
            xn - 1,
            y,
        ) < k {
            1int
        } else {
            0int
        },
    decreases k,
{
    if k > 0 {
        lemma_row_share_step(centres, k - 1, y, xn);
    }
}

proof fn lemma_row_share_full(centres: Seq<Seq<int>>, y: int, xn: int)
    requires
        centres.len() > 0,
        xn >= 0,
    ensures
        row_share(centres, centres.len() as int, y, xn) == xn,
    decreases xn,
{
    let k = centres.len() as int;
    if xn > 0 {
        lemma_row_share_full(centres, y, xn - 1);
        lemma_row_share_step(centres, k, y, xn);
        lemma_nearest_is_closest(seq![xn - 1, y], centres, k);
    } else {
        lemma_row_share_empty(centres, k, y);
    }
}

proof fn lemma_row_share_empty(centres: Seq<Seq<int>>, k: int, y: int)
    ensures
        row_share(centres, k, y, 0) == 0,
    decreases k,
{
    if k > 0 {
        lemma_row_share_empty(centres, k - 1, y);
    }
}

proof fn lemma_rows_share_step(centres: Seq<Seq<int>>, k: int, width: int, yn: int)
    requires
        yn >= 1,
    ensures
        rows_share(centres, k, width, yn) == rows_share(centres, k, width, yn - 1) + row_share(
            centres,
            k,
            yn - 1,
            width,
        ),
    decreases k,
{
    if k > 0 {
        lemma_rows_share_step(centres, k - 1, width, yn);
    }
}

proof fn lemma_rows_share_empty(centres: Seq<Seq<int>>, k: int, width: int)
    ensures
        rows_share(centres, k, width, 0) == 0,
    decreases k,
{
    if k > 0 {
        lemma_rows_share_empty(centres, k - 1, width);
    }
}

/// Every pixel belongs to exactly one centre: over all centres, the pixels
/// owned in the first `yn` rows are all the pixels of those rows.
pub proof fn lemma_rows_share_full(centres: Seq<Seq<int>>, width: int, yn: int)
    requires
        centres.len() > 0,
        width >= 0,
        yn >= 0,
    ensures
        rows_share(centres, centres.len() as int, width, yn) == yn * width,
    decreases yn,
{
    let k = centres.len() as int;
    if yn > 0 {
        lemma_rows_share_full(centres, width, yn - 1);
        lemma_rows_share_step(centres, k, width, yn);
        lemma_row_share_full(centres, yn - 1, width);
        assert((yn - 1) * width + width == yn * width) by (nonlinear_arith);
    } else {
        lemma_rows_share_empty(centres, k, width);
        assert(0 * width == 0) by (nonlinear_arith);
    }
}

proof fn lemma_total_is_share(
    areas: Seq<u64>,
    centres: Seq<Seq<int>>,
    width: int,
    height: int,
    k: int,
)
    requires
        0 <= k <= areas.len(),
        forall|c: int|
            0 <= c < areas.len() ==> #[trigger] areas[c] == owned_in_rows(centres, c, width, height),
    ensures
        total_area(areas, k) == rows_share(centres, k, width, height),
    decreases k,
{
    if k > 0 {
        lemma_total_is_share(areas, centres, width, height, k - 1);
    }
}

/// Areas that count, for each centre, the pixels nearest to it add up to the
/// number of pixels of the domain, whenever there is a centre at all.
pub proof fn lemma_voronoi_total(areas: Seq<u64>, centres: Seq<Seq<int>>, width: int, height: int)
    requires
        centres.len() > 0,
        areas.len() == centres.len(),
        width >= 0,
        height >= 0,
        forall|c: int|
            0 <= c < areas.len() ==> #[trigger] areas[c] == owned_in_rows(centres, c, width, height),
    ensures
        total_area(areas, areas.len() as int) == width * height,
{
    lemma_total_is_share(areas, centres, width, height, areas.len() as int);
    lemma_rows_share_full(centres, width, height);
    assert(height * width == width * height) by (nonlinear_arith);
}

/// The centres as vectors.
fn planar_vectors(centroids: &Vec<(i32, i32)>) -> (out: Vec<Vec<i32>>)
    ensures
        out.len() == centroids.len(),
        grid(out@) == planar(centroids@),
{
    let mut out: Vec<Vec<i32>> = Vec::new();
    let mut i: usize = 0;
    while i < centroids.len()
        invariant
            i <= centroids.len(),
            out.len() == i,
            forall|x: int| 0 <= x < i ==> #[trigger] grid(out@)[x] == planar(centroids@)[x],
        decreases centroids.len() - i,
    {
        let ghost done = out@;
        let c = centroids[i];
        let mut v: Vec<i32> = Vec::new();
        v.push(c.0);
        v.push(c.1);
        out.push(v);
        proof {
            assert(grid(out@)[i as int] =~= planar(centroids@)[i as int]);
            assert forall|x: int| 0 <= x < i + 1 implies #[trigger] grid(out@)[x] == planar(
                centroids@,
            )[x] by {
                if x < i {
                    assert(grid(done)[x] == planar(centroids@)[x]);
                    assert(grid(out@)[x] == grid(done)[x]);
                }
            }
        }
        i += 1;
    }
    proof {
        assert(grid(out@) =~= planar(centroids@));
    }
    out
}

/// For each centre, the number of pixels of the `width` by `height` domain
/// that lie nearest to it by Euclidean distance; a pixel as near to several
/// centres counts for the first of them. With at least one centre the areas
/// add up to `width * height`; without any there is no area to report.
pub fn voronoi_areas(centroids: &Vec<(i32, i32)>, width: u32, height: u32) -> (areas: Vec<u64>)
    requires
        width <= 0x7fff_ffff,
        height <= 0x7fff_ffff,
    ensures
        areas.len() == centroids.len(),
        forall|c: int|
            0 <= c < centroids.len() ==> #[trigger] areas@[c] == owned_in_rows(
                planar(centroids@),
                c,
                width as int,
                height as int,
            ),
        centroids.len() > 0 ==> total_area(areas@, areas.len() as int) == width * height,
{
    let k = centroids.len();
    let centres = planar_vectors(centroids);
    let ghost gc = planar(centroids@);
    let mut areas: Vec<u64> = Vec::new();
    let mut c: usize = 0;
    while c < k
        invariant
            c <= k,
            areas.len() == c,
            forall|x: int| 0 <= x < c ==> #[trigger] areas@[x] == 0,
        decreases k - c,
    {
        areas.push(0);
        c += 1;
    }
    if k == 0 {
        return areas;
    }
    proof {
        assert forall|i: int| 0 <= i < gc.len() implies (#[trigger] gc[i]).len() == 2 by {}
    }
    let mut pixel: Vec<i32> = Vec::new();
    pixel.push(0);
    pixel.push(0);
    let ghost mut done: int = 0;
    let mut y: u32 = 0;
    while y < height
        invariant
            y <= height,
            width <= 0x7fff_ffff,
            height <= 0x7fff_ffff,
            k == centroids.len(),
            k > 0,
            centres.len() == k,
            gc == planar(centroids@),
            grid(centres@) == gc,
            uniform(gc, 2),
            pixel.len() == 2,
            areas.len() == k,
            done == y * width,
            forall|c: int| 0 <= c < k ==> #[trigger] areas@[c] <= done,
            forall|c: int|
                0 <= c < k ==> #[trigger] areas@[c] == owned_in_rows(gc, c, width as int, y as int),
        decreases height - y,
    {
        let mut x: u32 = 0;
        while x < width
            invariant
                x <= width,
                y < height,
                width <= 0x7fff_ffff,
                height <= 0x7fff_ffff,
                k == centroids.len(),
                k > 0,
                centres.len() == k,
                gc == planar(centroids@),
                grid(centres@) == gc,
                uniform(gc, 2),
                pixel.len() == 2,
                areas.len() == k,
                done == y * width + x,
                forall|c: int| 0 <= c < k ==> #[trigger] areas@[c] <= done,
                forall|c: int|
                    0 <= c < k ==> #[trigger] areas@[c] == owned_in_rows(
                        gc,
                        c,
                        width as int,
                        y as int,
                    ) + owned_in_row(gc, c, y as int, x as int),
            decreases width - x,
        {
            pixel.set(0, x as i32);
            pixel.set(1, y as i32);
            proof {
                assert(coords(pixel@) =~= seq![x as int, y as int]);
                assert(y * width + x < 0x7fff_ffff * 0x7fff_ffff + 0x7fff_ffff) by (nonlinear_arith)
                    requires
                        y < height,
                        x < width,
                        width <= 0x7fff_ffff,
                        height <= 0x7fff_ffff,
                ;
            }
            let near = nearest_centroid(&pixel, &centres);
            let ghost before = areas@;
            let count = areas[near];
            areas.set(near, count + 1);
            proof {
                done = done + 1;
                assert forall|c: int| 0 <= c < k implies #[trigger] areas@[c] == owned_in_rows(
                    gc,
                    c,
                    width as int,
                    y as int,
                ) + owned_in_row(gc, c, y as int, x + 1) by {
                    assert(before[c] == owned_in_rows(gc, c, width as int, y as int) + owned_in_row(
                        gc,
                        c,
                        y as int,
                        x as int,
                    ));
                }
                assert forall|c: int| 0 <= c < k implies #[trigger] areas@[c] <= done by {
                    assert(before[c] <= done - 1);
                }
            }
            x += 1;
        }
        proof {
            assert((y + 1) * width == y * width + width) by (nonlinear_arith);
        }
        y += 1;
    }
    proof {
        lemma_voronoi_total(areas@, gc, width as int, height as int);
    }
    areas
}

} // verus!
