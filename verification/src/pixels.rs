//! Colour triples, pixel matrices and the mean colour of a cell.

use vstd::prelude::*;

verus! {

/// One pixel's red, green and blue.
#[derive(Debug, Clone, Copy, PartialEq, Eq, Structural)]
pub struct Point(pub u8, pub u8, pub u8);

impl Point {
    /// The sum of the three channels.
    pub fn sum(&self) -> (total: i32)
        ensures
            total == self.0 + self.1 + self.2,
    {
        (self.0 as i32) + (self.1 as i32) + (self.2 as i32)
    }
}

impl From<[u8; 3]> for Point {
    fn from(arr: [u8; 3]) -> (p: Point) {
        Point(arr[0], arr[1], arr[2])
    }
}

impl vstd::std_specs::convert::FromSpecImpl<[u8; 3]> for Point {
    open spec fn obeys_from_spec() -> bool {
        true
    }

    open spec fn from_spec(arr: [u8; 3]) -> Point {
        Point(arr[0], arr[1], arr[2])
    }
}

/// Pixels whose channels add up to less than this are taken for background.
pub const DARK_BELOW: i32 = 80;

/// What `filter_image` makes of one pixel.
pub open spec fn filtered(p: Point) -> Point {
    if p.0 + p.1 + p.2 < DARK_BELOW {
        Point(0, 0, 0)
    } else {
        p
    }
}

/// A pixel matrix with its width `x` and its height `y`; `img[row][column]`.
pub struct Image {
    pub x: usize,
    pub y: usize,
    pub img: Vec<Vec<Point>>,
}

impl Image {
    /// Blacks out the dark pixels: every pixel whose channels add up to less
    /// than `DARK_BELOW` becomes black, every other pixel stays.
    pub fn filter_image(&mut self)
        ensures
            final(self).x == old(self).x,
            final(self).y == old(self).y,
            final(self).img.len() == old(self).img.len(),
            forall|r: int|
                0 <= r < old(self).img.len() ==> (#[trigger] final(self).img@[r]).len() == old(
                    self,
                ).img@[r].len(),
            forall|r: int, c: int|
                0 <= r < old(self).img.len() && 0 <= c < old(self).img@[r].len() ==> (
                #[trigger] final(self).img@[r]@[c]) == filtered(old(self).img@[r]@[c]),
    {
        let ghost source = self.img@;
        let rows = self.img.len();
        let mut out: Vec<Vec<Point>> = Vec::new();
        let mut r: usize = 0;
        while r < rows
            invariant
                r <= rows,
                rows == self.img.len(),
                self.img@ == source,
                out.len() == r,
                forall|i: int| 0 <= i < r ==> (#[trigger] out@[i]).len() == source[i].len(),
                forall|i: int, c: int|
                    0 <= i < r && 0 <= c < source[i].len() ==> (#[trigger] out@[i]@[c])
                        == filtered(source[i]@[c]),
            decreases rows - r,
        {
            let width = self.img[r].len();
            let mut row: Vec<Point> = Vec::new();
            let mut c: usize = 0;
            while c < width
                invariant
                    c <= width,
                    r < rows,
                    rows == self.img.len(),
                    self.img@ == source,
                    width == source[r as int].len(),
                    row.len() == c,
                    forall|j: int| 0 <= j < c ==> #[trigger] row@[j] == filtered(source[r as int]@[j]),
                decreases width - c,
            {
                let p = self.img[r][c];
                if p.sum() < DARK_BELOW {
                    row.push(Point(0, 0, 0));
                } else {
                    row.push(p);
                }
                c += 1;
            }
            out.push(row);
            r += 1;
        }
        self.img = out;
    }
}

/// Why a cell's pixels could not be read: the point at position `index` of
/// the cell at position `cell` lies outside the image.
#[derive(Debug, Clone, Copy, PartialEq, Eq, Structural)]
pub struct OutsideImage {
    pub cell: usize,
    pub index: usize,
}

/// Why no mean could be taken: the region has no pixel.
#[derive(Debug, Clone, Copy, PartialEq, Eq, Structural)]
pub struct EmptyRegion;

/// The point `(x, y)` names a pixel of the matrix: row `y`, column `x`.
pub open spec fn inside(matrix: Seq<Vec<Point>>, p: (i32, i32)) -> bool {
    0 <= p.1 < matrix.len() && 0 <= p.0 < matrix[p.1 as int].len()
}

/// Every point of the first `count` cells names a pixel of the matrix.
pub open spec fn all_inside(
    matrix: Seq<Vec<Point>>,
    outlines: Seq<Vec<(i32, i32)>>,
    count: int,
) -> bool {
    forall|i: int, j: int|
        0 <= i < count && 0 <= j < outlines[i].len() ==> inside(matrix, #[trigger] outlines[i]@[j])
}

/// The pixels that the first `count` cells name, cell by cell.
pub open spec fn gathered(
    out: Seq<Vec<Point>>,
    matrix: Seq<Vec<Point>>,
    outlines: Seq<Vec<(i32, i32)>>,
    count: int,
) -> bool {
    &&& out.len() == count
    &&& forall|i: int| 0 <= i < count ==> (#[trigger] out[i]).len() == outlines[i].len()
    &&& forall|i: int, j: int|
        0 <= i < count && 0 <= j < outlines[i].len() ==> (#[trigger] out[i]@[j])
            == matrix[outlines[i]@[j].1 as int]@[outlines[i]@[j].0 as int]
}

/// The colour of every point of every cell: for the point `(x, y)` the pixel
/// in row `y` and column `x` of the matrix. Fails at the first point, in the
/// order of the cells and of their points, that lies outside the matrix.
pub fn load_segmentations_as_matrix(
    rgb_matrix: &Vec<Vec<Point>>,
    outlines: &Vec<Vec<(i32, i32)>>,
) -> (result: Result<Vec<Vec<Point>>, OutsideImage>)
    ensures
        match result {
            Ok(out) => all_inside(rgb_matrix@, outlines@, outlines.len() as int) && gathered(
                out@,
                rgb_matrix@,
                outlines@,
                outlines.len() as int,
            ),
            Err(e) => {
                &&& e.cell < outlines.len()
                &&& e.index < outlines@[e.cell as int].len()
                &&& !inside(rgb_matrix@, outlines@[e.cell as int]@[e.index as int])
                &&& all_inside(rgb_matrix@, outlines@, e.cell as int)
                &&& forall|j: int|
                    0 <= j < e.index ==> inside(rgb_matrix@, #[trigger] outlines@[e.cell as int]@[j])
            },
        },
{
    let mut out: Vec<Vec<Point>> = Vec::new();
    let mut i: usize = 0;
    while i < outlines.len()
        invariant
            i <= outlines.len(),
            all_inside(rgb_matrix@, outlines@, i as int),
            gathered(out@, rgb_matrix@, outlines@, i as int),
        decreases outlines.len() - i,
    {
        let cell = &outlines[i];
        let mut row: Vec<Point> = Vec::new();
        let mut j: usize = 0;
        while j < cell.len()
            invariant
                j <= cell.len(),
                i < outlines.len(),
                cell == &outlines@[i as int],
                all_inside(rgb_matrix@, outlines@, i as int),
                row.len() == j,
                forall|t: int| 0 <= t < j ==> inside(rgb_matrix@, #[trigger] cell@[t]),
                forall|t: int|
                    0 <= t < j ==> #[trigger] row@[t] == rgb_matrix@[cell@[t].1 as int]@[cell@[t].0 as int],
            decreases cell.len() - j,
        {
            let p = cell[j];
            if p.1 < 0 || p.0 < 0 {
                return Err(OutsideImage { cell: i, index: j });
            }
            let y = p.1 as usize;
            let x = p.0 as usize;
            if y >= rgb_matrix.len() {
                return Err(OutsideImage { cell: i, index: j });
            }
            if x >= rgb_matrix[y].len() {
                return Err(OutsideImage { cell: i, index: j });
            }
            row.push(rgb_matrix[y][x]);
            j += 1;
        }
        let ghost done = out@;
        out.push(row);
        proof {
            assert forall|a: int, b: int|
                0 <= a < i + 1 && 0 <= b < outlines@[a].len() implies (#[trigger] out@[a]@[b])
                == rgb_matrix@[outlines@[a]@[b].1 as int]@[outlines@[a]@[b].0 as int] by {
                if a < i {
                    assert(out@[a] == done[a]);
                    assert(done[a]@[b] == rgb_matrix@[outlines@[a]@[b].1 as int]@[outlines@[a]@[b].0 as int]);
                }
            }
            assert forall|a: int| 0 <= a < i + 1 implies (#[trigger] out@[a]).len()
                == outlines@[a].len() by {
                if a < i {
                    assert(out@[a] == done[a]);
                }
            }
        }
        i += 1;
    }
    Ok(out)
}

/// The mean of each channel over a region, as fractions with one denominator.
#[derive(Debug, Clone, Copy, PartialEq, Eq, Structural)]
pub struct ChannelMean {
    /// The sum of the red values.
    pub red: u128,
    /// The sum of the green values.
    pub green: u128,
    /// The sum of the blue values.
    pub blue: u128,
    /// The number of pixels; one for a region without pixels, whose sums are zero.
    pub denominator: u128,
}

/// The sum of one channel over the first `n` pixels: channel 0 is red,
/// 1 is green, anything else is blue.
pub open spec fn channel_sum(pixels: Seq<Point>, channel: int, n: int) -> int
    decreases n,
{
    if n <= 0 {
        0
    } else {
        channel_sum(pixels, channel, n - 1) + if channel == 0 {
            pixels[n - 1].0 as int
        } else if channel == 1 {
            pixels[n - 1].1 as int
        } else {
            pixels[n - 1].2 as int
        }
    }
}

/// The mean colour of the pixels: each channel's sum over their number, and
/// the zero colour over one where there is no pixel.
pub open spec fn mean_of_region(pixels: Seq<Point>) -> ChannelMean {
    let n = pixels.len() as int;
    ChannelMean {
        red: channel_sum(pixels, 0, n) as u128,
        green: channel_sum(pixels, 1, n) as u128,
        blue: channel_sum(pixels, 2, n) as u128,
        denominator: if n == 0 {
            1u128
        } else {
            n as u128
        },
    }
}

/// The channel sums of the first `n` pixels stay within `255 * n`.
proof fn lemma_channel_sum_bound(pixels: Seq<Point>, channel: int, n: int)
    requires
        0 <= n <= pixels.len(),
    ensures
        0 <= channel_sum(pixels, channel, n) <= 255 * n,
    decreases n,
{
    if n > 0 {
        lemma_channel_sum_bound(pixels, channel, n - 1);
    }
}

/// The mean colour of one region; the zero colour over a denominator of one
/// where the region has no pixel.
pub fn region_mean_or_zero(pixels: &Vec<Point>) -> (mean: ChannelMean)
    ensures
        mean == mean_of_region(pixels@),
{
    let n = pixels.len();
    let mut red: u128 = 0;
    let mut green: u128 = 0;
    let mut blue: u128 = 0;
    let mut i: usize = 0;
    while i < n
        invariant
            i <= n,
            n == pixels.len(),
            red == channel_sum(pixels@, 0, i as int),
            green == channel_sum(pixels@, 1, i as int),
            blue == channel_sum(pixels@, 2, i as int),
        decreases n - i,
    {
        proof {
            lemma_channel_sum_bound(pixels@, 0, i as int);
            lemma_channel_sum_bound(pixels@, 1, i as int);
            lemma_channel_sum_bound(pixels@, 2, i as int);
        }
        let p = pixels[i];
        red = red + p.0 as u128;
        green = green + p.1 as u128;
        blue = blue + p.2 as u128;
        i += 1;
    }
    let denominator: u128 = if n == 0 {
        1
    } else {
        n as u128
    };
    ChannelMean { red, green, blue, denominator }
}

/// The mean colour of one region. Fails with `EmptyRegion` where the region
/// has no pixel.
pub fn region_mean(pixels: &Vec<Point>) -> (result: Result<ChannelMean, EmptyRegion>)
    ensures
        pixels.len() == 0 ==> result == Err::<ChannelMean, EmptyRegion>(EmptyRegion),
        pixels.len() > 0 ==> result == Ok::<ChannelMean, EmptyRegion>(mean_of_region(pixels@)),
{
    if pixels.len() == 0 {
        return Err(EmptyRegion);
    }
    Ok(region_mean_or_zero(pixels))
}

/// The mean colour of every cell, in the order of the cells. A cell without
/// pixels gets the zero colour, so that one empty cell does not stop the rest.
pub fn channel_mean(channels: &Vec<Vec<Point>>) -> (means: Vec<ChannelMean>)
    ensures
        means.len() == channels.len(),
        forall|i: int| 0 <= i < channels.len() ==> #[trigger] means@[i] == mean_of_region(channels@[i]@),
{
    let mut means: Vec<ChannelMean> = Vec::new();
    let mut i: usize = 0;
    while i < channels.len()
        invariant
            i <= channels.len(),
            means.len() == i,
            forall|x: int| 0 <= x < i ==> #[trigger] means@[x] == mean_of_region(channels@[x]@),
        decreases channels.len() - i,
    {
        let m = region_mean_or_zero(&channels[i]);
        means.push(m);
        i += 1;
    }
    means
}

} // verus!
