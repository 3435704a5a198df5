//! Raster images of the `image` crate: reading their pixels into a matrix and
//! painting cluster labels into a new one.

use crate::pixels::Point;
use crate::random::random_byte;
use rand::rngs::StdRng;
use image::{Rgb, RgbImage};
use vstd::prelude::*;

verus! {

/// An RGB image held in an `image::RgbImage`. The buffer is opaque to the
/// proofs: what it holds is named by `raster_width` and `raster_rows`.
#[verifier::external_body]
pub struct Raster {
    pub image: RgbImage,
}

/// The number of pixels in each row of the image.
pub uninterp spec fn raster_width(raster: Raster) -> nat;

/// The pixels of the image as red, green and blue, row by row from the top,
/// each row from the left: the pixel at `(x, y)` is `raster_rows(r)[y][x]`.
pub uninterp spec fn raster_rows(raster: Raster) -> Seq<Seq<(u8, u8, u8)>>;

/// A black image, made by `ImageBuffer::new`. Trusted: the buffer has the
/// given width and height and every channel of every pixel is zero. The
/// call panics when the buffer's length, three bytes a pixel, is more than
/// a vector can hold; `requires` leaves those sizes out.
#[verifier::external_body]
pub(crate) fn new_raster(width: u32, height: u32) -> (raster: Raster)
    requires
        3 * width * height <= isize::MAX,
    ensures
        raster_width(raster) == width,
        raster_rows(raster) == Seq::new(
            height as nat,
            |y: int| Seq::new(width as nat, |x: int| (0u8, 0u8, 0u8)),
        ),
{
    Raster { image: RgbImage::new(width, height) }
}

/// Sets one pixel with `ImageBuffer::put_pixel`. Trusted: the pixel at
/// `(x, y)` becomes the colour and no other pixel changes, nor the size. The
/// call panics outside the image, which `requires` leaves out.
#[verifier::external_body]
pub(crate) fn put_pixel(raster: &mut Raster, x: u32, y: u32, color: Point)
    requires
        y < raster_rows(*old(raster)).len(),
        x < raster_rows(*old(raster))[y as int].len(),
    ensures
        raster_width(*final(raster)) == raster_width(*old(raster)),
        raster_rows(*final(raster)) == raster_rows(*old(raster)).update(
            y as int,
            raster_rows(*old(raster))[y as int].update(x as int, (color.0, color.1, color.2)),
        ),
{
    raster.image.put_pixel(x, y, Rgb([color.0, color.1, color.2]));
}

/// Reads one pixel with `ImageBuffer::get_pixel`. The call panics outside
/// the image, which `requires` leaves out.
#[verifier::external_body]
pub(crate) fn pixel_at(raster: &Raster, x: u32, y: u32) -> (color: Point)
    requires
        y < raster_rows(*raster).len(),
        x < raster_rows(*raster)[y as int].len(),
    ensures
        (color.0, color.1, color.2) == raster_rows(*raster)[y as int][x as int],
{
    let p = raster.image.get_pixel(x, y);
    Point(p.0[0], p.0[1], p.0[2])
}

/// The width and height that `ImageBuffer::dimensions` reports. Trusted:
/// they are the length of every row and the number of rows.
#[verifier::external_body]
pub(crate) fn raster_size(raster: &Raster) -> (size: (u32, u32))
    ensures
        size.0 == raster_width(*raster),
        size.1 == raster_rows(*raster).len(),
        forall|y: int| 0 <= y < size.1 ==> (#[trigger] raster_rows(*raster)[y]).len() == size.0,
{
    raster.image.dimensions()
}

/// The colour as the triple that the image holds.
pub open spec fn triple(p: Point) -> (u8, u8, u8) {
    (p.0, p.1, p.2)
}

/// The image is `width` pixels wide and `height` pixels high.
pub open spec fn has_size(raster: Raster, width: int, height: int) -> bool {
    &&& raster_width(raster) == width
    &&& raster_rows(raster).len() == height
    &&& forall|y: int| 0 <= y < height ==> (#[trigger] raster_rows(raster)[y]).len() == width
}

/// The pixels of the image as a matrix of colours, `matrix[row][column]`.
pub fn image_as_matrix(raster: &Raster) -> (matrix: Vec<Vec<Point>>)
    ensures
        matrix.len() == raster_rows(*raster).len(),
        forall|y: int|
            0 <= y < matrix.len() ==> (#[trigger] matrix@[y]).len() == raster_width(*raster),
        forall|y: int, x: int|
            0 <= y < matrix.len() && 0 <= x < raster_width(*raster) ==> triple(
                #[trigger] matrix@[y]@[x],
            ) == raster_rows(*raster)[y][x],
{
    let (width, height) = raster_size(raster);
    let mut matrix: Vec<Vec<Point>> = Vec::new();
    let mut y: u32 = 0;
    while y < height
        invariant
            y <= height,
            has_size(*raster, width as int, height as int),
            matrix.len() == y,
            forall|r: int| 0 <= r < y ==> (#[trigger] matrix@[r]).len() == width,
            forall|r: int, c: int|
                0 <= r < y && 0 <= c < width ==> triple(#[trigger] matrix@[r]@[c]) == raster_rows(
                    *raster,
                )[r][c],
        decreases height - y,
    {
        let mut row: Vec<Point> = Vec::new();
        let mut x: u32 = 0;
        while x < width
            invariant
                x <= width,
                y < height,
                has_size(*raster, width as int, height as int),
                row.len() == x,
                forall|c: int|
                    0 <= c < x ==> triple(#[trigger] row@[c]) == raster_rows(*raster)[y as int][c],
            decreases width - x,
        {
            assert(raster_rows(*raster)[y as int].len() == width);
            let p = pixel_at(raster, x, y);
            row.push(p);
            x += 1;
        }
        matrix.push(row);
        y += 1;
    }
    matrix
}

/// The colour for a label that has none.
pub open spec fn fallback_color() -> Point {
    Point(30, 30, 30)
}

/// The colour of the pixel `(x, y)` of the rendering: the colour of the label
/// that the matrix holds there; grey for a label without a colour; black
/// where the matrix holds no label.
pub open spec fn painted(labels: Seq<Vec<usize>>, colors: Seq<Point>, x: int, y: int) -> Point {
    if y < labels.len() && x < labels[y].len() {
        if labels[y]@[x] < colors.len() {
            colors[labels[y]@[x] as int]
        } else {
            fallback_color()
        }
    } else {
        Point(0, 0, 0)
    }
}

/// Paints the labels: an image of the given size in which each pixel has the
/// colour of its label. `final_labels_matrix[y][x]` is the label of pixel
/// `(x, y)`. The image, three bytes a pixel, must fit in memory.
pub fn render_clustered_image(
    final_labels_matrix: &Vec<Vec<usize>>,
    cluster_colors: &Vec<Point>,
    img_width: u32,
    img_height: u32,
) -> (raster: Raster)
    requires
        3 * img_width * img_height <= isize::MAX,
    ensures
        has_size(raster, img_width as int, img_height as int),
        forall|y: int, x: int|
            0 <= y < img_height && 0 <= x < img_width ==> #[trigger] raster_rows(raster)[y][x]
                == triple(painted(final_labels_matrix@, cluster_colors@, x, y)),
{
    let mut raster = new_raster(img_width, img_height);
    let mut y: u32 = 0;
    while y < img_height
        invariant
            y <= img_height,
            has_size(raster, img_width as int, img_height as int),
            forall|r: int, c: int|
                0 <= r < y && 0 <= c < img_width ==> #[trigger] raster_rows(raster)[r][c] == triple(
                    painted(final_labels_matrix@, cluster_colors@, c, r),
                ),
        decreases img_height - y,
    {
        let mut x: u32 = 0;
        while x < img_width
            invariant
                x <= img_width,
                y < img_height,
                has_size(raster, img_width as int, img_height as int),
                forall|r: int, c: int|
                    0 <= r < y && 0 <= c < img_width ==> #[trigger] raster_rows(raster)[r][c]
                        == triple(painted(final_labels_matrix@, cluster_colors@, c, r)),
                forall|c: int|
                    0 <= c < x ==> #[trigger] raster_rows(raster)[y as int][c] == triple(
                        painted(final_labels_matrix@, cluster_colors@, c, y as int),
                    ),
            decreases img_width - x,
        {
            let row = y as usize;
            let column = x as usize;
            let color = if row < final_labels_matrix.len() && column
                < final_labels_matrix[row].len() {
                let label = final_labels_matrix[row][column];
                if label < cluster_colors.len() {
                    cluster_colors[label]
                } else {
                    Point(30, 30, 30)
                }
            } else {
                Point(0, 0, 0)
            };
            let ghost before = raster_rows(raster);
            assert(before[y as int].len() == img_width);
            put_pixel(&mut raster, x, y, color);
            proof {
                let after = raster_rows(raster);
                assert forall|r: int| 0 <= r < img_height implies (#[trigger] after[r]).len()
                    == img_width by {
                    assert(before[r].len() == img_width);
                }
                assert forall|r: int, c: int| 0 <= r < y && 0 <= c < img_width implies #[trigger] after[r][c]
                    == triple(painted(final_labels_matrix@, cluster_colors@, c, r)) by {
                    assert(before[r][c] == triple(painted(final_labels_matrix@, cluster_colors@, c, r)));
                }
                assert forall|c: int| 0 <= c < x + 1 implies #[trigger] after[y as int][c] == triple(
                    painted(final_labels_matrix@, cluster_colors@, c, y as int),
                ) by {
                    if c < x {
                        assert(before[y as int][c] == triple(
                            painted(final_labels_matrix@, cluster_colors@, c, y as int),
                        ));
                    }
                }
            }
            x += 1;
        }
        y += 1;
    }
    raster
}

/// The number of colours that the palette fixes.
pub const FIXED_COLORS: usize = 15;

/// The fixed colours of the palette: red, green, blue, yellow, cyan, magenta,
/// silver, maroon, olive, dark green, purple, teal, orange, pink, indigo.
pub open spec fn fixed_color_spec(i: int) -> Point {
    if i == 0 {
        Point(255, 0, 0)
    } else if i == 1 {
        Point(0, 255, 0)
    } else if i == 2 {
        Point(0, 0, 255)
    } else if i == 3 {
        Point(255, 255, 0)
    } else if i == 4 {
        Point(0, 255, 255)
    } else if i == 5 {
        Point(255, 0, 255)
    } else if i == 6 {
        Point(192, 192, 192)
    } else if i == 7 {
        Point(128, 0, 0)
    } else if i == 8 {
        Point(128, 128, 0)
    } else if i == 9 {
        Point(0, 128, 0)
    } else if i == 10 {
        Point(128, 0, 128)
    } else if i == 11 {
        Point(0, 128, 128)
    } else if i == 12 {
        Point(255, 165, 0)
    } else if i == 13 {
        Point(255, 192, 203)
    } else {
        Point(75, 0, 130)
    }
}

/// The fixed colour at position `i` of the palette.
pub fn fixed_color(i: usize) -> (color: Point)
    requires
        i < FIXED_COLORS,
    ensures
        color == fixed_color_spec(i as int),
{
    match i {
        0 => Point(255, 0, 0),
        1 => Point(0, 255, 0),
        2 => Point(0, 0, 255),
        3 => Point(255, 255, 0),
        4 => Point(0, 255, 255),
        5 => Point(255, 0, 255),
        6 => Point(192, 192, 192),
        7 => Point(128, 0, 0),
        8 => Point(128, 128, 0),
        9 => Point(0, 128, 0),
        10 => Point(128, 0, 128),
        11 => Point(0, 128, 128),
        12 => Point(255, 165, 0),
        13 => Point(255, 192, 203),
        _ => Point(75, 0, 130),
    }
}

/// A colour for each of `num_colors` clusters: the fixed colours of the
/// palette first, then colours drawn from `rng`, of which nothing is known.
pub fn label_colors(num_colors: usize, rng: &mut StdRng) -> (colors: Vec<Point>)
    ensures
        colors.len() == num_colors,
        forall|i: int|
            0 <= i < num_colors && i < FIXED_COLORS ==> #[trigger] colors@[i] == fixed_color_spec(i),
{
    let mut colors: Vec<Point> = Vec::new();
    let mut i: usize = 0;
    while i < num_colors
        invariant
            i <= num_colors,
            colors.len() == i,
            forall|x: int| 0 <= x < i && x < FIXED_COLORS ==> #[trigger] colors@[x] == fixed_color_spec(x),
        decreases num_colors - i,
    {
        if i < FIXED_COLORS {
            colors.push(fixed_color(i));
        } else {
            let red = random_byte(rng);
            let green = random_byte(rng);
            let blue = random_byte(rng);
            colors.push(Point(red, green, blue));
        }
        i += 1;
    }
    colors
}

} // verus!
