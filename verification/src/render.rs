//! Where the pixels of a rendering go, and the image they make.

use vstd::prelude::*;

verus! {

/// A place in an image: the column, counted from the left, and the row,
/// counted from the top.
#[derive(Clone, Copy, Debug, PartialEq, Eq, Structural)]
pub struct Place {
    pub x: u32,
    pub y: u32,
}

/// Where the sample numbered `i` of a rendering `width` wide and `height` high
/// goes. Samples are numbered row by row from the bottom row up, each row from
/// left to right.
pub open spec fn place_of(i: int, width: int, height: int) -> (int, int) {
    (i % width, height - 1 - i / width)
}

/// Computes where the sample numbered `i` goes.
pub fn pixel_at(i: u32, width: u32, height: u32) -> (p: Place)
    requires
        i < width * height,
    ensures
        (p.x as int, p.y as int) == place_of(i as int, width as int, height as int),
        p.x < width,
        p.y < height,
{
    proof {
        assert(width > 0) by (nonlinear_arith)
            requires
                i < width * height,
        ;
        assert(i / width < height) by (nonlinear_arith)
            requires
                i < width * height,
                width > 0,
        ;
    }
    let x = i % width;
    let y = i / width;
    Place { x, y: height - 1 - y }
}

/// Different samples go to different places.
pub proof fn lemma_places_differ(i: int, j: int, width: int, height: int)
    requires
        width > 0,
        0 <= i,
        0 <= j,
        i != j,
    ensures
        place_of(i, width, height) != place_of(j, width, height),
{
    assert(i == width * (i / width) + i % width) by (nonlinear_arith)
        requires
            width > 0,
    ;
    assert(j == width * (j / width) + j % width) by (nonlinear_arith)
        requires
            width > 0,
    ;
}

/// An image of three colour channels in memory, kept by the `image` crate: an
/// `image::RgbImage`.
#[verifier::external_body]
pub struct Canvas {
    img: image::RgbImage,
}

/// The colour of every pixel of an image, by column and row.
pub uninterp spec fn canvas_colors(canvas: Canvas) -> Map<(int, int), Seq<u8>>;

/// The width and the height that an image was made with.
pub uninterp spec fn canvas_extent(canvas: Canvas) -> (int, int);

/// Makes an image `width` wide and `height` high: `ImageBuffer::new`, which
/// panics where the three bytes of all pixels together are more than a vector
/// can hold. The image has the width and height asked for.
#[verifier::external_body]
fn blank(width: u32, height: u32) -> (canvas: Canvas)
    requires
        3 * width * height <= isize::MAX,
    ensures
        canvas_extent(canvas) == (width as int, height as int),
{
    Canvas { img: image::RgbImage::new(width, height) }
}

/// Sets the pixel in column `x` and row `y`: `ImageBuffer::put_pixel`, which
/// panics where the column or the row is outside the image. The pixel takes the
/// colour `rgb`; the other pixels and the extent stay as they were.
#[verifier::external_body]
fn put_pixel(canvas: &mut Canvas, x: u32, y: u32, rgb: [u8; 3])
    requires
        x < canvas_extent(*old(canvas)).0,
        y < canvas_extent(*old(canvas)).1,
    ensures
        canvas_extent(*final(canvas)) == canvas_extent(*old(canvas)),
        canvas_colors(*final(canvas)) == canvas_colors(*old(canvas)).insert(
            (x as int, y as int),
            rgb@,
        ),
{
    canvas.img.put_pixel(x, y, image::Rgb(rgb))
}

/// Hands out the bytes of an image: `ImageBuffer::into_raw`. The bytes are the
/// three channels of every pixel, row after row from the top, each row from the
/// left.
#[verifier::external_body]
fn into_raw(canvas: Canvas) -> (bytes: Vec<u8>)
    ensures
        bytes@.len() == 3 * canvas_extent(canvas).0 * canvas_extent(canvas).1,
        forall|x: int, y: int, channel: int|
            0 <= x < canvas_extent(canvas).0 && 0 <= y < canvas_extent(canvas).1 && 0 <= channel
                < 3 ==> #[trigger] bytes@[byte_of(x, y, channel, canvas_extent(canvas).0)]
                == canvas_colors(canvas)[(x, y)][channel],
{
    canvas.img.into_raw()
}

/// Where the byte of channel `channel` of the pixel in column `x` and row `y`
/// stands among the bytes of an image `width` wide.
pub open spec fn byte_of(x: int, y: int, channel: int, width: int) -> int {
    3 * (y * width + x) + channel
}

/// Lays out the rendering `colors`, whose samples are numbered row by row
/// from the bottom row up, as the bytes of an image `width` wide and `height`
/// high: three channels for every pixel, row after row from the top.
pub fn paint(colors: &Vec<[u8; 3]>, width: u32, height: u32) -> (bytes: Vec<u8>)
    requires
        colors.len() == width * height,
        3 * width * height <= isize::MAX,
        width * height <= u32::MAX,
    ensures
        bytes@.len() == 3 * width * height,
        forall|i: int, channel: int|
            0 <= i < width * height && 0 <= channel < 3 ==> #[trigger] bytes@[byte_of(
                place_of(i, width as int, height as int).0,
                place_of(i, width as int, height as int).1,
                channel,
                width as int,
            )] == colors@[i]@[channel],
{
    let mut canvas = blank(width, height);
    let n: u32 = colors.len() as u32;
    let mut i: u32 = 0;
    while i < n
        invariant
            i <= n,
            n == width * height,
            n == colors.len(),
            canvas_extent(canvas) == (width as int, height as int),
            forall|j: int|
                0 <= j < i ==> canvas_colors(canvas)[#[trigger] place_of(
                    j,
                    width as int,
                    height as int,
                )] == colors@[j]@,
        decreases n - i,
    {
        let at = pixel_at(i, width, height);
        let ghost before = canvas_colors(canvas);
        put_pixel(&mut canvas, at.x, at.y, colors[i as usize]);
        proof {
            assert(width > 0) by (nonlinear_arith)
                requires
                    i < width * height,
            ;
            assert forall|j: int| 0 <= j < i + 1 implies canvas_colors(canvas)[#[trigger] place_of(
                j,
                width as int,
                height as int,
            )] == colors@[j]@ by {
                if j < i {
                    lemma_places_differ(j, i as int, width as int, height as int);
                    assert(before[place_of(j, width as int, height as int)] == colors@[j]@);
                }
            }
        }
        i = i + 1;
    }
    let ghost painted = canvas;
    let bytes = into_raw(canvas);
    proof {
        assert forall|i: int, channel: int|
            0 <= i < width * height && 0 <= channel < 3 implies #[trigger] bytes@[byte_of(
            place_of(i, width as int, height as int).0,
            place_of(i, width as int, height as int).1,
            channel,
            width as int,
        )] == colors@[i]@[channel] by {
            lemma_place_is_inside(i, width as int, height as int);
            assert(canvas_colors(painted)[place_of(i, width as int, height as int)] == colors@[i]@);
        }
    }
    bytes
}

/// Every sample of a rendering goes to a place inside the image.
pub proof fn lemma_place_is_inside(i: int, width: int, height: int)
    requires
        0 <= width,
        0 <= height,
        0 <= i < width * height,
    ensures
        0 <= place_of(i, width, height).0 < width,
        0 <= place_of(i, width, height).1 < height,
{
    assert(width > 0 && 0 <= i / width < height) by (nonlinear_arith)
        requires
            0 <= width,
            0 <= height,
            0 <= i < width * height,
    ;
}

} // verus!
