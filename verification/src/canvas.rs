//! The pixel buffer: an `image` RGB buffer held behind a small trusted
//! boundary. Two uninterpreted names, `canvas_pixels` and `canvas_dims`,
//! stand for what a buffer holds and how large it is; every trusted wrapper
//! states its effect over those names, and all drawing logic is verified
//! against them.

use crate::geom::{rgb, Color};
use vstd::prelude::*;

verus! {

/// A fixed-size RGB pixel grid, width x height, origin at the top left with
/// y increasing downward. Wraps the `image` crate's RGB buffer, which Verus
/// does not look into; the wrappers below state its behavior.
#[verifier::external_body]
pub struct Canvas {
    img: image::RgbImage,
}

/// The pixels a canvas holds: coordinate to channel triple. Meaningful on
/// the in-bounds coordinates of the canvas's grid.
pub uninterp spec fn canvas_pixels(canvas: Canvas) -> Map<(int, int), (u8, u8, u8)>;

/// The width and height a canvas was created with.
pub uninterp spec fn canvas_dims(canvas: Canvas) -> (int, int);

/// A coordinate that lies on a grid of the given dimensions.
pub open spec fn in_bounds(k: (int, int), dims: (int, int)) -> bool {
    0 <= k.0 < dims.0 && 0 <= k.1 < dims.1
}

/// One clipped write: the pixel map after writing color `c` at `k`, which
/// changes nothing when `k` is off the grid.
pub open spec fn plot_spec(
    m: Map<(int, int), (u8, u8, u8)>,
    dims: (int, int),
    k: (int, int),
    c: (u8, u8, u8),
) -> Map<(int, int), (u8, u8, u8)> {
    if in_bounds(k, dims) {
        m.insert(k, c)
    } else {
        m
    }
}

/// Clipped writes of one color at each coordinate of a sequence, first to
/// last.
pub open spec fn paint_seq(
    m: Map<(int, int), (u8, u8, u8)>,
    dims: (int, int),
    ks: Seq<(int, int)>,
    c: (u8, u8, u8),
) -> Map<(int, int), (u8, u8, u8)>
    decreases ks.len(),
{
    if ks.len() == 0 {
        m
    } else {
        paint_seq(plot_spec(m, dims, ks[0], c), dims, ks.drop_first(), c)
    }
}

/// Relies on `image::ImageBuffer::from_pixel`: builds a `width` x `height`
/// buffer with every pixel set to the given one. Its documentation promises
/// a panic only when the buffer would exceed a vector's maximum size.
#[verifier::external_body]
fn make_canvas(width: u32, height: u32, background: Color) -> (canvas: Canvas)
    requires
        (width as int) * (height as int) * 3 <= isize::MAX as int,
    ensures
        canvas_dims(canvas) == (width as int, height as int),
        forall|k: (int, int)|
            in_bounds(k, (width as int, height as int)) ==> (#[trigger] canvas_pixels(canvas)[k])
                == rgb(background),
        forall|k: (int, int)|
            #[trigger] canvas_pixels(canvas).contains_key(k) <==> in_bounds(
                k,
                (width as int, height as int),
            ),
{
    Canvas {
        img: image::ImageBuffer::from_pixel(width, height, image::Rgb([background.r, background.g,
            background.b])),
    }
}

/// Relies on `image::ImageBuffer::put_pixel`: replaces the pixel at an
/// in-bounds coordinate and touches nothing else. Its documentation promises
/// a panic when the coordinate is out of bounds, so that input is excluded.
#[verifier::external_body]
fn put_pixel_raw(canvas: &mut Canvas, x: u32, y: u32, c: Color)
    requires
        (x as int) < canvas_dims(*old(canvas)).0,
        (y as int) < canvas_dims(*old(canvas)).1,
    ensures
        canvas_dims(*final(canvas)) == canvas_dims(*old(canvas)),
        canvas_pixels(*final(canvas)) == canvas_pixels(*old(canvas)).insert(
            (x as int, y as int),
            rgb(c),
        ),
{
    canvas.img.put_pixel(x, y, image::Rgb([c.r, c.g, c.b]));
}

/// Relies on `image::ImageBuffer::get_pixel`: reads the pixel at an
/// in-bounds coordinate. Its documentation promises a panic when the
/// coordinate is out of bounds, so that input is excluded.
#[verifier::external_body]
fn get_pixel_raw(canvas: &Canvas, x: u32, y: u32) -> (c: Color)
    requires
        (x as int) < canvas_dims(*canvas).0,
        (y as int) < canvas_dims(*canvas).1,
    ensures
        rgb(c) == canvas_pixels(*canvas)[(x as int, y as int)],
{
    let p = canvas.img.get_pixel(x, y);
    Color { r: p.0[0], g: p.0[1], b: p.0[2] }
}

/// Relies on `image::ImageBuffer::width`: returns the width the buffer was
/// created with.
#[verifier::external_body]
fn width_raw(canvas: &Canvas) -> (w: u32)
    ensures
        (w as int) == canvas_dims(*canvas).0,
{
    canvas.img.width()
}

/// Relies on `image::ImageBuffer::height`: returns the height the buffer
/// was created with.
#[verifier::external_body]
fn height_raw(canvas: &Canvas) -> (h: u32)
    ensures
        (h as int) == canvas_dims(*canvas).1,
{
    canvas.img.height()
}

/// Relies on `image::ImageBuffer::into_raw`: hands out the underlying
/// bytes, row-major, three per pixel in r, g, b order, as the buffer
/// source lays them out.
#[verifier::external_body]
fn into_raw_bytes(canvas: Canvas) -> (bytes: Vec<u8>)
    ensures
        bytes@.len() == 3 * canvas_dims(canvas).0 * canvas_dims(canvas).1,
        forall|k: (int, int)|
            in_bounds(k, canvas_dims(canvas)) ==> {
                let i = 3 * (k.1 * canvas_dims(canvas).0 + k.0);
                bytes@[i] == (#[trigger] canvas_pixels(canvas)[k]).0 && bytes@[i + 1]
                    == canvas_pixels(canvas)[k].1 && bytes@[i + 2] == canvas_pixels(canvas)[k].2
            },
{
    canvas.img.into_raw()
}

/// Creates a canvas filled with a background color.
pub fn new_canvas(width: u32, height: u32, background: Color) -> (canvas: Canvas)
    requires
        (width as int) * (height as int) * 3 <= isize::MAX as int,
    ensures
        canvas_dims(canvas) == (width as int, height as int),
        forall|k: (int, int)|
            in_bounds(k, (width as int, height as int)) ==> (#[trigger] canvas_pixels(canvas)[k])
                == rgb(background),
        forall|k: (int, int)|
            #[trigger] canvas_pixels(canvas).contains_key(k) <==> in_bounds(
                k,
                (width as int, height as int),
            ),
{
    make_canvas(width, height, background)
}

/// The canvas's width.
pub fn canvas_width(canvas: &Canvas) -> (w: u32)
    ensures
        (w as int) == canvas_dims(*canvas).0,
{
    width_raw(canvas)
}

/// The canvas's height.
pub fn canvas_height(canvas: &Canvas) -> (h: u32)
    ensures
        (h as int) == canvas_dims(*canvas).1,
{
    height_raw(canvas)
}

/// Reads the pixel at an in-bounds coordinate.
pub fn pixel_at(canvas: &Canvas, x: u32, y: u32) -> (c: Color)
    requires
        (x as int) < canvas_dims(*canvas).0,
        (y as int) < canvas_dims(*canvas).1,
    ensures
        rgb(c) == canvas_pixels(*canvas)[(x as int, y as int)],
{
    get_pixel_raw(canvas, x, y)
}

/// Consumes the canvas and returns its pixels as raw bytes, row-major from
/// the top-left, three bytes per pixel in r, g, b order.
pub fn canvas_bytes(canvas: Canvas) -> (bytes: Vec<u8>)
    ensures
        bytes@.len() == 3 * canvas_dims(canvas).0 * canvas_dims(canvas).1,
        forall|k: (int, int)|
            in_bounds(k, canvas_dims(canvas)) ==> {
                let i = 3 * (k.1 * canvas_dims(canvas).0 + k.0);
                bytes@[i] == (#[trigger] canvas_pixels(canvas)[k]).0 && bytes@[i + 1]
                    == canvas_pixels(canvas)[k].1 && bytes@[i + 2] == canvas_pixels(canvas)[k].2
            },
{
    into_raw_bytes(canvas)
}

/// Writes one pixel with clipping: a coordinate off the grid is skipped.
pub fn plot(canvas: &mut Canvas, x: i64, y: i64, c: Color)
    ensures
        canvas_dims(*final(canvas)) == canvas_dims(*old(canvas)),
        canvas_pixels(*final(canvas)) == plot_spec(
            canvas_pixels(*old(canvas)),
            canvas_dims(*old(canvas)),
            (x as int, y as int),
            rgb(c),
        ),
{
    if x >= 0 && y >= 0 {
        let w = width_raw(canvas);
        let h = height_raw(canvas);
        if x < w as i64 && y < h as i64 {
            put_pixel_raw(canvas, x as u32, y as u32, c);
        }
    }
}

} // verus!
