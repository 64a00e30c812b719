//! The raster: a width by height grid of pixels held in an image buffer.

use vstd::prelude::*;
use crate::color::Color;
use crate::error::SortError;
use crate::grid::Grid;

verus! {

/// A grid of pixels, `width` columns by `height` rows, kept in an
/// `image::RgbaImage`. Verus does not look inside: what it holds is known
/// through `raster_width`, `raster_height` and `raster_pixels`.
#[verifier::external_body]
pub struct Raster {
    buf: image::RgbaImage,
}

/// Number of columns of a raster.
pub uninterp spec fn raster_width(raster: Raster) -> nat;

/// Number of rows of a raster.
pub uninterp spec fn raster_height(raster: Raster) -> nat;

/// The colour that a raster holds at each coordinate `(x, y)` inside it.
pub uninterp spec fn raster_pixels(raster: Raster) -> Map<(int, int), Color>;

/// The colour that row-major RGBA bytes `data` give to the cell `(x, y)` of
/// a grid `width` cells wide: four bytes from index `4 * (y * width + x)` on.
pub open spec fn sample_color(data: Seq<u8>, width: int, x: int, y: int) -> Color {
    let i = 4 * (y * width + x);
    Color { r: data[i], g: data[i + 1], b: data[i + 2], a: data[i + 3] }
}

/// Whether `data` has the bytes of a grid `width` by `height`: four bytes for
/// every cell, and a row's count of bytes within the range of `usize`.
pub open spec fn fills(data: Seq<u8>, width: int, height: int) -> bool {
    4 * width <= usize::MAX && 4 * width * height <= data.len()
}

/// Whether `data` holds at least the four bytes of every cell of `g`, each
/// cell's bytes spelling its colour.
pub open spec fn holds_grid(data: Seq<u8>, g: Grid) -> bool {
    &&& 4 * g.width * g.height <= data.len()
    &&& forall|x: int, y: int|
        0 <= x < g.width && 0 <= y < g.height ==> sample_color(data, g.width, x, y)
            == #[trigger] g.pixels[(x, y)]
}

impl View for Raster {
    type V = Grid;

    open spec fn view(&self) -> Grid {
        Grid {
            width: raster_width(*self) as int,
            height: raster_height(*self) as int,
            pixels: Map::new(
                |c: (int, int)| 0 <= c.0 < raster_width(*self) && 0 <= c.1 < raster_height(*self),
                |c: (int, int)| raster_pixels(*self)[c],
            ),
        }
    }
}

/// `ImageBuffer::from_raw` on an RGBA buffer of bytes: it accepts `data`
/// exactly when multiplying 4 by `width` and then by `height` stays within
/// `usize` and `data` has at least that many bytes, and then the cell
/// `(x, y)` holds the four bytes that start at index `4 * (y * width + x)`.
#[verifier::external_body]
fn buffer_from_raw(width: u32, height: u32, data: Vec<u8>) -> (made: Option<Raster>)
    ensures
        made.is_some() == fills(data@, width as int, height as int),
        made matches Some(raster) ==> {
            &&& raster_width(raster) == width
            &&& raster_height(raster) == height
            &&& forall|x: int, y: int|
                0 <= x < width && 0 <= y < height ==> #[trigger] raster_pixels(raster)[(x, y)]
                    == sample_color(data@, width as int, x, y)
        },
{
    image::RgbaImage::from_raw(width, height, data).map(|buf| Raster { buf })
}

/// `ImageBuffer::into_raw`: the bytes behind the buffer, row after row, four
/// bytes a cell; the buffer may end in bytes that belong to no cell.
#[verifier::external_body]
fn buffer_into_raw(raster: Raster) -> (data: Vec<u8>)
    ensures
        4 * raster_width(raster) * raster_height(raster) <= data@.len(),
        forall|x: int, y: int|
            0 <= x < raster_width(raster) && 0 <= y < raster_height(raster) ==> sample_color(
                data@,
                raster_width(raster) as int,
                x,
                y,
            ) == #[trigger] raster_pixels(raster)[(x, y)],
{
    raster.buf.into_raw()
}

/// `ImageBuffer::width`: the number of columns.
#[verifier::external_body]
fn buffer_width(raster: &Raster) -> (w: u32)
    ensures
        w == raster_width(*raster),
{
    raster.buf.width()
}

/// `ImageBuffer::height`: the number of rows.
#[verifier::external_body]
fn buffer_height(raster: &Raster) -> (h: u32)
    ensures
        h == raster_height(*raster),
{
    raster.buf.height()
}

/// `ImageBuffer::get_pixel`: the colour stored at `(x, y)`, which must lie
/// inside the raster.
#[verifier::external_body]
fn buffer_get_pixel(raster: &Raster, x: u32, y: u32) -> (color: Color)
    requires
        x < raster_width(*raster),
        y < raster_height(*raster),
    ensures
        color == raster_pixels(*raster)[(x as int, y as int)],
{
    let image::Rgba([r, g, b, a]) = *raster.buf.get_pixel(x, y);
    Color { r, g, b, a }
}

/// `ImageBuffer::put_pixel`: stores `color` at `(x, y)`, which must lie inside
/// the raster, and leaves the size and every other cell as they were.
#[verifier::external_body]
fn buffer_put_pixel(raster: &mut Raster, x: u32, y: u32, color: Color)
    requires
        x < raster_width(*old(raster)),
        y < raster_height(*old(raster)),
    ensures
        raster_width(*final(raster)) == raster_width(*old(raster)),
        raster_height(*final(raster)) == raster_height(*old(raster)),
        raster_pixels(*final(raster)) == raster_pixels(*old(raster)).insert(
            (x as int, y as int),
            color,
        ),
{
    raster.buf.put_pixel(x, y, image::Rgba([color.r, color.g, color.b, color.a]));
}

/// `image::imageops::rotate180`: a new buffer of the same size in which the
/// cell `(x, y)` holds what `(width - 1 - x, height - 1 - y)` held.
#[verifier::external_body]
fn buffer_rotate180(raster: &Raster) -> (turned: Raster)
    ensures
        raster_width(turned) == raster_width(*raster),
        raster_height(turned) == raster_height(*raster),
        forall|x: int, y: int|
            0 <= x < raster_width(turned) && 0 <= y < raster_height(turned)
                ==> #[trigger] raster_pixels(turned)[(x, y)] == raster_pixels(*raster)[(
                raster_width(*raster) - 1 - x,
                raster_height(*raster) - 1 - y,
            )],
{
    Raster { buf: image::imageops::rotate180(&raster.buf) }
}

/// `image::imageops::rotate90`: a new buffer, as wide as `raster` is high and
/// as high as it is wide, in which the cell `(x, y)` holds what
/// `(y, height - 1 - x)` held.
#[verifier::external_body]
fn buffer_rotate90(raster: &Raster) -> (turned: Raster)
    ensures
        raster_width(turned) == raster_height(*raster),
        raster_height(turned) == raster_width(*raster),
        forall|x: int, y: int|
            0 <= x < raster_width(turned) && 0 <= y < raster_height(turned)
                ==> #[trigger] raster_pixels(turned)[(x, y)] == raster_pixels(*raster)[(
                y,
                raster_height(*raster) - 1 - x,
            )],
{
    Raster { buf: image::imageops::rotate90(&raster.buf) }
}

/// `image::imageops::rotate270`: a new buffer, as wide as `raster` is high
/// and as high as it is wide, in which the cell `(x, y)` holds what
/// `(width - 1 - y, x)` held.
#[verifier::external_body]
fn buffer_rotate270(raster: &Raster) -> (turned: Raster)
    ensures
        raster_width(turned) == raster_height(*raster),
        raster_height(turned) == raster_width(*raster),
        forall|x: int, y: int|
            0 <= x < raster_width(turned) && 0 <= y < raster_height(turned)
                ==> #[trigger] raster_pixels(turned)[(x, y)] == raster_pixels(*raster)[(
                raster_width(*raster) - 1 - y,
                x,
            )],
{
    Raster { buf: image::imageops::rotate270(&raster.buf) }
}

impl Raster {
    /// Builds a raster `width` by `height` from row-major RGBA bytes, four
    /// bytes a pixel. Fails with `DecodeError` exactly when `data` is shorter
    /// than `4 * width * height` bytes, or when the bytes of one row are more
    /// than a `usize` can count; bytes beyond the last pixel are kept but
    /// belong to no pixel.
    pub fn from_raw(width: u32, height: u32, data: Vec<u8>) -> (made: Result<Raster, SortError>)
        ensures
            made.is_ok() == fills(data@, width as int, height as int),
            made matches Ok(raster) ==> {
                &&& raster@.wf()
                &&& raster@.width == width
                &&& raster@.height == height
                &&& holds_grid(data@, raster@)
            },
            made matches Err(e) ==> e == SortError::DecodeError,
    {
        match buffer_from_raw(width, height, data) {
            Some(raster) => Ok(raster),
            None => Err(SortError::DecodeError),
        }
    }

    /// Gives up the raster for its bytes, row after row, four bytes a pixel.
    pub fn into_raw(self) -> (data: Vec<u8>)
        ensures
            holds_grid(data@, self@),
    {
        buffer_into_raw(self)
    }

    /// The number of columns.
    pub fn width(&self) -> (w: u32)
        ensures
            w == self@.width,
    {
        buffer_width(self)
    }

    /// The number of rows.
    pub fn height(&self) -> (h: u32)
        ensures
            h == self@.height,
    {
        buffer_height(self)
    }

    /// The colour at `(x, y)`, a coordinate inside the raster.
    pub fn get_pixel(&self, x: u32, y: u32) -> (color: Color)
        requires
            self@.contains((x as int, y as int)),
        ensures
            color == self@.pixels[(x as int, y as int)],
    {
        buffer_get_pixel(self, x, y)
    }

    /// Stores `color` at `(x, y)`, a coordinate inside the raster. The size
    /// and every other pixel stay as they were.
    pub fn put_pixel(&mut self, x: u32, y: u32, color: Color)
        requires
            old(self)@.contains((x as int, y as int)),
        ensures
            final(self)@ == old(self)@.put((x as int, y as int), color),
    {
        buffer_put_pixel(self, x, y, color);
        proof {
            assert(self@.pixels =~= old(self)@.put((x as int, y as int), color).pixels);
        }
    }

    /// A copy of the raster turned by half a turn.
    pub fn rotate180(&self) -> (turned: Raster)
        ensures
            turned@ == self@.rotate180(),
    {
        let turned = buffer_rotate180(self);
        proof {
            assert(turned@.pixels =~= self@.rotate180().pixels);
        }
        turned
    }

    /// A copy of the raster turned a quarter turn clockwise.
    pub fn rotate90(&self) -> (turned: Raster)
        ensures
            turned@ == self@.rotate90(),
    {
        let turned = buffer_rotate90(self);
        proof {
            assert(turned@.pixels =~= self@.rotate90().pixels);
        }
        turned
    }

    /// A copy of the raster turned three quarter turns clockwise.
    pub fn rotate270(&self) -> (turned: Raster)
        ensures
            turned@ == self@.rotate270(),
    {
        let turned = buffer_rotate270(self);
        proof {
            assert(turned@.pixels =~= self@.rotate270().pixels);
        }
        turned
    }
}

/// Every raster is a well-formed grid.
pub proof fn lemma_raster_wf(raster: Raster)
    ensures
        raster@.wf(),
{
}

} // verus!
