//! Whole images as plain bytes: one image is built, passed over and taken
//! apart again, and a batch does so image by image, each on its own.

use vstd::prelude::*;
use crate::color::Color;
use crate::direction::SortType;
use crate::engine::{outcome, pass_sorted, sort_image_in_band};
use crate::error::SortError;
use crate::grid::Grid;
use crate::raster::{fills, holds_grid, sample_color, Raster};
use crate::select::Band;

verus! {

/// An image as it comes from a decoder and goes to an encoder: its size and
/// its pixels as row-major RGBA bytes, four bytes a pixel.
#[derive(Debug)]
pub struct RawImage {
    pub width: u32,
    pub height: u32,
    pub data: Vec<u8>,
}

impl RawImage {
    /// Whether there are four bytes for every pixel.
    pub open spec fn complete(self) -> bool {
        fills(self.data@, self.width as int, self.height as int)
    }

    /// The grid that the bytes spell.
    pub open spec fn grid(self) -> Grid {
        Grid {
            width: self.width as int,
            height: self.height as int,
            pixels: Map::new(
                |c: (int, int)| 0 <= c.0 < self.width && 0 <= c.1 < self.height,
                |c: (int, int)| sample_color(self.data@, self.width as int, c.0, c.1),
            ),
        }
    }
}

/// Whether `output` is what one pass makes of `input`: `DecodeError` when
/// bytes are missing, `InvalidEndpoint` when a line lacks its endpoints, and
/// else an image of the same size that holds the pass's result.
pub open spec fn processed(
    input: RawImage,
    sort_type: SortType,
    endpoints: Option<((u32, u32), (u32, u32))>,
    band: Band,
    output: Result<RawImage, SortError>,
) -> bool {
    if !input.complete() {
        output == Err::<RawImage, SortError>(SortError::DecodeError)
    } else {
        match outcome(input.grid(), sort_type, endpoints) {
            Err(e) => output == Err::<RawImage, SortError>(e),
            Ok(_) => {
                &&& output is Ok
                &&& output->Ok_0.width == input.width
                &&& output->Ok_0.height == input.height
                &&& output->Ok_0.complete()
                &&& pass_sorted(
                    input.grid(),
                    output->Ok_0.grid(),
                    sort_type,
                    endpoints,
                    |c: Color| band.holds(c),
                )
            },
        }
    }
}

/// A raster and the bytes it was built from or taken apart into spell the
/// same grid.
proof fn lemma_raw_grid(raw: RawImage, g: Grid)
    requires
        g.wf(),
        g.width == raw.width,
        g.height == raw.height,
        holds_grid(raw.data@, g),
    ensures
        raw.grid() == g,
{
    assert forall|c: (int, int)| raw.grid().pixels.dom().contains(c) == g.pixels.dom().contains(
        c,
    ) by {
        assert(g.pixels.dom().contains(c) <==> g.contains(c));
    }
    assert forall|c: (int, int)| g.pixels.dom().contains(c) implies raw.grid().pixels[c]
        == g.pixels[c] by {
        assert(g.contains(c));
        assert(sample_color(raw.data@, g.width, c.0, c.1) == g.pixels[(c.0, c.1)]);
    }
    assert(raw.grid().pixels =~= g.pixels);
}

/// Runs one pass over one image given as bytes and hands back the bytes of
/// the result.
pub fn process(
    input: RawImage,
    sort_type: SortType,
    endpoints: Option<((u32, u32), (u32, u32))>,
    band: Band,
) -> (output: Result<RawImage, SortError>)
    ensures
        processed(input, sort_type, endpoints, band, output),
{
    let made = Raster::from_raw(input.width, input.height, input.data);
    match made {
        Err(e) => Err(e),
        Ok(raster) => {
            let mut image = raster;
            proof {
                lemma_raw_grid(input, image@);
            }
            match sort_image_in_band(&mut image, sort_type, endpoints, band) {
                Err(e) => Err(e),
                Ok(_) => {
                    let ghost sorted = image@;
                    let width = image.width();
                    let height = image.height();
                    let data = image.into_raw();
                    let output = RawImage { width, height, data };
                    proof {
                        lemma_raw_grid(output, sorted);
                    }
                    Ok(output)
                },
            }
        },
    }
}

/// Runs the pass over each image of a batch. An image that fails gets its
/// error and the others are processed all the same: each result depends on
/// its own image alone.
pub fn process_batch(
    items: Vec<RawImage>,
    sort_type: SortType,
    endpoints: Option<((u32, u32), (u32, u32))>,
    band: Band,
) -> (outputs: Vec<Result<RawImage, SortError>>)
    ensures
        outputs@.len() == items@.len(),
        forall|i: int|
            0 <= i < items@.len() ==> processed(
                items@[i],
                sort_type,
                endpoints,
                band,
                #[trigger] outputs@[i],
            ),
{
    let mut outputs: Vec<Result<RawImage, SortError>> = Vec::new();
    for item in iter: items
        invariant
            iter.seq() == items@,
            outputs@.len() == iter.index(),
            forall|k: int|
                0 <= k < iter.index() ==> processed(
                    items@[k],
                    sort_type,
                    endpoints,
                    band,
                    #[trigger] outputs@[k],
                ),
    {
        outputs.push(process(item, sort_type, endpoints, band));
    }
    outputs
}

} // verus!
