//! A screenshot, held as plain values.
use image::{ImageBuffer, Rgba};
use vstd::prelude::*;

verus! {

/// Where the four samples of the pixel at `(x, y)` begin, in an image that is
/// stored row by row.
pub open spec fn sample_index(width: u32, x: int, y: int) -> int {
    (y * width + x) * 4
}

/// Calls `ImageBuffer::get_pixel` on an image of red, green, blue and alpha
/// samples, which `ImageBuffer::from_raw` makes of the bytes. The contract claims
/// that the pixel's samples are the four bytes at its place in row order. Where
/// there are too few bytes for the size, or the pixel lies outside, the calls
/// fail, so `requires` leaves that out.
#[verifier::external_body]
fn get_pixel(samples: &[u8], width: u32, height: u32, x: u32, y: u32) -> (pixel: [u8; 4])
    requires
        x < width,
        y < height,
        width * height * 4 <= samples@.len(),
    ensures
        pixel@ == samples@.subrange(
            sample_index(width, x as int, y as int),
            sample_index(width, x as int, y as int) + 4,
        ),
{
    let image: ImageBuffer<Rgba<u8>, &[u8]> = ImageBuffer::from_raw(width, height, samples).unwrap();
    image.get_pixel(x, y).0
}

/// A screenshot: rows of pixels of four samples each, red, green, blue and
/// alpha.
#[derive(Debug)]
pub struct Frame {
    width: u32,
    height: u32,
    samples: Vec<u8>,
}

impl Frame {
    pub closed spec fn spec_width(&self) -> u32 {
        self.width
    }

    pub closed spec fn spec_height(&self) -> u32 {
        self.height
    }

    pub closed spec fn samples(self) -> Seq<u8> {
        self.samples@
    }

    /// There are enough samples for every pixel.
    #[verifier::type_invariant]
    spec fn complete(self) -> bool {
        self.width * self.height * 4 <= self.samples@.len()
    }

    /// The samples of the pixel at `(x, y)`.
    pub open spec fn sample(self, x: int, y: int, channel: int) -> u8 {
        self.samples()[sample_index(self.width(), x, y) + channel]
    }

    /// A screenshot of the given size, unless there are too few samples for it.
    pub fn new(width: u32, height: u32, samples: Vec<u8>) -> (r: Option<Frame>)
        ensures
            r is Some <==> width * height * 4 <= samples@.len(),
            r matches Some(frame) ==> frame.width() == width && frame.height() == height
                && frame.samples() == samples@,
    {
        proof {
            assert(0 <= width * height <= 0xffff_ffff * 0xffff_ffff) by (nonlinear_arith)
                requires
                    0 <= width <= 0xffff_ffff,
                    0 <= height <= 0xffff_ffff,
            ;
        }
        if width as u128 * height as u128 * 4 <= samples.len() as u128 {
            Some(Frame { width, height, samples })
        } else {
            None
        }
    }

    #[verifier::when_used_as_spec(spec_width)]
    pub fn width(&self) -> (r: u32)
        ensures
            r == self.width(),
    {
        self.width
    }

    #[verifier::when_used_as_spec(spec_height)]
    pub fn height(&self) -> (r: u32)
        ensures
            r == self.height(),
    {
        self.height
    }

    /// The red, green and blue of the pixel at `(x, y)`.
    pub fn rgb(&self, x: u32, y: u32) -> (r: (u8, u8, u8))
        requires
            x < self.width(),
            y < self.height(),
        ensures
            r.0 == self.sample(x as int, y as int, 0),
            r.1 == self.sample(x as int, y as int, 1),
            r.2 == self.sample(x as int, y as int, 2),
    {
        proof {
            use_type_invariant(&self);
            let i = sample_index(self.width, x as int, y as int);
            assert(0 <= i && i + 4 <= self.width * self.height * 4) by (nonlinear_arith)
                requires
                    i == (y * self.width + x) * 4,
                    0 <= x < self.width,
                    0 <= y < self.height,
            ;
        }
        let pixel = get_pixel(self.samples.as_slice(), self.width, self.height, x, y);
        (pixel[0], pixel[1], pixel[2])
    }
}

} // verus!
