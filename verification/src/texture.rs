//! The image capability the packer consumes: something that can report its
//! size and be sampled per pixel, directly or with axes swapped, without any
//! assumption about how pixels are stored.

use vstd::prelude::*;

verus! {

/// A source image, seen only through its size and its per-pixel sampling.
/// A pixel is an opaque, copyable value; sampling outside the image yields
/// nothing. `get_rotated` samples with axes swapped relative to `get`, which
/// is how a sideways-placed image is read back.
pub trait Texture {
    type Pixel;

    /// The width this texture reports.
    spec fn spec_width(&self) -> u32;

    /// The height this texture reports.
    spec fn spec_height(&self) -> u32;

    /// The pixel `get` yields at `(x, y)`.
    spec fn spec_get(&self, x: u32, y: u32) -> Option<Self::Pixel>;

    /// The pixel `get_rotated` yields at `(x, y)`.
    spec fn spec_get_rotated(&self, x: u32, y: u32) -> Option<Self::Pixel>;

    fn width(&self) -> (r: u32)
        ensures
            r == self.spec_width(),
    ;

    fn height(&self) -> (r: u32)
        ensures
            r == self.spec_height(),
    ;

    fn get(&self, x: u32, y: u32) -> (r: Option<Self::Pixel>)
        ensures
            r == self.spec_get(x, y),
    ;

    fn get_rotated(&self, x: u32, y: u32) -> (r: Option<Self::Pixel>)
        ensures
            r == self.spec_get_rotated(x, y),
    ;
}

/// A texture held in memory as one row-major buffer of pixels.
pub struct MemoryTexture<P> {
    width: u32,
    height: u32,
    data: Vec<P>,
}

impl<P: Copy> MemoryTexture<P> {
    /// Build a texture from its size and a row-major pixel buffer holding
    /// exactly `width * height` pixels.
    pub fn new(width: u32, height: u32, data: Vec<P>) -> (r: MemoryTexture<P>)
        requires
            data@.len() == width * height,
        ensures
            r.spec_width() == width,
            r.spec_height() == height,
            forall|x: u32, y: u32|
                #![auto]
                r.spec_get(x, y) == (if x < width && y < height {
                    Some(data@[y as int * width as int + x as int])
                } else {
                    None
                }),
            forall|x: u32, y: u32| #![auto] r.spec_get_rotated(x, y) == r.spec_get(y, x),
    {
        let r = MemoryTexture { width, height, data };
        proof {
            assert forall|x: u32, y: u32|
                #![auto]
                r.spec_get(x, y) == (if x < width && y < height {
                    Some(data@[y as int * width as int + x as int])
                } else {
                    None
                }) by {
                if x < width && y < height {
                    assert((y as int * width as int + x as int) < (width as int * height as int))
                        by (nonlinear_arith)
                        requires
                            x < width,
                            y < height,
                    ;
                }
            }
        }
        r
    }
}

impl<P: Copy> Texture for MemoryTexture<P> {
    type Pixel = P;

    closed spec fn spec_width(&self) -> u32 {
        self.width
    }

    closed spec fn spec_height(&self) -> u32 {
        self.height
    }

    closed spec fn spec_get(&self, x: u32, y: u32) -> Option<P> {
        let idx = y as int * self.width as int + x as int;
        if x < self.width && y < self.height && idx < self.data@.len() {
            Some(self.data@[idx])
        } else {
            None
        }
    }

    closed spec fn spec_get_rotated(&self, x: u32, y: u32) -> Option<P> {
        self.spec_get(y, x)
    }

    fn width(&self) -> (r: u32) {
        self.width
    }

    fn height(&self) -> (r: u32) {
        self.height
    }

    fn get(&self, x: u32, y: u32) -> (r: Option<P>) {
        if x < self.width && y < self.height {
            proof {
                assert((y as int * self.width as int + x as int) < (u64::MAX as int))
                    by (nonlinear_arith)
                    requires
                        y <= u32::MAX,
                        x <= u32::MAX,
                        self.width <= u32::MAX,
                ;
            }
            let idx = y as u64 * self.width as u64 + x as u64;
            if idx < self.data.len() as u64 {
                Some(self.data[idx as usize])
            } else {
                None
            }
        } else {
            None
        }
    }

    fn get_rotated(&self, x: u32, y: u32) -> (r: Option<P>) {
        self.get(y, x)
    }
}

} // verus!
