//! The image that the rasterizer draws into: a grid of RGBA pixels with a
//! known width and height, addressed by `(x, y)` with `0 <= x < width` and
//! `0 <= y < height`, stored row by row.

use vstd::prelude::*;

verus! {

/// One RGBA pixel, eight bits per channel.
#[derive(Clone, Copy, PartialEq, Eq, Structural, Debug)]
pub struct Color {
    pub r: u8,
    pub g: u8,
    pub b: u8,
    pub a: u8,
}

/// Opaque white, the color of wireframe edges.
pub fn white() -> (c: Color)
    ensures
        c == (Color { r: 255, g: 255, b: 255, a: 255 }),
{
    Color { r: 255, g: 255, b: 255, a: 255 }
}

/// Opaque black, the background color.
pub fn black() -> (c: Color)
    ensures
        c == (Color { r: 0, g: 0, b: 0, a: 255 }),
{
    Color { r: 0, g: 0, b: 0, a: 255 }
}

/// Position of pixel `(x, y)` in the row-major pixel array of a `width`-wide
/// image.
pub open spec fn pixel_index(x: int, y: int, width: int) -> int {
    y * width + x
}

/// A row-major index is within the pixel array, and two distinct in-bounds
/// positions have distinct indices.
pub proof fn lemma_pixel_index(x: int, y: int, px: int, py: int, width: int, height: int)
    by (nonlinear_arith)
    requires
        0 <= x < width,
        0 <= y < height,
        0 <= px < width,
        0 <= py < height,
    ensures
        0 <= pixel_index(x, y, width) < width * height,
        (x, y) != (px, py) ==> pixel_index(x, y, width) != pixel_index(px, py, width),
{
}

/// A two-dimensional grid of RGBA pixels.
pub struct Image {
    width: u32,
    height: u32,
    pixels: Vec<Color>,
}

impl Image {
    /// The pixel array holds exactly one color per grid position.
    pub closed spec fn wf(&self) -> bool {
        self.pixels@.len() == self.spec_width() * self.spec_height()
    }

    pub closed spec fn spec_width(&self) -> int {
        self.width as int
    }

    pub closed spec fn spec_height(&self) -> int {
        self.height as int
    }

    /// The color of the pixel at `(x, y)`.
    pub closed spec fn at(&self, x: int, y: int) -> Color {
        self.pixels@[pixel_index(x, y, self.spec_width())]
    }

    /// `(x, y)` addresses a pixel of this image.
    pub open spec fn in_bounds(&self, x: int, y: int) -> bool {
        0 <= x < self.spec_width() && 0 <= y < self.spec_height()
    }

    pub fn width(&self) -> (r: u32)
        ensures
            r == self.spec_width(),
    {
        self.width
    }

    pub fn height(&self) -> (r: u32)
        ensures
            r == self.spec_height(),
    {
        self.height
    }

    /// A fresh image with every pixel set to `fill`.
    pub fn new(width: u32, height: u32, fill: Color) -> (r: Image)
        requires
            width * height <= usize::MAX,
        ensures
            r.wf(),
            r.spec_width() == width,
            r.spec_height() == height,
            forall|x: int, y: int| r.in_bounds(x, y) ==> r.at(x, y) == fill,
    {
        let n: usize = (width as usize) * (height as usize);
        let mut pixels: Vec<Color> = Vec::new();
        while pixels.len() < n
            invariant
                pixels@.len() <= n,
                forall|i: int| 0 <= i < pixels@.len() ==> pixels@[i] == fill,
            decreases n - pixels@.len(),
        {
            pixels.push(fill);
        }
        let r = Image { width, height, pixels };
        proof {
            assert forall|x: int, y: int| r.in_bounds(x, y) implies r.at(x, y) == fill by {
                lemma_pixel_index(x, y, 0, 0, r.spec_width(), r.spec_height());
            }
        }
        r
    }

    /// Read the pixel at `(x, y)`.
    pub fn get_pixel(&self, x: u32, y: u32) -> (r: Color)
        requires
            self.wf(),
            self.in_bounds(x as int, y as int),
        ensures
            r == self.at(x as int, y as int),
    {
        proof {
            lemma_pixel_index(x as int, y as int, 0, 0, self.spec_width(), self.spec_height());
        }
        let n: usize = self.pixels.len();
        let idx: usize = (y as usize) * (self.width as usize) + (x as usize);
        proof {
            assert(idx < n);
        }
        self.pixels[idx]
    }

    /// Overwrite the pixel at `(x, y)` with `color`; every other pixel keeps
    /// its value.
    pub fn put_pixel(&mut self, x: u32, y: u32, color: Color)
        requires
            old(self).wf(),
            old(self).in_bounds(x as int, y as int),
        ensures
            final(self).wf(),
            final(self).spec_width() == old(self).spec_width(),
            final(self).spec_height() == old(self).spec_height(),
            final(self).at(x as int, y as int) == color,
            forall|px: int, py: int|
                final(self).in_bounds(px, py) && (px, py) != (x as int, y as int)
                    ==> final(self).at(px, py) == old(self).at(px, py),
    {
        proof {
            lemma_pixel_index(x as int, y as int, 0, 0, self.spec_width(), self.spec_height());
        }
        let n: usize = self.pixels.len();
        let idx: usize = (y as usize) * (self.width as usize) + (x as usize);
        proof {
            assert(idx < n);
        }
        self.pixels.set(idx, color);
        proof {
            assert forall|px: int, py: int|
                self.in_bounds(px, py) && (px, py) != (x as int, y as int) implies self.at(px, py)
                == old(self).at(px, py) by {
                lemma_pixel_index(px, py, x as int, y as int, self.spec_width(), self.spec_height());
            }
        }
    }

    /// Flip the image vertically in place: afterwards row `y` holds what row
    /// `height - 1 - y` held.
    pub fn flip_vertical(&mut self)
        requires
            old(self).wf(),
        ensures
            final(self).wf(),
            final(self).spec_width() == old(self).spec_width(),
            final(self).spec_height() == old(self).spec_height(),
            forall|px: int, py: int|
                final(self).in_bounds(px, py) ==> final(self).at(px, py) == old(self).at(
                    px,
                    old(self).spec_height() - 1 - py,
                ),
    {
        let w = self.width;
        let h = self.height;
        let mut y: u32 = 0;
        while y < h / 2
            invariant
                self.wf(),
                self.spec_width() == old(self).spec_width() == w,
                self.spec_height() == old(self).spec_height() == h,
                y <= h / 2,
                forall|px: int, py: int|
                    self.in_bounds(px, py) ==> self.at(px, py) == (if py < y || py > h - 1 - y {
                        old(self).at(px, h - 1 - py)
                    } else {
                        old(self).at(px, py)
                    }),
            decreases h / 2 - y,
        {
            let mut x: u32 = 0;
            while x < w
                invariant
                    self.wf(),
                    self.spec_width() == old(self).spec_width() == w,
                    self.spec_height() == old(self).spec_height() == h,
                    y < h / 2,
                    x <= w,
                    forall|px: int, py: int|
                        self.in_bounds(px, py) ==> self.at(px, py) == (if py < y || py > h - 1 - y
                            || ((py == y || py == h - 1 - y) && px < x) {
                            old(self).at(px, h - 1 - py)
                        } else {
                            old(self).at(px, py)
                        }),
                decreases w - x,
            {
                let top = self.get_pixel(x, y);
                let bot = self.get_pixel(x, h - 1 - y);
                self.put_pixel(x, y, bot);
                self.put_pixel(x, h - 1 - y, top);
                x = x + 1;
            }
            y = y + 1;
        }
    }

    /// The image's pixels as a flat RGBA byte array, row by row: four bytes
    /// per pixel, in channel order.
    pub fn to_rgba_bytes(&self) -> (r: Vec<u8>)
        requires
            self.wf(),
            4 * self.spec_width() * self.spec_height() <= usize::MAX,
        ensures
            r@.len() == 4 * self.spec_width() * self.spec_height(),
            forall|x: int, y: int|
                self.in_bounds(x, y) ==> {
                    let base = 4 * pixel_index(x, y, self.spec_width());
                    r@[base] == self.at(x, y).r && r@[base + 1] == self.at(x, y).g && r@[base + 2]
                        == self.at(x, y).b && r@[base + 3] == self.at(x, y).a
                },
    {
        proof {
            assert(4 * self.spec_width() * self.spec_height() == 4 * (self.spec_width()
                * self.spec_height())) by (nonlinear_arith);
        }
        let n: usize = self.pixels.len();
        let mut r: Vec<u8> = Vec::new();
        let mut i: usize = 0;
        while i < n
            invariant
                self.wf(),
                n == self.pixels@.len(),
                4 * n <= usize::MAX,
                i <= n,
                r@.len() == 4 * i,
                forall|j: int|
                    0 <= j < i ==> r@[4 * j] == self.pixels@[j].r && r@[4 * j + 1]
                        == self.pixels@[j].g && r@[4 * j + 2] == self.pixels@[j].b && r@[4 * j + 3]
                        == self.pixels@[j].a,
            decreases n - i,
        {
            let p = self.pixels[i];
            r.push(p.r);
            r.push(p.g);
            r.push(p.b);
            r.push(p.a);
            i = i + 1;
        }
        proof {
            assert forall|x: int, y: int| self.in_bounds(x, y) implies {
                let base = 4 * pixel_index(x, y, self.spec_width());
                r@[base] == self.at(x, y).r && r@[base + 1] == self.at(x, y).g && r@[base + 2]
                    == self.at(x, y).b && r@[base + 3] == self.at(x, y).a
            } by {
                lemma_pixel_index(x, y, 0, 0, self.spec_width(), self.spec_height());
            }
        }
        r
    }
}

} // verus!
