use crate::color::Rgb;
use vstd::arithmetic::div_mod::lemma_fundamental_div_mod_converse;
use vstd::arithmetic::mul::lemma_mul_nonnegative;
use vstd::prelude::*;

verus! {

/// A width-by-height raster of RGB pixels, stored row by row.
pub struct Image {
    width: u32,
    height: u32,
    pixels: Vec<Rgb>,
}

/// The row-major buffer index of an in-range coordinate determines the
/// coordinate: row `y` and column `x` can be read back off `y * w + x`.
pub proof fn lemma_grid_index(w: int, x: int, y: int)
    requires
        1 <= w,
        0 <= x < w,
        0 <= y,
    ensures
        (y * w + x) / w == y,
        (y * w + x) % w == x,
        0 <= y * w + x,
{
    lemma_mul_nonnegative(y, w);
    lemma_fundamental_div_mod_converse(y * w + x, w, y, x);
}

/// The row-major index of an in-range coordinate lies inside the buffer.
pub proof fn lemma_grid_index_bound(w: int, h: int, x: int, y: int)
    by (nonlinear_arith)
    requires
        0 <= x < w,
        0 <= y < h,
    ensures
        0 <= y * w + x < w * h,
{
}

impl Image {
    pub closed spec fn spec_width(self) -> int {
        self.width as int
    }

    pub closed spec fn spec_height(self) -> int {
        self.height as int
    }

    /// The buffer holds exactly one pixel per coordinate.
    pub closed spec fn wf(self) -> bool {
        self.pixels@.len() == self.spec_width() * self.spec_height()
    }

    /// The pixel at column `x` of row `y`.
    pub closed spec fn spec_pixel(self, x: int, y: int) -> Rgb {
        self.pixels@[y * self.spec_width() + x]
    }

    /// A freshly allocated image with every pixel black.
    pub fn new(width: u32, height: u32) -> (img: Image)
        requires
            width as int * height as int <= usize::MAX as int,
        ensures
            img.wf(),
            img.spec_width() == width as int,
            img.spec_height() == height as int,
            forall|x: int, y: int|
                0 <= x < width as int && 0 <= y < height as int ==> img.spec_pixel(x, y) == (Rgb {
                    r: 0,
                    g: 0,
                    b: 0,
                }),
    {
        let n: usize = (width as usize) * (height as usize);
        let black = Rgb { r: 0, g: 0, b: 0 };
        let mut pixels: Vec<Rgb> = Vec::new();
        let mut i: usize = 0;
        while i < n
            invariant
                i <= n,
                pixels@.len() == i as int,
                forall|k: int| 0 <= k < i as int ==> pixels@[k] == black,
            decreases n - i,
        {
            pixels.push(black);
            i = i + 1;
        }
        let img = Image { width, height, pixels };
        proof {
            assert forall|x: int, y: int|
                0 <= x < width as int && 0 <= y < height as int implies img.spec_pixel(x, y)
                == black by {
                lemma_grid_index_bound(width as int, height as int, x, y);
            }
        }
        img
    }

    /// The width and height of the image.
    pub fn dimensions(&self) -> (dims: (u32, u32))
        ensures
            dims.0 as int == self.spec_width(),
            dims.1 as int == self.spec_height(),
    {
        (self.width, self.height)
    }

    /// How many pixels the image holds.
    pub fn pixel_count(&self) -> (n: usize)
        requires
            self.wf(),
        ensures
            n as int == self.spec_width() * self.spec_height(),
    {
        self.pixels.len()
    }

    /// Read the pixel at (x, y).
    pub fn get_pixel(&self, x: u32, y: u32) -> (p: Rgb)
        requires
            self.wf(),
            (x as int) < self.spec_width(),
            (y as int) < self.spec_height(),
        ensures
            p == self.spec_pixel(x as int, y as int),
    {
        let n: usize = self.pixels.len();
        proof {
            lemma_grid_index_bound(self.spec_width(), self.spec_height(), x as int, y as int);
        }
        let idx: usize = (y as usize) * (self.width as usize) + (x as usize);
        self.pixels[idx]
    }

    /// Overwrite the pixel at (x, y), leaving every other pixel as it was.
    pub fn put_pixel(&mut self, x: u32, y: u32, p: Rgb)
        requires
            old(self).wf(),
            (x as int) < old(self).spec_width(),
            (y as int) < old(self).spec_height(),
        ensures
            final(self).wf(),
            final(self).spec_width() == old(self).spec_width(),
            final(self).spec_height() == old(self).spec_height(),
            final(self).spec_pixel(x as int, y as int) == p,
            forall|xx: int, yy: int|
                0 <= xx < old(self).spec_width() && 0 <= yy < old(self).spec_height() && !(xx == x
                    as int && yy == y as int) ==> final(self).spec_pixel(xx, yy) == old(
                    self,
                ).spec_pixel(xx, yy),
    {
        let ghost w = self.spec_width();
        let ghost h = self.spec_height();
        let n: usize = self.pixels.len();
        proof {
            lemma_grid_index_bound(w, h, x as int, y as int);
        }
        let idx: usize = (y as usize) * (self.width as usize) + (x as usize);
        self.pixels[idx] = p;
        proof {
            assert forall|xx: int, yy: int|
                0 <= xx < w && 0 <= yy < h && !(xx == x as int && yy == y as int) implies self
                .spec_pixel(xx, yy) == old(self).spec_pixel(xx, yy) by {
                lemma_grid_index(w, xx, yy);
                lemma_grid_index(w, x as int, y as int);
                lemma_grid_index_bound(w, h, xx, yy);
            }
        }
    }
}

/// The pixels of column `x`, rows `y0` up to `y1`, in row order.
pub open spec fn column_pixels(img: Image, x: int, y0: int, y1: int) -> Seq<Rgb>
    decreases y1 - y0,
{
    if y1 <= y0 {
        Seq::empty()
    } else {
        column_pixels(img, x, y0, y1 - 1).push(img.spec_pixel(x, y1 - 1))
    }
}

/// The pixels of the rectangle [x0, x1) x [y0, y1), column by column.
pub open spec fn region_pixels(img: Image, x0: int, x1: int, y0: int, y1: int) -> Seq<Rgb>
    decreases x1 - x0,
{
    if x1 <= x0 {
        Seq::empty()
    } else {
        region_pixels(img, x0, x1 - 1, y0, y1) + column_pixels(img, x1 - 1, y0, y1)
    }
}

pub proof fn lemma_column_pixels_len(img: Image, x: int, y0: int, y1: int)
    requires
        y0 <= y1,
    ensures
        column_pixels(img, x, y0, y1).len() == y1 - y0,
    decreases y1 - y0,
{
    if y0 < y1 {
        lemma_column_pixels_len(img, x, y0, y1 - 1);
    }
}

/// A rectangle of a columns and b rows yields a * b pixels.
pub proof fn lemma_region_pixels_len(img: Image, x0: int, x1: int, y0: int, y1: int)
    requires
        x0 <= x1,
        y0 <= y1,
    ensures
        region_pixels(img, x0, x1, y0, y1).len() == (x1 - x0) * (y1 - y0),
    decreases x1 - x0,
{
    if x0 < x1 {
        lemma_region_pixels_len(img, x0, x1 - 1, y0, y1);
        lemma_column_pixels_len(img, x1 - 1, y0, y1);
        assert((x1 - 1 - x0) * (y1 - y0) + (y1 - y0) == (x1 - x0) * (y1 - y0))
            by (nonlinear_arith);
    } else {
        assert((x1 - x0) * (y1 - y0) == 0) by (nonlinear_arith)
            requires
                x0 == x1,
        ;
    }
}

proof fn lemma_column_pixels_uniform(img: Image, x: int, y0: int, y1: int, p: Rgb)
    requires
        forall|y: int| y0 <= y < y1 ==> img.spec_pixel(x, y) == p,
    ensures
        forall|k: int|
            0 <= k < column_pixels(img, x, y0, y1).len() ==> column_pixels(img, x, y0, y1)[k] == p,
    decreases y1 - y0,
{
    if y0 < y1 {
        lemma_column_pixels_uniform(img, x, y0, y1 - 1, p);
        let s = column_pixels(img, x, y0, y1 - 1);
        let t = column_pixels(img, x, y0, y1);
        assert(t == s.push(img.spec_pixel(x, y1 - 1)));
        assert forall|k: int| 0 <= k < t.len() implies t[k] == p by {
            if k < s.len() {
                assert(t[k] == s[k]);
            } else {
                assert(t[k] == img.spec_pixel(x, y1 - 1));
            }
        }
    }
}

/// Every pixel collected from a rectangle over which the image is flat
/// holds that one color.
pub proof fn lemma_region_pixels_uniform(img: Image, x0: int, x1: int, y0: int, y1: int, p: Rgb)
    requires
        forall|x: int, y: int| x0 <= x < x1 && y0 <= y < y1 ==> img.spec_pixel(x, y) == p,
    ensures
        forall|k: int|
            0 <= k < region_pixels(img, x0, x1, y0, y1).len() ==> region_pixels(
                img,
                x0,
                x1,
                y0,
                y1,
            )[k] == p,
    decreases x1 - x0,
{
    if x0 < x1 {
        lemma_region_pixels_uniform(img, x0, x1 - 1, y0, y1, p);
        lemma_column_pixels_uniform(img, x1 - 1, y0, y1, p);
        let l = region_pixels(img, x0, x1 - 1, y0, y1);
        let c = column_pixels(img, x1 - 1, y0, y1);
        let t = region_pixels(img, x0, x1, y0, y1);
        assert(t == l + c);
        assert forall|k: int| 0 <= k < t.len() implies t[k] == p by {
            if k < l.len() {
                assert(t[k] == l[k]);
            } else {
                assert(t[k] == c[k - l.len()]);
            }
        }
    }
}

} // verus!
