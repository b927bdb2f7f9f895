use crate::color::{average_color, lemma_uniform_average, Rgb};
use crate::grid::{
    block_contains, block_hi, block_lo, lemma_block_bounds_1d, lemma_exact_tiling, num_blocks,
    pair_index,
};
use crate::img::{
    lemma_grid_index, lemma_region_pixels_len, lemma_region_pixels_uniform, region_pixels, Image,
};
use crate::pixel_slice::{create_pixel_slices, is_block_slice, slices_match_grid, PixelSlice};
use vstd::arithmetic::div_mod::{
    lemma_fundamental_div_mod, lemma_mod_division_less_than_divisor, lemma_multiply_divide_lt,
};
use vstd::arithmetic::mul::{
    lemma_mul_inequality, lemma_mul_is_commutative, lemma_mul_strictly_positive,
};
use vstd::prelude::*;

verus! {

/// Why pixelation was refused.
#[derive(Clone, Copy, PartialEq, Eq, Structural, Debug)]
pub enum PixelateError {
    /// The block size is zero: averaging would divide by zero.
    InvalidBlockSize,
    /// The image has no pixels: its width or height is zero.
    EmptyImage,
}

/// The flat color of grid block (xi, yi): the mean color of the block's
/// pixels in the source image.
pub open spec fn block_average(img: Image, s: int, xi: int, yi: int) -> Rgb {
    average_color(
        region_pixels(
            img,
            block_lo(s, xi),
            block_hi(img.spec_width(), s, xi),
            block_lo(s, yi),
            block_hi(img.spec_height(), s, yi),
        ),
    )
}

/// The color pixel (x, y) holds after pixelating `img` with block size
/// `s`: the mean color of the grid block that contains (x, y).
pub open spec fn pixelated_pixel(img: Image, s: int, x: int, y: int) -> Rgb {
    block_average(img, s, x / s, y / s)
}

/// `out` is `img` pixelated with block size `s`: the same dimensions, and
/// every pixel replaced by the mean color of its grid block.
pub open spec fn is_pixelated(out: Image, img: Image, s: int) -> bool {
    &&& out.wf()
    &&& out.spec_width() == img.spec_width()
    &&& out.spec_height() == img.spec_height()
    &&& forall|x: int, y: int|
        0 <= x < img.spec_width() && 0 <= y < img.spec_height() ==> out.spec_pixel(x, y)
            == pixelated_pixel(img, s, x, y)
}

/// A block over which the image is flat averages to that flat color: the
/// floor division loses nothing on uniform input.
pub proof fn lemma_uniform_block_average(img: Image, s: int, xi: int, yi: int, p: Rgb)
    requires
        s >= 1,
        img.spec_width() >= 1,
        img.spec_height() >= 1,
        0 <= xi < num_blocks(img.spec_width(), s),
        0 <= yi < num_blocks(img.spec_height(), s),
        forall|x: int, y: int|
            block_contains(img.spec_width(), img.spec_height(), s, xi, yi, x, y)
                ==> img.spec_pixel(x, y) == p,
    ensures
        block_average(img, s, xi, yi) == p,
{
    let w = img.spec_width();
    let h = img.spec_height();
    let x0 = block_lo(s, xi);
    let x1 = block_hi(w, s, xi);
    let y0 = block_lo(s, yi);
    let y1 = block_hi(h, s, yi);
    lemma_block_bounds_1d(w, s, xi);
    lemma_block_bounds_1d(h, s, yi);
    lemma_region_pixels_len(img, x0, x1, y0, y1);
    lemma_mul_strictly_positive(x1 - x0, y1 - y0);
    lemma_region_pixels_uniform(img, x0, x1, y0, y1, p);
    lemma_uniform_average(region_pixels(img, x0, x1, y0, y1), p);
}

/// Pixelating is idempotent: every grid block of a pixelated image is
/// already flat, so a second pass with the same block size leaves every
/// pixel exactly as it is.
pub proof fn lemma_pixelate_idempotent(img: Image, out: Image, s: int)
    requires
        s >= 1,
        img.spec_width() >= 1,
        img.spec_height() >= 1,
        is_pixelated(out, img, s),
    ensures
        forall|x: int, y: int|
            0 <= x < out.spec_width() && 0 <= y < out.spec_height() ==> pixelated_pixel(
                out,
                s,
                x,
                y,
            ) == out.spec_pixel(x, y),
{
    let w = img.spec_width();
    let h = img.spec_height();
    assert forall|x: int, y: int| 0 <= x < w && 0 <= y < h implies pixelated_pixel(out, s, x, y)
        == out.spec_pixel(x, y) by {
        lemma_exact_tiling(w, h, s, x, y);
        let xi = x / s;
        let yi = y / s;
        let c = block_average(img, s, xi, yi);
        lemma_block_bounds_1d(w, s, xi);
        lemma_block_bounds_1d(h, s, yi);
        assert forall|xx: int, yy: int|
            block_contains(w, h, s, xi, yi, xx, yy) implies out.spec_pixel(xx, yy) == c by {
            lemma_exact_tiling(w, h, s, xx, yy);
        }
        lemma_uniform_block_average(out, s, xi, yi, c);
    }
}

/// Applying the filter twice with one block size equals applying it once:
/// the second pass hands back its input image pixel for pixel.
pub proof fn lemma_pixelate_twice(img: Image, once: Image, twice: Image, s: int)
    requires
        s >= 1,
        img.spec_width() >= 1,
        img.spec_height() >= 1,
        is_pixelated(once, img, s),
        is_pixelated(twice, once, s),
    ensures
        twice.spec_width() == once.spec_width(),
        twice.spec_height() == once.spec_height(),
        forall|x: int, y: int|
            0 <= x < once.spec_width() && 0 <= y < once.spec_height() ==> twice.spec_pixel(x, y)
                == once.spec_pixel(x, y),
{
    lemma_pixelate_idempotent(img, once, s);
}

/// Pixelate the image: replace every pixel by the mean color of the grid
/// block of edge length `pixel_size` that contains it. A zero block size
/// or an image without pixels is rejected before any pixel arithmetic.
pub fn pixelate(image: &Image, pixel_size: u32) -> (result: Result<Image, PixelateError>)
    requires
        image.wf(),
    ensures
        pixel_size == 0 ==> result == Err::<Image, PixelateError>(PixelateError::InvalidBlockSize),
        pixel_size >= 1 && (image.spec_width() == 0 || image.spec_height() == 0) ==> result
            == Err::<Image, PixelateError>(PixelateError::EmptyImage),
        pixel_size >= 1 && image.spec_width() >= 1 && image.spec_height() >= 1 ==> (result matches
        Ok(out) && is_pixelated(out, *image, pixel_size as int)),
{
    if pixel_size == 0 {
        return Err(PixelateError::InvalidBlockSize);
    }
    let (width, height) = image.dimensions();
    if width == 0 || height == 0 {
        return Err(PixelateError::EmptyImage);
    }
    // Reading the source's pixel count shows that width * height fits in
    // usize, which allocating the output buffer requires.
    let _pixel_count = image.pixel_count();
    let mut new_image = Image::new(width, height);
    let mut slices = create_pixel_slices(image, pixel_size);
    let ghost all: Seq<PixelSlice> = slices@;
    let ghost s = pixel_size as int;
    let ghost w = image.spec_width();
    let ghost h = image.spec_height();
    let ghost nx = num_blocks(w, s);
    let ghost ny = num_blocks(h, s);
    let n: usize = slices.len();
    let mut i: usize = 0;
    while i < n
        invariant
            image.wf(),
            pixel_size >= 1,
            s == pixel_size as int,
            w == image.spec_width(),
            h == image.spec_height(),
            w >= 1,
            h >= 1,
            nx == num_blocks(w, s),
            ny == num_blocks(h, s),
            slices_match_grid(all, *image, s),
            n as int == all.len(),
            i <= n,
            slices@ == all.subrange(i as int, n as int),
            new_image.wf(),
            new_image.spec_width() == w,
            new_image.spec_height() == h,
            forall|x: int, y: int|
                0 <= x < w && 0 <= y < h && pair_index(ny, x / s, y / s) < i as int
                    ==> #[trigger] new_image.spec_pixel(x, y) == pixelated_pixel(*image, s, x, y),
        decreases n - i,
    {
        let ghost prev: Image = new_image;
        let ps = slices.remove(0);
        let ghost pxi = (i as int) / ny;
        let ghost pyi = (i as int) % ny;
        proof {
            assert(slices@ =~= all.subrange(i as int + 1, n as int));
            assert(ps == all[i as int]);
            lemma_fundamental_div_mod(i as int, ny);
            lemma_mod_division_less_than_divisor(i as int, ny);
            lemma_mul_is_commutative(pxi, ny);
            assert(pair_index(ny, pxi, pyi) == i as int);
            lemma_mul_is_commutative(nx, ny);
            lemma_multiply_divide_lt(i as int, ny, nx);
            assert(is_block_slice(ps, *image, s, pxi, pyi));
            lemma_block_bounds_1d(w, s, pxi);
            lemma_block_bounds_1d(h, s, pyi);
            lemma_region_pixels_len(
                *image,
                block_lo(s, pxi),
                block_hi(w, s, pxi),
                block_lo(s, pyi),
                block_hi(h, s, pyi),
            );
            lemma_mul_strictly_positive(
                block_hi(w, s, pxi) - block_lo(s, pxi),
                block_hi(h, s, pyi) - block_lo(s, pyi),
            );
        }
        ps.put_pixels(&mut new_image);
        proof {
            assert forall|x: int, y: int|
                0 <= x < w && 0 <= y < h && pair_index(ny, x / s, y / s) < i as int
                    + 1 implies #[trigger] new_image.spec_pixel(x, y) == pixelated_pixel(
                *image,
                s,
                x,
                y,
            ) by {
                lemma_exact_tiling(w, h, s, x, y);
                if block_contains(w, h, s, pxi, pyi, x, y) {
                    assert(x / s == pxi && y / s == pyi);
                    assert(new_image.spec_pixel(x, y) == average_color(ps.slice@));
                } else {
                    assert(new_image.spec_pixel(x, y) == prev.spec_pixel(x, y));
                    if pair_index(ny, x / s, y / s) == i as int {
                        lemma_grid_index(ny, y / s, x / s);
                        lemma_grid_index(ny, pyi, pxi);
                        assert(x / s == pxi && y / s == pyi);
                        assert(block_contains(w, h, s, x / s, y / s, x, y));
                        assert(false);
                    }
                }
            }
        }
        i = i + 1;
    }
    proof {
        assert forall|x: int, y: int| 0 <= x < w && 0 <= y < h implies #[trigger] new_image
            .spec_pixel(x, y) == pixelated_pixel(*image, s, x, y) by {
            lemma_exact_tiling(w, h, s, x, y);
            lemma_mul_inequality(x / s, nx - 1, ny);
            assert((nx - 1) * ny + ny == nx * ny) by (nonlinear_arith);
            assert(pair_index(ny, x / s, y / s) < nx * ny);
        }
    }
    Ok(new_image)
}

} // verus!
