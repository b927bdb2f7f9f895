use crate::color::{
    average_color, channel_avg, channel_sum, get_pixel_color, lemma_channel_avg_in_range,
    lemma_channel_sum_push, spec_channel, Color, Rgb,
};
use crate::grid::{
    block_hi, block_lo, clamped_end, lemma_block_step, lemma_num_blocks_bounds, num_blocks,
    pair_index,
};
use crate::img::{column_pixels, region_pixels, Image};
use vstd::arithmetic::mul::{lemma_mul_inequality, lemma_mul_is_distributive_add_other_way};
use vstd::prelude::*;

verus! {

/// One tile of the partition: the pixels collected from the rectangle
/// [x_start, x_end) x [y_start, y_end) of the source image, kept next to
/// the rectangle's coordinates.
pub struct PixelSlice {
    pub slice: Vec<Rgb>,
    pub x_start: u32,
    pub x_end: u32,
    pub y_start: u32,
    pub y_end: u32,
}

impl PixelSlice {
    /// Floor-division mean of one channel over the member pixels.
    fn channel_average(&self, color: Color) -> (v: u8)
        requires
            self.slice@.len() > 0,
        ensures
            v as int == channel_avg(self.slice@, color),
    {
        let n: usize = self.slice.len();
        let mut sum: u128 = 0;
        let mut i: usize = 0;
        while i < n
            invariant
                i <= n,
                n == self.slice@.len(),
                sum as int == channel_sum(self.slice@.subrange(0, i as int), color),
                sum as int <= 255 * (i as int),
            decreases n - i,
        {
            let p = self.slice[i];
            let c = get_pixel_color(p, color);
            proof {
                assert(self.slice@.subrange(0, i as int + 1) =~= self.slice@.subrange(
                    0,
                    i as int,
                ).push(self.slice@[i as int]));
                lemma_channel_sum_push(self.slice@.subrange(0, i as int), self.slice@[i as int], color);
            }
            sum = sum + c as u128;
            i = i + 1;
        }
        proof {
            assert(self.slice@.subrange(0, n as int) =~= self.slice@);
            lemma_channel_avg_in_range(self.slice@, color);
        }
        let avg: u128 = sum / (n as u128);
        avg as u8
    }

    /// Mean of the red channel over the member pixels.
    pub fn get_red_color(&self) -> (v: u8)
        requires
            self.slice@.len() > 0,
        ensures
            v as int == channel_avg(self.slice@, Color::Red),
    {
        self.channel_average(Color::Red)
    }

    /// Mean of the green channel over the member pixels.
    pub fn get_green_color(&self) -> (v: u8)
        requires
            self.slice@.len() > 0,
        ensures
            v as int == channel_avg(self.slice@, Color::Green),
    {
        self.channel_average(Color::Green)
    }

    /// Mean of the blue channel over the member pixels.
    pub fn get_blue_color(&self) -> (v: u8)
        requires
            self.slice@.len() > 0,
        ensures
            v as int == channel_avg(self.slice@, Color::Blue),
    {
        self.channel_average(Color::Blue)
    }

    /// The flat color of this slice: each channel averaged on its own.
    pub fn create_new_pixel(&self) -> (p: Rgb)
        requires
            self.slice@.len() > 0,
        ensures
            p == average_color(self.slice@),
    {
        let red = self.get_red_color();
        let green = self.get_green_color();
        let blue = self.get_blue_color();
        Rgb { r: red, g: green, b: blue }
    }

    /// Paint the averaged color of this slice over its rectangle in the
    /// destination image; every pixel outside the rectangle is left as it
    /// was.
    pub fn put_pixels(&self, image: &mut Image)
        requires
            old(image).wf(),
            self.slice@.len() > 0,
            self.x_start <= self.x_end,
            self.x_end as int <= old(image).spec_width(),
            self.y_start <= self.y_end,
            self.y_end as int <= old(image).spec_height(),
        ensures
            final(image).wf(),
            final(image).spec_width() == old(image).spec_width(),
            final(image).spec_height() == old(image).spec_height(),
            forall|x: int, y: int|
                self.x_start as int <= x < self.x_end as int && self.y_start as int <= y
                    < self.y_end as int ==> final(image).spec_pixel(x, y) == average_color(
                    self.slice@,
                ),
            forall|x: int, y: int|
                0 <= x < old(image).spec_width() && 0 <= y < old(image).spec_height() && !(
                self.x_start as int <= x < self.x_end as int && self.y_start as int <= y
                    < self.y_end as int) ==> final(image).spec_pixel(x, y) == old(image).spec_pixel(
                    x,
                    y,
                ),
    {
        let new_pixel = self.create_new_pixel();
        let ghost img0: Image = *image;
        let mut x: u32 = self.x_start;
        while x < self.x_end
            invariant
                self.x_start <= x <= self.x_end,
                self.x_end as int <= img0.spec_width(),
                self.y_start <= self.y_end,
                self.y_end as int <= img0.spec_height(),
                image.wf(),
                image.spec_width() == img0.spec_width(),
                image.spec_height() == img0.spec_height(),
                new_pixel == average_color(self.slice@),
                forall|xx: int, yy: int|
                    self.x_start as int <= xx < x as int && self.y_start as int <= yy
                        < self.y_end as int ==> image.spec_pixel(xx, yy) == new_pixel,
                forall|xx: int, yy: int|
                    0 <= xx < img0.spec_width() && 0 <= yy < img0.spec_height() && !(
                    self.x_start as int <= xx < x as int && self.y_start as int <= yy
                        < self.y_end as int) ==> image.spec_pixel(xx, yy) == img0.spec_pixel(
                        xx,
                        yy,
                    ),
            decreases self.x_end - x,
        {
            let mut y: u32 = self.y_start;
            while y < self.y_end
                invariant
                    self.x_start <= x < self.x_end,
                    self.x_end as int <= img0.spec_width(),
                    self.y_start <= y <= self.y_end,
                    self.y_end as int <= img0.spec_height(),
                    image.wf(),
                    image.spec_width() == img0.spec_width(),
                    image.spec_height() == img0.spec_height(),
                    forall|xx: int, yy: int|
                        self.x_start as int <= xx < x as int && self.y_start as int <= yy
                            < self.y_end as int ==> image.spec_pixel(xx, yy) == new_pixel,
                    forall|yy: int|
                        self.y_start as int <= yy < y as int ==> image.spec_pixel(x as int, yy)
                            == new_pixel,
                    forall|xx: int, yy: int|
                        0 <= xx < img0.spec_width() && 0 <= yy < img0.spec_height() && !(
                        self.x_start as int <= xx < x as int && self.y_start as int <= yy
                            < self.y_end as int) && !(xx == x as int && self.y_start as int <= yy
                            < y as int) ==> image.spec_pixel(xx, yy) == img0.spec_pixel(xx, yy),
                decreases self.y_end - y,
            {
                image.put_pixel(x, y, new_pixel);
                y = y + 1;
            }
            x = x + 1;
        }
    }
}

/// Collect the pixels of the block anchored at (x_start, y_start): the
/// block extends `pixel_size` pixels along each axis and is clamped to
/// the image edge where it would pass it.
pub fn create_pixel_slice(image: &Image, x_start: u32, y_start: u32, pixel_size: u32) -> (ps:
    PixelSlice)
    requires
        image.wf(),
        pixel_size >= 1,
        (x_start as int) < image.spec_width(),
        (y_start as int) < image.spec_height(),
    ensures
        ps.x_start == x_start,
        ps.y_start == y_start,
        ps.x_end as int == clamped_end(x_start as int, pixel_size as int, image.spec_width()),
        ps.y_end as int == clamped_end(y_start as int, pixel_size as int, image.spec_height()),
        ps.slice@ == region_pixels(
            *image,
            ps.x_start as int,
            ps.x_end as int,
            ps.y_start as int,
            ps.y_end as int,
        ),
{
    let (width, height) = image.dimensions();
    let x_end: u32 = if pixel_size <= width - x_start {
        x_start + pixel_size
    } else {
        width
    };
    let y_end: u32 = if pixel_size <= height - y_start {
        y_start + pixel_size
    } else {
        height
    };
    let mut slice: Vec<Rgb> = Vec::new();
    let mut x: u32 = x_start;
    proof {
        assert(slice@ =~= region_pixels(
            *image,
            x_start as int,
            x_start as int,
            y_start as int,
            y_end as int,
        ));
    }
    while x < x_end
        invariant
            x_start <= x <= x_end,
            x_end as int <= image.spec_width(),
            y_start <= y_end,
            y_end as int <= image.spec_height(),
            image.wf(),
            slice@ == region_pixels(
                *image,
                x_start as int,
                x as int,
                y_start as int,
                y_end as int,
            ),
        decreases x_end - x,
    {
        let mut y: u32 = y_start;
        proof {
            assert(slice@ =~= region_pixels(
                *image,
                x_start as int,
                x as int,
                y_start as int,
                y_end as int,
            ) + column_pixels(*image, x as int, y_start as int, y_start as int));
        }
        while y < y_end
            invariant
                x_start <= x < x_end,
                x_end as int <= image.spec_width(),
                y_start <= y <= y_end,
                y_end as int <= image.spec_height(),
                image.wf(),
                slice@ == region_pixels(
                    *image,
                    x_start as int,
                    x as int,
                    y_start as int,
                    y_end as int,
                ) + column_pixels(*image, x as int, y_start as int, y as int),
            decreases y_end - y,
        {
            let p = image.get_pixel(x, y);
            slice.push(p);
            proof {
                assert(column_pixels(*image, x as int, y_start as int, y as int + 1)
                    == column_pixels(*image, x as int, y_start as int, y as int).push(
                    image.spec_pixel(x as int, y as int),
                ));
                assert(slice@ =~= region_pixels(
                    *image,
                    x_start as int,
                    x as int,
                    y_start as int,
                    y_end as int,
                ) + column_pixels(*image, x as int, y_start as int, y as int + 1));
            }
            y = y + 1;
        }
        proof {
            assert(region_pixels(*image, x_start as int, x as int + 1, y_start as int, y_end as int)
                == region_pixels(*image, x_start as int, x as int, y_start as int, y_end as int)
                + column_pixels(*image, x as int, y_start as int, y_end as int));
        }
        x = x + 1;
    }
    PixelSlice { slice, x_start, x_end, y_start, y_end }
}

/// `ps` holds exactly the pixels of grid block (xi, yi) of `img`,
/// together with the block's coordinates.
pub open spec fn is_block_slice(ps: PixelSlice, img: Image, s: int, xi: int, yi: int) -> bool {
    &&& ps.x_start as int == block_lo(s, xi)
    &&& ps.x_end as int == block_hi(img.spec_width(), s, xi)
    &&& ps.y_start as int == block_lo(s, yi)
    &&& ps.y_end as int == block_hi(img.spec_height(), s, yi)
    &&& ps.slice@ == region_pixels(
        img,
        block_lo(s, xi),
        block_hi(img.spec_width(), s, xi),
        block_lo(s, yi),
        block_hi(img.spec_height(), s, yi),
    )
}

/// `slices` lists every block of the grid of size-`s` blocks over `img`,
/// column by column: block (xi, yi) sits at position xi * ny + yi.
pub open spec fn slices_match_grid(slices: Seq<PixelSlice>, img: Image, s: int) -> bool {
    &&& slices.len() == num_blocks(img.spec_width(), s) * num_blocks(img.spec_height(), s)
    &&& forall|xi: int, yi: int|
        0 <= xi < num_blocks(img.spec_width(), s) && 0 <= yi < num_blocks(img.spec_height(), s)
            ==> is_block_slice(
            slices[#[trigger] pair_index(num_blocks(img.spec_height(), s), xi, yi)],
            img,
            s,
            xi,
            yi,
        )
}

/// Walk the image in steps of `pixel_size` along both axes, column by
/// column, and collect one slice per grid block; the trailing blocks are
/// clamped to the true remainder of the image, so together the slices
/// tile the image exactly.
pub fn create_pixel_slices(image: &Image, pixel_size: u32) -> (slices: Vec<PixelSlice>)
    requires
        image.wf(),
        pixel_size >= 1,
        image.spec_width() >= 1,
        image.spec_height() >= 1,
    ensures
        slices_match_grid(slices@, *image, pixel_size as int),
{
    let (width, height) = image.dimensions();
    let ghost s = pixel_size as int;
    let ghost w = image.spec_width();
    let ghost h = image.spec_height();
    let ghost nx = num_blocks(w, s);
    let ghost ny = num_blocks(h, s);
    let mut slices: Vec<PixelSlice> = Vec::new();
    let mut x_start: u64 = 0;
    let ghost mut xi: int = 0;
    proof {
        lemma_num_blocks_bounds(w, s);
        lemma_num_blocks_bounds(h, s);
        lemma_block_step(w, s, 0);
        assert(slices@.len() == xi * ny) by (nonlinear_arith)
            requires
                xi == 0,
                slices@.len() == 0,
        ;
    }
    while x_start < width as u64
        invariant
            image.wf(),
            pixel_size >= 1,
            s == pixel_size as int,
            w == image.spec_width(),
            h == image.spec_height(),
            w >= 1,
            h >= 1,
            width as int == w,
            height as int == h,
            nx == num_blocks(w, s),
            ny == num_blocks(h, s),
            ny >= 1,
            0 <= xi <= nx,
            x_start as int == xi * s,
            (x_start < width as u64) <==> (xi < nx),
            slices@.len() == xi * ny,
            forall|xj: int, yj: int|
                0 <= xj < xi && 0 <= yj < ny ==> is_block_slice(
                    slices@[#[trigger] pair_index(ny, xj, yj)],
                    *image,
                    s,
                    xj,
                    yj,
                ),
        decreases nx - xi,
    {
        let mut y_start: u64 = 0;
        let ghost mut yi: int = 0;
        proof {
            lemma_block_step(h, s, 0);
        }
        while y_start < height as u64
            invariant
                image.wf(),
                pixel_size >= 1,
                s == pixel_size as int,
                w == image.spec_width(),
                h == image.spec_height(),
                w >= 1,
                h >= 1,
                width as int == w,
                height as int == h,
                nx == num_blocks(w, s),
                ny == num_blocks(h, s),
                0 <= xi < nx,
                x_start as int == xi * s,
                x_start < width as u64,
                0 <= yi <= ny,
                y_start as int == yi * s,
                (y_start < height as u64) <==> (yi < ny),
                slices@.len() == xi * ny + yi,
                forall|xj: int, yj: int|
                    0 <= xj < xi && 0 <= yj < ny ==> is_block_slice(
                        slices@[#[trigger] pair_index(ny, xj, yj)],
                        *image,
                        s,
                        xj,
                        yj,
                    ),
                forall|yj: int|
                    0 <= yj < yi ==> is_block_slice(
                        slices@[#[trigger] pair_index(ny, xi, yj)],
                        *image,
                        s,
                        xi,
                        yj,
                    ),
            decreases ny - yi,
        {
            let ps = create_pixel_slice(image, x_start as u32, y_start as u32, pixel_size);
            slices.push(ps);
            proof {
                assert(is_block_slice(ps, *image, s, xi, yi));
                assert(pair_index(ny, xi, yi) == xi * ny + yi);
                assert forall|xj: int, yj: int| 0 <= xj < xi && 0 <= yj < ny implies is_block_slice(
                    slices@[#[trigger] pair_index(ny, xj, yj)],
                    *image,
                    s,
                    xj,
                    yj,
                ) by {
                    lemma_mul_is_distributive_add_other_way(ny, xj, 1);
                    lemma_mul_inequality(xj + 1, xi, ny);
                    assert(pair_index(ny, xj, yj) < xi * ny + yi);
                }
                lemma_block_step(h, s, yi + 1);
                lemma_mul_is_distributive_add_other_way(s, yi, 1);
                yi = yi + 1;
            }
            y_start = y_start + pixel_size as u64;
        }
        proof {
            assert forall|xj: int, yj: int|
                0 <= xj < xi + 1 && 0 <= yj < ny implies is_block_slice(
                slices@[#[trigger] pair_index(ny, xj, yj)],
                *image,
                s,
                xj,
                yj,
            ) by {
                if xj == xi {
                    assert(is_block_slice(slices@[pair_index(ny, xi, yj)], *image, s, xi, yj));
                }
            }
            lemma_block_step(w, s, xi + 1);
            lemma_mul_is_distributive_add_other_way(s, xi, 1);
            lemma_mul_is_distributive_add_other_way(ny, xi, 1);
            xi = xi + 1;
        }
        x_start = x_start + pixel_size as u64;
    }
    proof {
        assert(xi == nx);
    }
    slices
}

} // verus!
