use pixelate::color::Rgb;
use pixelate::filter::{pixelate, PixelateError};
use pixelate::img::Image;
use pixelate::pixel_slice::create_pixel_slices;

fn fill_rect(img: &mut Image, x0: u32, y0: u32, x1: u32, y1: u32, p: Rgb) {
    for x in x0..x1 {
        for y in y0..y1 {
            img.put_pixel(x, y, p);
        }
    }
}

fn assert_flat(img: &Image, x0: u32, y0: u32, x1: u32, y1: u32, p: Rgb) {
    for x in x0..x1 {
        for y in y0..y1 {
            assert_eq!(img.get_pixel(x, y), p);
        }
    }
}

#[test]
fn zero_block_size_is_rejected() {
    let img = Image::new(4, 4);
    assert!(matches!(
        pixelate(&img, 0),
        Err(PixelateError::InvalidBlockSize)
    ));
}

#[test]
fn empty_image_is_rejected() {
    let wide = Image::new(5, 0);
    assert!(matches!(pixelate(&wide, 3), Err(PixelateError::EmptyImage)));
    let tall = Image::new(0, 5);
    assert!(matches!(pixelate(&tall, 3), Err(PixelateError::EmptyImage)));
}

#[test]
fn output_dimensions_equal_input_dimensions() {
    let img = Image::new(7, 5);
    let out = pixelate(&img, 3).unwrap();
    assert_eq!(out.dimensions(), (7, 5));
    let out_large_block = pixelate(&img, 100).unwrap();
    assert_eq!(out_large_block.dimensions(), (7, 5));
}

#[test]
fn uniform_quadrants_stay_unchanged() {
    let mut img = Image::new(4, 4);
    let colors: [Rgb; 4] = [
        Rgb::new(10, 20, 30),
        Rgb::new(200, 0, 50),
        Rgb::new(0, 255, 128),
        Rgb::new(90, 90, 90),
    ];
    fill_rect(&mut img, 0, 0, 2, 2, colors[0]);
    fill_rect(&mut img, 2, 0, 4, 2, colors[1]);
    fill_rect(&mut img, 0, 2, 2, 4, colors[2]);
    fill_rect(&mut img, 2, 2, 4, 4, colors[3]);
    let out = pixelate(&img, 2).unwrap();
    for x in 0..4 {
        for y in 0..4 {
            assert_eq!(out.get_pixel(x, y), img.get_pixel(x, y));
        }
    }
}

#[test]
fn pixelating_twice_equals_pixelating_once() {
    let mut img = Image::new(5, 4);
    for x in 0..5 {
        for y in 0..4 {
            let v: u8 = (x * 40 + y * 13) as u8;
            img.put_pixel(x, y, Rgb::new(v, v.wrapping_add(77), v.wrapping_mul(3)));
        }
    }
    let once = pixelate(&img, 2).unwrap();
    let twice = pixelate(&once, 2).unwrap();
    assert_eq!(once.dimensions(), twice.dimensions());
    for x in 0..5 {
        for y in 0..4 {
            assert_eq!(once.get_pixel(x, y), twice.get_pixel(x, y));
        }
    }
}

#[test]
fn non_multiple_dimensions_stay_covered() {
    let zeros = Image::new(3, 3);
    let out = pixelate(&zeros, 2).unwrap();
    assert_eq!(out.dimensions(), (3, 3));
    assert_flat(&out, 0, 0, 3, 3, Rgb::new(0, 0, 0));

    let mut flat = Image::new(3, 3);
    fill_rect(&mut flat, 0, 0, 3, 3, Rgb::new(30, 60, 90));
    let out_flat = pixelate(&flat, 2).unwrap();
    assert_flat(&out_flat, 0, 0, 3, 3, Rgb::new(30, 60, 90));
}

#[test]
fn block_average_has_exact_floor_value() {
    let mut img = Image::new(2, 2);
    img.put_pixel(0, 0, Rgb::new(1, 5, 9));
    img.put_pixel(0, 1, Rgb::new(2, 6, 10));
    img.put_pixel(1, 0, Rgb::new(3, 7, 11));
    img.put_pixel(1, 1, Rgb::new(4, 8, 12));
    let out = pixelate(&img, 2).unwrap();
    assert_flat(&out, 0, 0, 2, 2, Rgb::new(2, 6, 10));

    let mut mixed = Image::new(2, 2);
    mixed.put_pixel(0, 0, Rgb::new(100, 100, 100));
    mixed.put_pixel(0, 1, Rgb::new(0, 0, 0));
    mixed.put_pixel(1, 0, Rgb::new(0, 0, 0));
    mixed.put_pixel(1, 1, Rgb::new(0, 0, 0));
    let out_mixed = pixelate(&mixed, 2).unwrap();
    assert_flat(&out_mixed, 0, 0, 2, 2, Rgb::new(25, 25, 25));
}

#[test]
fn slices_tile_the_image_exactly() {
    let img = Image::new(5, 3);
    let slices = create_pixel_slices(&img, 2);
    for x in 0..5u32 {
        for y in 0..3u32 {
            let mut covered: u32 = 0;
            for ps in &slices {
                assert!(ps.x_start < ps.x_end && ps.x_end <= 5);
                assert!(ps.y_start < ps.y_end && ps.y_end <= 3);
                let area = (ps.x_end - ps.x_start) * (ps.y_end - ps.y_start);
                assert_eq!(ps.slice.len() as u32, area);
                if ps.x_start <= x && x < ps.x_end && ps.y_start <= y && y < ps.y_end {
                    covered += 1;
                }
            }
            assert_eq!(covered, 1);
        }
    }
}
