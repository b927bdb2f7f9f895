use pixelate::color::{get_pixel_color as pick_channel, Color, Rgb};
use pixelate::pixel_slice::PixelSlice;

#[test]
fn create_new_pixel() {
    let pixel: Rgb = Rgb::new(100, 100, 100);
    let mut slice = Vec::new();
    for _ in 0..10 {
        slice.push(pixel);
    }
    let pixel_slice = PixelSlice {
        slice,
        x_start: 0,
        x_end: 0,
        y_start: 0,
        y_end: 0,
    };
    assert_eq!(pixel_slice.create_new_pixel(), pixel);
}

#[test]
fn get_pixel_color() {
    let (r, g, b): (u8, u8, u8) = (10, 20, 30);
    let pixel = Rgb::new(r, g, b);
    assert_eq!(pick_channel(pixel, Color::Red), r);
    assert_eq!(pick_channel(pixel, Color::Green), g);
    assert_eq!(pick_channel(pixel, Color::Blue), b);
}

#[test]
fn uniform_slice_average_is_exact() {
    let pixel = Rgb::new(7, 8, 9);
    let mut slice = Vec::new();
    for _ in 0..5 {
        slice.push(pixel);
    }
    let pixel_slice = PixelSlice {
        slice,
        x_start: 0,
        x_end: 0,
        y_start: 0,
        y_end: 0,
    };
    assert_eq!(pixel_slice.create_new_pixel(), pixel);
}

#[test]
fn mixed_slice_average_uses_floor_division() {
    let mut slice = Vec::new();
    for _ in 0..9 {
        slice.push(Rgb::new(0, 0, 0));
    }
    slice.push(Rgb::new(100, 100, 100));
    let pixel_slice = PixelSlice {
        slice,
        x_start: 0,
        x_end: 0,
        y_start: 0,
        y_end: 0,
    };
    assert_eq!(pixel_slice.create_new_pixel(), Rgb::new(10, 10, 10));
}

#[test]
fn channel_means_are_independent() {
    let mut slice = Vec::new();
    slice.push(Rgb::new(1, 5, 9));
    slice.push(Rgb::new(2, 6, 10));
    slice.push(Rgb::new(3, 7, 11));
    slice.push(Rgb::new(4, 8, 12));
    let pixel_slice = PixelSlice {
        slice,
        x_start: 0,
        x_end: 0,
        y_start: 0,
        y_end: 0,
    };
    assert_eq!(pixel_slice.get_red_color(), 2);
    assert_eq!(pixel_slice.get_green_color(), 6);
    assert_eq!(pixel_slice.get_blue_color(), 10);
}
