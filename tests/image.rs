use rt::ImageOutput;

#[test]
fn new_image_is_black() {
    let img = ImageOutput::new(4, 3, 10);
    assert_eq!(img.width(), 4);
    assert_eq!(img.height(), 3);
    assert_eq!(img.samples_per_pixel(), 10);
    for y in 0..3 {
        for x in 0..4 {
            assert_eq!(img.pixel(x, y), [0, 0, 0]);
        }
    }
    assert_eq!(img.samples(), vec![0u8; 36]);
}

#[test]
fn put_pixel_color_sets_one_pixel() {
    let mut img = ImageOutput::new(4, 3, 1);
    img.put_pixel_color(1, 2, [10, 20, 30]);
    assert_eq!(img.pixel(1, 2), [10, 20, 30]);
    assert_eq!(img.pixel(2, 2), [0, 0, 0]);
    assert_eq!(img.pixel(1, 1), [0, 0, 0]);
    let samples = img.samples();
    assert_eq!(&samples[27..30], &[10, 20, 30]);
    assert_eq!(samples.iter().map(|&s| s as u32).sum::<u32>(), 60);
}

#[test]
fn put_pixel_color_overwrites() {
    let mut img = ImageOutput::new(2, 2, 1);
    img.put_pixel_color(0, 0, [1, 2, 3]);
    img.put_pixel_color(0, 0, [255, 254, 253]);
    assert_eq!(img.pixel(0, 0), [255, 254, 253]);
}

#[test]
fn scanline_zero_is_the_bottom_row() {
    let mut img = ImageOutput::new(3, 2, 1);
    img.put_scanline(0, &vec![[1, 1, 1], [2, 2, 2], [3, 3, 3]]);
    assert_eq!(img.pixel(0, 1), [1, 1, 1]);
    assert_eq!(img.pixel(2, 1), [3, 3, 3]);
    assert_eq!(img.pixel(0, 0), [0, 0, 0]);
    assert_eq!(img.samples(), vec![0, 0, 0, 0, 0, 0, 0, 0, 0, 1, 1, 1, 2, 2, 2, 3, 3, 3]);
}

#[test]
fn scanlines_in_either_order_give_the_same_image() {
    let top = vec![[9, 8, 7], [6, 5, 4]];
    let bottom = vec![[1, 2, 3], [4, 5, 6]];
    let mut a = ImageOutput::new(2, 2, 4);
    a.put_scanline(1, &top);
    a.put_scanline(0, &bottom);
    let mut b = ImageOutput::new(2, 2, 4);
    b.put_scanline(0, &bottom);
    b.put_scanline(1, &top);
    assert_eq!(a.samples(), b.samples());
    assert_eq!(a.samples(), vec![9, 8, 7, 6, 5, 4, 1, 2, 3, 4, 5, 6]);
}

#[test]
fn empty_image_has_no_samples() {
    let img = ImageOutput::new(0, 5, 1);
    assert_eq!(img.samples(), Vec::<u8>::new());
}
