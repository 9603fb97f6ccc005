use rust_software_rasterizer::buffer::Buffer;
use rust_software_rasterizer::drawable::Drawable;

#[test]
fn new_buffer_is_zeroed() {
    let b = Buffer::new(7, 5);
    assert_eq!(b.width(), 7);
    assert_eq!(b.height(), 5);
    assert_eq!(b.as_slice().len(), 35);
    assert!(b.as_slice().iter().all(|&c| c == 0));
}

#[test]
fn set_pixel_row_major_layout() {
    let mut b = Buffer::new(7, 5);
    b.set_pixel(3, 2, 0xABCD);
    assert_eq!(b.as_slice()[2 * 7 + 3], 0xABCD);
    assert_eq!(b.as_slice().iter().filter(|&&c| c != 0).count(), 1);
}

#[test]
fn set_pixel_out_of_bounds_is_ignored() {
    let mut b = Buffer::new(7, 5);
    b.set_pixel(7, 0, 1);
    b.set_pixel(0, 5, 1);
    b.set_pixel(usize::MAX, usize::MAX, 1);
    assert!(b.as_slice().iter().all(|&c| c == 0));
}

#[test]
fn clear_paints_every_pixel() {
    let mut b = Buffer::new(4, 3);
    b.set_pixel(1, 1, 2);
    b.clear(0x11);
    assert!(b.as_slice().iter().all(|&c| c == 0x11));
}

#[test]
fn resize_grows_with_zeroes_and_shrinks_keeping_prefix() {
    let mut b = Buffer::new(2, 2);
    b.clear(9);
    b.resize(3, 3);
    assert_eq!(b.width(), 3);
    assert_eq!(b.height(), 3);
    assert_eq!(b.as_slice(), &[9, 9, 9, 9, 0, 0, 0, 0, 0]);
    b.resize(2, 1);
    assert_eq!(b.as_slice(), &[9, 9]);
}

#[test]
fn drawable_view_matches_inherent_operations() {
    let mut b = Buffer::new(4, 4);
    Drawable::set_pixel(&mut b, 1, 2, 5);
    assert_eq!(Drawable::width(&b), 4);
    assert_eq!(Drawable::height(&b), 4);
    assert_eq!(b.as_slice()[2 * 4 + 1], 5);
}
