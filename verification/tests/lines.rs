use rust_software_rasterizer::buffer::Buffer;
use rust_software_rasterizer::raster::draw_line;
use rust_software_rasterizer::walk::walk_line;

fn pix(b: &Buffer, x: usize, y: usize) -> u32 {
    b.as_slice()[y * b.width() + x]
}

fn colored_count(b: &Buffer) -> usize {
    b.as_slice().iter().filter(|&&c| c != 0).count()
}

#[test]
fn endpoints_are_plotted() {
    let mut b = Buffer::new(800, 600);
    draw_line(&mut b, 100, 100, 600, 50, 0xFFFF00);
    assert_eq!(pix(&b, 100, 100), 0xFFFF00);
    assert_eq!(pix(&b, 600, 50), 0xFFFF00);
}

#[test]
fn shallow_line_steps_once_per_column() {
    // dx = 500 > dy = 50: the x axis drives, so the walk has exactly 501
    // points, one per column from 100 to 600
    let mut b = Buffer::new(800, 600);
    draw_line(&mut b, 100, 100, 600, 50, 0xFF);
    assert_eq!(colored_count(&b), 501);
    for x in 100..=600usize {
        let count = (0..600).filter(|&y| pix(&b, x, y) != 0).count();
        assert_eq!(count, 1, "column {} should hold exactly one pixel", x);
    }
}

#[test]
fn walk_is_connected_and_monotonic() {
    let points = walk_line(100, 100, 600, 50);
    assert_eq!(points.len(), 501);
    assert_eq!(points[0], (100, 100));
    assert_eq!(points[500], (600, 50));
    for w in points.windows(2) {
        let (ax, ay) = w[0];
        let (bx, by) = w[1];
        assert!((bx - ax).abs() <= 1 && (by - ay).abs() <= 1);
        assert_eq!(bx, ax + 1, "the driving coordinate steps by exactly one");
    }
}

#[test]
fn steep_walk_is_connected_and_monotonic() {
    let points = walk_line(3, 20, 7, 2);
    assert_eq!(points.len(), 19);
    assert_eq!(points[0], (3, 20));
    assert_eq!(points[18], (7, 2));
    for w in points.windows(2) {
        let (ax, ay) = w[0];
        let (bx, by) = w[1];
        assert!((bx - ax).abs() <= 1);
        assert_eq!(by, ay - 1, "the driving coordinate steps by exactly one");
    }
}

#[test]
fn walk_of_single_point() {
    let points = walk_line(5, 9, 5, 9);
    assert_eq!(points, vec![(5, 9)]);
}

#[test]
fn horizontal_line_pixels() {
    let mut b = Buffer::new(10, 10);
    draw_line(&mut b, 5, 2, 1, 2, 3);
    for x in 1..=5usize {
        assert_eq!(pix(&b, x, 2), 3);
    }
    assert_eq!(colored_count(&b), 5);
}

#[test]
fn vertical_line_pixels() {
    let mut b = Buffer::new(10, 10);
    draw_line(&mut b, 4, 1, 4, 6, 3);
    for y in 1..=6usize {
        assert_eq!(pix(&b, 4, y), 3);
    }
    assert_eq!(colored_count(&b), 6);
}

#[test]
fn diagonal_line_pixels() {
    let mut b = Buffer::new(10, 10);
    draw_line(&mut b, 1, 1, 6, 6, 3);
    for t in 1..=6usize {
        assert_eq!(pix(&b, t, t), 3);
    }
    assert_eq!(colored_count(&b), 6);
}

#[test]
fn symmetry_for_horizontal_vertical_diagonal() {
    for &((x1, y1), (x2, y2)) in &[((2, 3), (9, 3)), ((4, 1), (4, 8)), ((1, 7), (7, 1))] {
        let mut fwd = Buffer::new(12, 12);
        let mut rev = Buffer::new(12, 12);
        draw_line(&mut fwd, x1, y1, x2, y2, 5);
        draw_line(&mut rev, x2, y2, x1, y1, 5);
        assert_eq!(fwd.as_slice(), rev.as_slice());
    }
}

#[test]
fn fully_negative_line_draws_nothing() {
    let mut b = Buffer::new(100, 100);
    draw_line(&mut b, -50, -50, -10, -10, 0xFF00FF);
    assert!(b.as_slice().iter().all(|&c| c == 0));
}

#[test]
fn crossing_line_clips_to_surface() {
    let mut b = Buffer::new(4, 4);
    draw_line(&mut b, -5, -5, 5, 5, 9);
    for t in 0..4usize {
        assert_eq!(pix(&b, t, t), 9);
    }
    assert_eq!(colored_count(&b), 4);
}

#[test]
fn zero_length_line_in_bounds() {
    let mut b = Buffer::new(8, 8);
    draw_line(&mut b, 3, 4, 3, 4, 2);
    assert_eq!(pix(&b, 3, 4), 2);
    assert_eq!(colored_count(&b), 1);
}

#[test]
fn zero_length_line_out_of_bounds() {
    let mut b = Buffer::new(8, 8);
    draw_line(&mut b, -1, 4, -1, 4, 2);
    draw_line(&mut b, 3, 8, 3, 8, 2);
    assert!(b.as_slice().iter().all(|&c| c == 0));
}

#[test]
fn extreme_coordinates_return_normally() {
    let mut b = Buffer::new(10, 10);
    draw_line(&mut b, i32::MIN, i32::MIN, i32::MIN + 3, i32::MIN + 3, 1);
    draw_line(&mut b, i32::MAX, 5, i32::MAX, 9, 1);
    draw_line(&mut b, i32::MAX - 2, i32::MIN, i32::MAX, i32::MIN + 7, 1);
    assert!(b.as_slice().iter().all(|&c| c == 0));
}

#[test]
fn steep_line_endpoints_and_count() {
    let mut b = Buffer::new(20, 20);
    draw_line(&mut b, 2, 1, 5, 13, 6);
    assert_eq!(pix(&b, 2, 1), 6);
    assert_eq!(pix(&b, 5, 13), 6);
    // dy = 12 drives: one pixel per row from 1 to 13
    assert_eq!(colored_count(&b), 13);
}
