use rust_software_rasterizer::buffer::Buffer;
use rust_software_rasterizer::raster::{draw_line, fill_triangle};
use rust_software_rasterizer::walk::walk_line;

fn pix(b: &Buffer, x: usize, y: usize) -> u32 {
    b.as_slice()[y * b.width() + x]
}

fn row_extent(b: &Buffer, y: usize) -> Option<(usize, usize)> {
    let xs: Vec<usize> = (0..b.width()).filter(|&x| pix(b, x, y) != 0).collect();
    xs.first().map(|&lo| (lo, *xs.last().unwrap()))
}

#[test]
fn triangle_mid_row_span() {
    let mut b = Buffer::new(800, 600);
    fill_triangle(&mut b, &[(100, 100), (500, 200), (300, 500)], 0xAA);
    let (lo, hi) = row_extent(&b, 300).expect("row 300 must be filled");
    assert!(100 < lo && lo < 500, "span start {} out of place", lo);
    assert!(100 < hi && hi < 500, "span end {} out of place", hi);
    assert!(lo < hi);
    // the filled span is contiguous
    for x in lo..=hi {
        assert_eq!(pix(&b, x, 300), 0xAA);
    }
    assert_eq!(pix(&b, 300, 300), 0xAA, "an interior pixel is filled");
}

#[test]
fn triangle_covers_its_boundary() {
    let mut b = Buffer::new(20, 20);
    let v = [(1, 1), (8, 1), (4, 6)];
    fill_triangle(&mut b, &v, 7);
    for &(p, q) in &[(0usize, 1usize), (1, 2), (2, 0)] {
        for (x, y) in walk_line(v[p].0, v[p].1, v[q].0, v[q].1) {
            assert_eq!(pix(&b, x as usize, y as usize), 7, "boundary pixel ({}, {})", x, y);
        }
    }
}

#[test]
fn triangle_rows_match_edge_extents() {
    let mut b = Buffer::new(30, 30);
    let v = [(2, 3), (20, 8), (9, 17)];
    fill_triangle(&mut b, &v, 5);
    // gather edge pixels per row
    let mut edges: Vec<(i32, i32)> = Vec::new();
    for &(p, q) in &[(0usize, 1usize), (1, 2), (2, 0)] {
        edges.extend(walk_line(v[p].0, v[p].1, v[q].0, v[q].1));
    }
    for y in 0..30usize {
        let row: Vec<i32> = edges.iter().filter(|p| p.1 == y as i32).map(|p| p.0).collect();
        match row_extent(&b, y) {
            None => assert!(row.is_empty(), "row {} should be empty", y),
            Some((lo, hi)) => {
                let emin = *row.iter().min().unwrap() as usize;
                let emax = *row.iter().max().unwrap() as usize;
                assert_eq!((lo, hi), (emin, emax), "row {}", y);
                for x in lo..=hi {
                    assert_eq!(pix(&b, x, y), 5, "span of row {} is contiguous", y);
                }
            }
        }
    }
}

#[test]
fn collinear_triangle_is_the_extreme_line() {
    let mut tri = Buffer::new(10, 10);
    let mut line = Buffer::new(10, 10);
    fill_triangle(&mut tri, &[(1, 1), (3, 3), (5, 5)], 4);
    draw_line(&mut line, 1, 1, 5, 5, 4);
    assert_eq!(tri.as_slice(), line.as_slice());
}

#[test]
fn point_triangle_fills_one_pixel() {
    let mut b = Buffer::new(8, 8);
    fill_triangle(&mut b, &[(2, 2), (2, 2), (2, 2)], 4);
    assert_eq!(pix(&b, 2, 2), 4);
    assert_eq!(b.as_slice().iter().filter(|&&c| c != 0).count(), 1);
}

#[test]
fn vertex_order_does_not_matter() {
    let v = [(3, 2), (14, 6), (7, 12)];
    let orders: [[usize; 3]; 3] = [[0, 1, 2], [1, 2, 0], [2, 1, 0]];
    let mut buffers: Vec<Buffer> = Vec::new();
    for ord in orders {
        let mut b = Buffer::new(20, 20);
        fill_triangle(&mut b, &[v[ord[0]], v[ord[1]], v[ord[2]]], 8);
        buffers.push(b);
    }
    assert_eq!(buffers[0].as_slice(), buffers[1].as_slice());
    assert_eq!(buffers[0].as_slice(), buffers[2].as_slice());
}

#[test]
fn offscreen_triangle_draws_nothing() {
    let mut b = Buffer::new(50, 50);
    fill_triangle(&mut b, &[(-100, -100), (-50, -10), (-10, -80)], 9);
    assert!(b.as_slice().iter().all(|&c| c == 0));
}

#[test]
fn partially_offscreen_triangle_clips() {
    let mut b = Buffer::new(6, 6);
    fill_triangle(&mut b, &[(-3, 0), (8, 0), (2, 9)], 9);
    // something is drawn, and only within bounds (anything outside would
    // have been an out-of-range write, which the buffer ignores anyway)
    assert!(b.as_slice().iter().any(|&c| c != 0));
    assert_eq!(pix(&b, 2, 0), 9);
}

#[test]
fn collinear_row_triangle_is_the_extreme_segment() {
    let mut tri = Buffer::new(12, 12);
    let mut line = Buffer::new(12, 12);
    fill_triangle(&mut tri, &[(7, 4), (2, 4), (5, 4)], 6);
    draw_line(&mut line, 2, 4, 7, 4, 6);
    assert_eq!(tri.as_slice(), line.as_slice());
}

#[test]
fn every_covered_row_gets_a_span() {
    let mut b = Buffer::new(30, 30);
    fill_triangle(&mut b, &[(2, 3), (20, 8), (9, 17)], 5);
    for y in 3..=17usize {
        assert!(
            row_extent(&b, y).is_some(),
            "row {} lies in the triangle's vertical extent and must be filled",
            y
        );
    }
}
