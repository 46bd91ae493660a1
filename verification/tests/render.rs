use mandel::render::{mandelbrot, pixel, tile, tile_count, Pixel, Tile, TILE_HEIGHT, TILE_WIDTH};
use std::cell::RefCell;

fn tag(p: Pixel) -> u32 {
    (1000 * p.y + p.x) as u32 + 1
}

#[test]
fn pixel_lands_at_its_row_major_index() {
    let mut buf = vec![0u32; 6];
    let _ = pixel(Pixel { x: 2, y: 1 }, 3, 2, &tag, &mut buf);
    assert_eq!(buf, vec![0, 0, 0, 0, 0, 1003]);
    let _ = pixel(Pixel { x: 0, y: 0 }, 3, 2, &tag, &mut buf);
    let _ = pixel(Pixel { x: 1, y: 1 }, 3, 2, &tag, &mut buf);
    assert_eq!(buf, vec![1, 0, 0, 0, 1002, 1003]);
}

#[test]
fn pixel_past_the_right_or_bottom_edge_writes_nothing() {
    let calls = RefCell::new(0u32);
    let resolve = |p: Pixel| {
        *calls.borrow_mut() += 1;
        tag(p)
    };
    let mut buf = vec![7u32; 12];
    let _ = pixel(Pixel { x: 4, y: 0 }, 4, 3, &resolve, &mut buf);
    let _ = pixel(Pixel { x: 0, y: 3 }, 4, 3, &resolve, &mut buf);
    let _ = pixel(Pixel { x: 4, y: 3 }, 4, 3, &resolve, &mut buf);
    let _ = pixel(Pixel { x: usize::MAX, y: usize::MAX }, 4, 3, &resolve, &mut buf);
    assert_eq!(buf, vec![7u32; 12]);
    assert_eq!(*calls.borrow(), 0);
}

#[test]
fn pixel_on_an_empty_image_writes_nothing() {
    let mut buf: Vec<u32> = vec![];
    let _ = pixel(Pixel { x: 0, y: 0 }, 0, 0, &tag, &mut buf);
    let _ = pixel(Pixel { x: 0, y: 0 }, 0, 5, &tag, &mut buf);
    let _ = pixel(Pixel { x: 0, y: 0 }, 5, 0, &tag, &mut buf);
    assert!(buf.is_empty());
}

#[test]
fn tile_is_eight_by_eight() {
    assert_eq!(TILE_WIDTH, 8);
    assert_eq!(TILE_HEIGHT, 8);
}

#[test]
fn tile_count_rounds_up() {
    assert_eq!(tile_count(0, 8), 0);
    assert_eq!(tile_count(1, 8), 1);
    assert_eq!(tile_count(7, 8), 1);
    assert_eq!(tile_count(8, 8), 1);
    assert_eq!(tile_count(9, 8), 2);
    assert_eq!(tile_count(640, 8), 80);
    assert_eq!(tile_count(480, 8), 60);
    assert_eq!(tile_count(641, 8), 81);
    assert_eq!(tile_count(10, 3), 4);
    assert_eq!(tile_count(usize::MAX, 1), usize::MAX);
    assert_eq!(tile_count(usize::MAX, 8), usize::MAX / 8 + 1);
    assert_eq!(tile_count(usize::MAX, usize::MAX), 1);
}

#[test]
fn tile_resolves_its_block_and_nothing_else() {
    let (width, height) = (20usize, 17usize);
    let mut buf = vec![0u32; width * height];
    let _ = tile(Tile { i: 1, j: 1 }, width, height, &tag, &mut buf);
    for y in 0..height {
        for x in 0..width {
            let inside = (8..16).contains(&x) && (8..16).contains(&y);
            let expected = if inside { tag(Pixel { x, y }) } else { 0 };
            assert_eq!(buf[y * width + x], expected);
        }
    }
}

#[test]
fn tile_that_overhangs_the_image_skips_what_is_off_it() {
    let (width, height) = (10usize, 3usize);
    let calls = RefCell::new(Vec::new());
    let resolve = |p: Pixel| {
        calls.borrow_mut().push(p);
        tag(p)
    };
    let mut buf = vec![0u32; width * height];
    let _ = tile(Tile { i: 1, j: 0 }, width, height, &resolve, &mut buf);
    let row = |y: usize| vec![Pixel { x: 8, y }, Pixel { x: 9, y }];
    assert_eq!(*calls.borrow(), [row(0), row(1), row(2)].concat());
    for y in 0..height {
        for x in 0..width {
            let expected = if x >= 8 { tag(Pixel { x, y }) } else { 0 };
            assert_eq!(buf[y * width + x], expected);
        }
    }
}

#[test]
fn tile_off_the_image_writes_nothing() {
    let mut buf = vec![0u32; 9];
    let _ = tile(Tile { i: 1, j: 0 }, 3, 3, &tag, &mut buf);
    let _ = tile(Tile { i: 0, j: 1 }, 3, 3, &tag, &mut buf);
    let _ = tile(Tile { i: usize::MAX, j: 0 }, 3, 3, &tag, &mut buf);
    let _ = tile(Tile { i: 0, j: usize::MAX / 8 + 1 }, 3, 3, &tag, &mut buf);
    assert_eq!(buf, vec![0u32; 9]);
}

#[test]
fn tile_walks_row_by_row_from_the_top_left() {
    let calls = RefCell::new(Vec::new());
    let resolve = |p: Pixel| {
        calls.borrow_mut().push((p.x, p.y));
        0u8
    };
    let mut buf = vec![0u8; 16 * 16];
    let _ = tile(Tile { i: 1, j: 0 }, 16, 16, &resolve, &mut buf);
    let seen = calls.borrow();
    assert_eq!(seen.len(), 64);
    assert_eq!(seen[0], (8, 0));
    assert_eq!(seen[1], (9, 0));
    assert_eq!(seen[8], (8, 1));
    assert_eq!(seen[63], (15, 7));
}

fn render_counting(width: usize, height: usize) -> (Vec<u32>, Vec<u32>) {
    let calls = RefCell::new(vec![0u32; width * height]);
    let resolve = |p: Pixel| {
        calls.borrow_mut()[p.y * width + p.x] += 1;
        tag(p)
    };
    let mut buf = vec![0u32; width * height];
    let _ = mandelbrot(width, height, &resolve, &mut buf);
    (buf, calls.into_inner())
}

#[test]
fn mandelbrot_resolves_every_pixel_exactly_once() {
    for (width, height) in [(1, 1), (8, 8), (9, 7), (16, 24), (17, 3), (3, 17), (31, 33), (64, 48)]
    {
        let (buf, calls) = render_counting(width, height);
        assert_eq!(calls, vec![1u32; width * height]);
        for y in 0..height {
            for x in 0..width {
                assert_eq!(buf[y * width + x], tag(Pixel { x, y }));
            }
        }
    }
}

#[test]
fn mandelbrot_on_an_empty_image_does_nothing() {
    for (width, height) in [(0usize, 0usize), (0, 9), (9, 0)] {
        let (buf, calls) = render_counting(width, height);
        assert!(buf.is_empty());
        assert!(calls.is_empty());
    }
}

#[test]
fn mandelbrot_goes_tile_by_tile() {
    let calls = RefCell::new(Vec::new());
    let resolve = |p: Pixel| {
        calls.borrow_mut().push((p.x / 8, p.y / 8));
        0u8
    };
    let mut buf = vec![0u8; 20 * 10];
    let _ = mandelbrot(20, 10, &resolve, &mut buf);
    let mut tiles = calls.into_inner();
    tiles.dedup();
    // ceil(20 / 8) by ceil(10 / 8) tiles, each visited in one go.
    assert_eq!(tiles, vec![(0, 0), (1, 0), (2, 0), (0, 1), (1, 1), (2, 1)]);
}

#[test]
fn mandelbrot_twice_gives_the_same_buffer() {
    let (first, _) = render_counting(37, 21);
    let (second, _) = render_counting(37, 21);
    assert_eq!(first, second);
}
