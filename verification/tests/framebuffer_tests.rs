use ratrun::framebuffer::PixelBuffer;
use ratrun::layout::Area;
use ratrun::palette::add;

const RED: (u8, u8, u8) = (200, 10, 10);

#[test]
fn new_buffer_is_black_and_sized() {
    let pb = PixelBuffer::new(8, 5);
    assert_eq!((pb.w(), pb.h()), (8, 5));
    assert_eq!(pb.pixel_at(7, 4), (0, 0, 0));
    // Outside the grid reads black.
    assert_eq!(pb.pixel_at(8, 0), (0, 0, 0));
}

#[test]
fn plot_sets_one_pixel_and_ignores_outside() {
    let mut pb = PixelBuffer::new(4, 4);
    pb.plot(1, 2, RED);
    pb.plot(-1, 0, RED);
    pb.plot(4, 0, RED);
    assert_eq!(pb.pixel_at(1, 2), RED);
    assert_eq!(pb.pixel_at(2, 1), (0, 0, 0));
}

#[test]
fn plot_add_saturates() {
    let mut pb = PixelBuffer::new(2, 2);
    pb.clear((200, 100, 0));
    pb.plot_add(0, 0, (100, 100, 100));
    assert_eq!(pb.pixel_at(0, 0), (255, 200, 100));
    assert_eq!(pb.pixel_at(1, 1), (200, 100, 0));
    assert_eq!(add((250, 5, 0), (10, 5, 0)), (255, 10, 0));
}

#[test]
fn rect_fill_covers_exactly_its_rectangle() {
    let mut pb = PixelBuffer::new(10, 10);
    pb.rect_fill(2, 3, 4, 2, RED);
    let mut count = 0;
    for y in 0..10 {
        for x in 0..10 {
            if pb.pixel_at(x, y) == RED {
                count += 1;
                assert!((2..6).contains(&x) && (3..5).contains(&y));
            }
        }
    }
    assert_eq!(count, 8);
}

#[test]
fn filled_circle_is_a_disk() {
    let mut pb = PixelBuffer::new(11, 11);
    pb.filled_circle(5, 5, 3, RED);
    for y in 0..11i32 {
        for x in 0..11i32 {
            let inside = (x - 5) * (x - 5) + (y - 5) * (y - 5) <= 9;
            assert_eq!(pb.pixel_at(x as usize, y as usize) == RED, inside);
        }
    }
    let mut dot = PixelBuffer::new(3, 3);
    dot.filled_circle(1, 1, 0, RED);
    assert_eq!(dot.pixel_at(1, 1), RED);
    assert_eq!(dot.pixel_at(0, 1), (0, 0, 0));
}

#[test]
fn line_includes_both_ends() {
    let mut pb = PixelBuffer::new(10, 10);
    pb.line(1, 1, 8, 4, RED);
    assert_eq!(pb.pixel_at(1, 1), RED);
    assert_eq!(pb.pixel_at(8, 4), RED);
    // One pixel per column for a shallow line.
    for x in 1..=8 {
        let n = (0..10).filter(|&y| pb.pixel_at(x, y) == RED).count();
        assert_eq!(n, 1);
    }
    let mut v = PixelBuffer::new(3, 6);
    v.line(1, 5, 1, 0, RED);
    for y in 0..6 {
        assert_eq!(v.pixel_at(1, y), RED);
    }
}

#[test]
fn half_block_cells_stack_two_pixels_per_cell() {
    let mut pb = PixelBuffer::new(3, 4);
    let blue = (10, 20, 200);
    pb.plot(1, 0, RED);
    pb.plot(1, 1, blue);
    pb.plot(2, 3, blue);
    let cells = pb.half_block_cells(Area { x: 5, y: 7, width: 4, height: 2 });
    assert_eq!(cells.len(), 8);
    // Row 0, column 1: top pixel (1, 0), bottom pixel (1, 1).
    assert_eq!(cells[1], (6, 7, RED, blue));
    // Row 1, column 2: top pixel (2, 2), bottom pixel (2, 3).
    assert_eq!(cells[4 + 2], (7, 8, (0, 0, 0), blue));
    // Column 3 lies outside the grid and reads black.
    assert_eq!(cells[3], (8, 7, (0, 0, 0), (0, 0, 0)));
}
