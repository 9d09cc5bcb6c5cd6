use ratrun::framebuffer::PixelBuffer;
use ratrun::props::{barrier, console, counter, crate_box, grate, table, valve};

#[test]
fn valve_wheel_and_cross() {
    let mut pb = PixelBuffer::new(30, 30);
    valve(&mut pb, 5, 5, 20, 20);
    // Centre (15, 15), radius 9.
    assert_eq!(pb.pixel_at(15, 15), (40, 30, 30));
    assert_eq!(pb.pixel_at(15, 7), (40, 30, 30));
    assert_eq!(pb.pixel_at(20, 20), (190, 70, 60));
    assert_eq!(pb.pixel_at(6, 6), (90, 110, 106));
    assert_eq!(pb.pixel_at(0, 0), (0, 0, 0));
}

#[test]
fn crate_border_braces_and_highlight() {
    let mut pb = PixelBuffer::new(30, 30);
    crate_box(&mut pb, 0, 0, 22, 22);
    assert_eq!(pb.pixel_at(5, 0), (186, 146, 92));
    assert_eq!(pb.pixel_at(0, 5), (96, 68, 38));
    assert_eq!(pb.pixel_at(5, 5), (96, 68, 38));
    assert_eq!(pb.pixel_at(16, 5), (96, 68, 38));
    assert_eq!(pb.pixel_at(10, 3), (152, 112, 66));
    assert_eq!(pb.pixel_at(22, 5), (0, 0, 0));
}

#[test]
fn counter_rows() {
    let mut pb = PixelBuffer::new(70, 30);
    counter(&mut pb, 0, 0, 66, 22);
    assert_eq!(pb.pixel_at(3, 0), (205, 210, 220));
    assert_eq!(pb.pixel_at(3, 21), (92, 96, 108));
    assert_eq!(pb.pixel_at(3, 11), (118, 122, 132));
    assert_eq!(pb.pixel_at(3, 5), (150, 152, 160));
    assert_eq!(pb.pixel_at(66, 5), (0, 0, 0));
}

#[test]
fn table_legs_seam_and_rim() {
    let mut pb = PixelBuffer::new(50, 30);
    let seam = (137, 102, 62);
    table(&mut pb, 0, 0, 40, 26, seam);
    assert_eq!(pb.pixel_at(1, 1), (78, 54, 32));
    assert_eq!(pb.pixel_at(38, 24), (78, 54, 32));
    assert_eq!(pb.pixel_at(10, 13), seam);
    assert_eq!(pb.pixel_at(10, 0), (108, 76, 44));
    assert_eq!(pb.pixel_at(39, 10), (108, 76, 44));
    assert_eq!(pb.pixel_at(10, 5), (162, 120, 74));
}

#[test]
fn grate_bars_every_five() {
    let mut pb = PixelBuffer::new(40, 40);
    let line = (200, 200, 200);
    grate(&mut pb, 0, 0, 30, 30, line);
    assert_eq!(pb.pixel_at(2, 10), line);
    assert_eq!(pb.pixel_at(7, 0), line);
    assert_eq!(pb.pixel_at(10, 2), line);
    assert_eq!(pb.pixel_at(27, 29), line);
    assert_eq!(pb.pixel_at(3, 3), (28, 36, 34));
    assert_eq!(pb.pixel_at(30, 2), (0, 0, 0));
}

#[test]
fn barrier_stripes_and_edges() {
    let mut pb = PixelBuffer::new(20, 70);
    let (hi, lo) = ((105, 121, 185), (33, 38, 58));
    barrier(&mut pb, 0, 0, 16, 66, hi, lo);
    assert_eq!(pb.pixel_at(0, 0), hi);
    assert_eq!(pb.pixel_at(3, 65), lo);
    assert_eq!(pb.pixel_at(1, 1), (220, 200, 80));
    assert_eq!(pb.pixel_at(5, 1), (66, 76, 116));
    assert_eq!(pb.pixel_at(9, 2), (220, 200, 80));
    assert_eq!(pb.pixel_at(16, 2), (0, 0, 0));
}

#[test]
fn console_screen_dots_and_buttons() {
    let mut pb = PixelBuffer::new(50, 20);
    console(&mut pb, 0, 0, 46, 18, (10, 20, 30), (5, 5, 5));
    assert_eq!(pb.pixel_at(1, 1), (48, 54, 70));
    assert_eq!(pb.pixel_at(5, 5), (10, 20, 30));
    assert_eq!(pb.pixel_at(3, 3), (15, 25, 35));
    assert_eq!(pb.pixel_at(4, 3), (10, 20, 30));
    assert_eq!(pb.pixel_at(42, 3), (15, 25, 35));
    assert_eq!(pb.pixel_at(43, 3), (10, 20, 30));
    assert_eq!(pb.pixel_at(2, 16), (220, 90, 80));
    assert_eq!(pb.pixel_at(6, 16), (220, 200, 90));
    assert_eq!(pb.pixel_at(10, 15), (110, 220, 130));
}
