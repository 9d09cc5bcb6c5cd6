use std::io::Cursor;

use image::{DynamicImage, ImageOutputFormat, Rgb, RgbImage};
use ratrun::titleart::{lines_of_art, rat_lines};

fn half_white_png() -> Vec<u8> {
    let img = RgbImage::from_fn(16, 16, |x, _| if x < 8 { Rgb([255, 255, 255]) } else { Rgb([0, 0, 0]) });
    let mut bytes = Vec::new();
    DynamicImage::ImageRgb8(img)
        .write_to(&mut Cursor::new(&mut bytes), ImageOutputFormat::Png)
        .unwrap();
    bytes
}

#[test]
fn renders_block_art_from_png() {
    let lines = rat_lines(&half_white_png(), 8).expect("art should render");
    // 8 columns of a square picture give 4 rows (characters are twice as
    // tall as wide); the black right half is trailing space and is trimmed.
    assert_eq!(lines, vec!["████".to_string(); 4]);
}

#[test]
fn undecodable_bytes_give_none() {
    assert_eq!(rat_lines(&[1, 2, 3, 4], 8), None);
    assert_eq!(rat_lines(&[], 8), None);
}

#[test]
fn lines_are_split_trimmed_and_blank_ones_dropped() {
    let text: Vec<char> = "ab \r\n\n   \n x\t".chars().collect();
    assert_eq!(lines_of_art(&text), Some(vec!["ab".to_string(), " x".to_string()]));
    let blank: Vec<char> = "  \n\u{3000}\n".chars().collect();
    assert_eq!(lines_of_art(&blank), None);
    assert_eq!(lines_of_art(&Vec::new()), None);
}
