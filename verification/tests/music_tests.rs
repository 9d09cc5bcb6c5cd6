use ratrun::music::{semitones, REST};

const MINOR: [i32; 7] = [0, 2, 3, 5, 7, 8, 10];

#[test]
fn degrees_within_the_octave() {
    assert_eq!(semitones(&MINOR, 0), Some(0));
    assert_eq!(semitones(&MINOR, 4), Some(7));
    assert_eq!(semitones(&MINOR, 6), Some(10));
}

#[test]
fn degrees_wrap_into_other_octaves() {
    assert_eq!(semitones(&MINOR, 7), Some(12));
    assert_eq!(semitones(&MINOR, 9), Some(15));
    assert_eq!(semitones(&MINOR, -1), Some(-2));
    assert_eq!(semitones(&MINOR, -7), Some(-12));
    assert_eq!(semitones(&MINOR, -8), Some(-14));
}

#[test]
fn degree_rest_is_silent() {
    assert!(semitones(&[0, 2, 4], REST).is_none());
    assert!(semitones(&[0, 2, 4], 0).is_some());
    assert_eq!(semitones(&MINOR, REST), None);
}
