use jpeg_unround::orientation::{oriented, transposes};

/// Pixel (r, c) of the stored picture as the table of the module has it.
fn shown(orientation: i32, height: usize, width: usize, r: usize, c: usize) -> (usize, usize) {
    match orientation {
        2 => (r, width - 1 - c),
        3 => (height - 1 - r, width - 1 - c),
        4 => (height - 1 - r, c),
        5 => (c, r),
        6 => (height - 1 - c, r),
        7 => (height - 1 - c, width - 1 - r),
        8 => (c, width - 1 - r),
        _ => (r, c),
    }
}

#[test]
fn every_orientation_is_its_table() {
    for (height, width) in [(1, 1), (1, 5), (4, 1), (3, 7), (70, 130), (129, 64)] {
        let channels = 2;
        let samples: Vec<u32> = (0..height * width * channels)
            .map(|index| u32::try_from(index).expect("fits"))
            .collect();
        for orientation in 0..=8 {
            let turned = oriented(&samples, height, width, channels, orientation).expect("a picture");
            let (rows, columns) = if transposes(orientation) {
                (width, height)
            } else {
                (height, width)
            };
            assert_eq!((turned.height, turned.width), (rows, columns));
            for r in 0..rows {
                for c in 0..columns {
                    let (sr, sc) = shown(orientation, height, width, r, c);
                    for channel in 0..channels {
                        assert_eq!(
                            turned.samples[(r * columns + c) * channels + channel],
                            samples[(sr * width + sc) * channels + channel],
                            "orientation {orientation}, {height} x {width}, pixel ({r}, {c})"
                        );
                    }
                }
            }
        }
    }
}

#[test]
fn a_picture_of_two_by_three_is_turned_as_it_is_shown() {
    // 1 2 3
    // 4 5 6
    let samples = [1, 2, 3, 4, 5, 6];
    let turned = |orientation| oriented(&samples, 2, 3, 1, orientation).expect("a picture").samples;
    assert_eq!(turned(2), [3, 2, 1, 6, 5, 4]);
    assert_eq!(turned(3), [6, 5, 4, 3, 2, 1]);
    assert_eq!(turned(4), [4, 5, 6, 1, 2, 3]);
    assert_eq!(turned(5), [1, 4, 2, 5, 3, 6]);
    assert_eq!(turned(6), [4, 1, 5, 2, 6, 3]);
    assert_eq!(turned(7), [6, 3, 5, 2, 4, 1]);
    assert_eq!(turned(8), [3, 6, 2, 5, 1, 4]);
}

#[test]
fn samples_move_bit_for_bit() {
    let samples = [-0.0, f64::from_bits(1), f64::NAN, 0.1 + 0.2, f64::MAX, 255.0];
    for orientation in 1..=8 {
        let turned = oriented(&samples, 3, 2, 1, orientation).expect("a picture");
        let mut bits: Vec<u64> = turned.samples.iter().map(|sample| sample.to_bits()).collect();
        let mut expected: Vec<u64> = samples.iter().map(|sample| sample.to_bits()).collect();
        bits.sort_unstable();
        expected.sort_unstable();
        assert_eq!(bits, expected);
    }
}

#[test]
fn wrong_orientations_and_pictures_are_refused() {
    assert!(oriented(&[0u8; 6], 2, 3, 1, 9).is_err());
    assert!(oriented(&[0u8; 6], 2, 3, 1, -1).is_err());
    assert!(oriented(&[0u8; 6], 2, 2, 1, 1).is_err());
    assert!(oriented(&[0u8; 6], 3, 2, 0, 1).is_err());
    let empty = oriented::<u8>(&[], 0, 4, 3, 6).expect("an empty picture");
    assert_eq!((empty.height, empty.width), (4, 0));
}

#[test]
fn turning_back_gives_the_picture_back() {
    let samples: Vec<u32> = (0..2 * 3 * 2).collect();
    for orientation in 0..=8 {
        let undoing = match orientation {
            6 => 8,
            8 => 6,
            other => other,
        };
        let turned = oriented(&samples, 2, 3, 2, orientation).expect("an orientation");
        let back = oriented(&turned.samples, turned.height, turned.width, 2, undoing).expect("an orientation");
        assert_eq!((back.samples.as_slice(), back.height, back.width), (samples.as_slice(), 2, 3), "{orientation}");
        if orientation <= 1 {
            assert_eq!(turned.samples, samples);
        }
    }
}
