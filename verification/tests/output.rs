use jpeg_unround::error::Error;
use jpeg_unround::jpegio::{self, ErrorKind, Samples};
use jpeg_unround::output::{png_sides, png_written, pnm, shape};

fn options_message<T: std::fmt::Debug>(result: Result<T, Error>) -> String {
    match result {
        Err(Error::Options(message)) => message,
        other => panic!("refused, not {other:?}"),
    }
}

#[test]
fn a_pnm_file_has_its_header_and_samples() {
    // The program rounds binary64 samples to the nearest integer, halves away from 0,
    // and clamps them; the library writes the file of what it rounded.
    #[allow(clippy::cast_possible_truncation, clippy::cast_sign_loss)]
    let gray: Vec<u8> = [0.0f64, 255.0, 128.4].iter().map(|sample| sample.round().clamp(0.0, 255.0) as u8).collect();
    assert_eq!(pnm(Samples::Eight(&gray), 1, 3, 1).expect("a picture"), b"P5\n3 1\n255\n\x00\xff\x80".to_vec());
    #[allow(clippy::cast_possible_truncation, clippy::cast_sign_loss)]
    let colour: Vec<u16> =
        [1.0f64, 2.0, 3.0].iter().map(|sample| (sample * 257.0).round().clamp(0.0, 65535.0) as u16).collect();
    assert_eq!(
        pnm(Samples::Sixteen(&colour), 1, 1, 3).expect("a picture"),
        b"P6\n1 1\n65535\n\x01\x01\x02\x02\x03\x03".to_vec()
    );
    let tall = [1u8, 2, 3, 4, 5, 6, 7, 8, 9, 10, 11, 12];
    let file = pnm(Samples::Eight(&tall), 12, 1, 1).expect("a picture");
    assert_eq!(&file[..10], b"P5\n1 12\n25");
}

#[test]
fn pictures_of_the_wrong_shape_are_refused() {
    assert!(shape(6, 2, 1, 3).is_ok());
    assert_eq!(
        options_message(shape(5, 2, 1, 3)),
        "a picture of 2 x 1 x 1 or 3 samples, not empty, and not of 5 samples in 3 channels"
    );
    assert!(shape(0, 0, 4, 1).is_err());
    assert!(shape(8, 2, 2, 2).is_err());
    let gray = [0u8, 1];
    assert_eq!(
        options_message(pnm(Samples::Eight(&gray), 1, 3, 1)),
        "a picture of 1 x 3 x 1 or 3 samples, not empty, and not of 2 samples in 1 channels"
    );
}

#[test]
fn a_png_file_asks_sides_and_a_level_that_png_allows() {
    assert_eq!(png_sides(6, 1, 2, 3, Some(9)).expect("a picture PNG allows"), (1, 2));
    assert_eq!(png_sides(3, 3, 1, 1, None).expect("a picture PNG allows"), (3, 1));
    assert_eq!(options_message(png_sides(6, 1, 2, 3, Some(10))), "zlib's level is 0 to 9, not 10");
    let side = 0x8000_0000usize;
    assert_eq!(
        options_message(png_sides(side, side, 1, 1, None)),
        "a side of 2147483648 pixels is larger than PNG allows"
    );
    assert!(png_sides(5, 1, 2, 3, None).is_err());
}

#[test]
fn what_the_c_layer_refuses_is_an_option_out_of_its_range() {
    let file = png_written(Ok(jpegio::Written { bytes: vec![1, 2], warning: "w".to_owned() })).expect("a file");
    assert_eq!((file.bytes, file.warning), (vec![1, 2], "w".to_owned()));
    let refusal = jpegio::refused("a picture of no pixels".to_owned());
    assert_eq!(options_message(png_written(Err(refusal))), "a picture of no pixels");
    let failure = jpegio::Error::new(ErrorKind::Memory, "out of memory".to_owned());
    match png_written(Err(failure)) {
        Err(Error::Write(error)) => assert_eq!((error.kind(), error.message()), (ErrorKind::Memory, "out of memory")),
        other => panic!("a writing error, not {other:?}"),
    }
}
