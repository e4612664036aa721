use jpeg_unround::jpegio::testing::{check_coefficients, File, Layout};
use jpeg_unround::jpegio::{
    coefficient_count, component_count, refused, sample_count, written, ColorSpace, Error, ErrorKind, Image,
    Options, Plane, Planes, Png, RawComponent, RawImage, RawPlane, Samples, ERROR_ENCODE, OK,
};

fn raw_component(id: i32, wide: u32, high: u32, factors: (i32, i32)) -> RawComponent {
    let count = (wide * high * 64) as usize;
    RawComponent {
        id,
        h_samp_factor: factors.0,
        v_samp_factor: factors.1,
        quant_table_slot: 0,
        width: wide * 8,
        height: high * 8,
        width_in_blocks: wide,
        height_in_blocks: high,
        quant_table: [3; 64],
        coefficients: Some((0..count).map(|value| (value % 100) as i16).collect()),
    }
}

fn empty_component() -> RawComponent {
    RawComponent {
        id: 0,
        h_samp_factor: 0,
        v_samp_factor: 0,
        quant_table_slot: 0,
        width: 0,
        height: 0,
        width_in_blocks: 0,
        height_in_blocks: 0,
        quant_table: [0; 64],
        coefficients: None,
    }
}

fn raw_image(color_space: i32, components: Vec<RawComponent>, count: i32) -> RawImage {
    let mut all = components;
    while all.len() < 4 {
        all.push(empty_component());
    }
    RawImage {
        width: 24,
        height: 16,
        color_space,
        num_components: count,
        max_h_samp_factor: 1,
        max_v_samp_factor: 1,
        progressive: 1,
        arithmetic: 0,
        exif_orientation: 6,
        warnings: 2,
        components: all,
        icc_profile: Some(vec![1, 2, 3]),
    }
}

#[test]
fn statuses_name_their_kinds() {
    assert_eq!(ErrorKind::from_status(1), Some(ErrorKind::Argument));
    assert_eq!(ErrorKind::from_status(4), Some(ErrorKind::Limit));
    assert_eq!(ErrorKind::from_status(ERROR_ENCODE), Some(ErrorKind::Encode));
    assert_eq!(ErrorKind::from_status(OK), None);
    assert_eq!(ErrorKind::from_status(42), None);
    assert_eq!(ErrorKind::Unsupported.name(), "unsupported");
    let error = Error::from_status(2, "Not a JPEG file".to_owned());
    assert_eq!(error.kind(), ErrorKind::Decode);
    assert_eq!(error.message(), "Not a JPEG file");
    assert_eq!(error.text(), "Not a JPEG file (decode)");
    let unknown = Error::from_status(-7, "odd".to_owned());
    assert_eq!(unknown.kind(), ErrorKind::Decode);
    assert_eq!(unknown.message(), "the C layer returned status -7: odd");
    let refusal = refused("no".to_owned());
    assert_eq!((refusal.kind(), refusal.message()), (ErrorKind::Argument, "no"));
}

#[test]
fn options_reach_the_c_layer() {
    let raw = Options { max_pixels: 5, max_scans: u32::MAX, warnings_are_errors: true }.to_ffi();
    assert_eq!((raw.max_pixels, raw.max_scans, raw.warnings_are_errors), (5, i32::MAX, 1));
    let raw = Options { max_pixels: 0, max_scans: 12, warnings_are_errors: false }.to_ffi();
    assert_eq!((raw.max_pixels, raw.max_scans, raw.warnings_are_errors), (0, 12, 0));
    assert_eq!(ColorSpace::from_code(3), Some(ColorSpace::Rgb));
    assert_eq!(ColorSpace::from_code(0), None);
}

#[test]
fn counts_are_checked() {
    assert_eq!(coefficient_count(3, 2), Some(384));
    assert_eq!(sample_count(24, 16), Some(384));
    assert_eq!(component_count(3), Some(3));
    assert_eq!(component_count(4), Some(4));
    assert_eq!(component_count(5), None);
    assert_eq!(component_count(-1), None);
}

#[test]
fn a_plane_gives_its_rows() {
    let samples: Vec<u8> = (0..48).map(|value| value as u8).collect();
    let plane = Plane::new(8, 3, 16, samples).expect("a plane");
    assert_eq!((plane.width(), plane.height(), plane.stride()), (8, 3, 16));
    assert_eq!(plane.row(1), Some(&[16u8, 17, 18, 19, 20, 21, 22, 23][..]));
    assert_eq!(plane.row(3), None);
    assert!(Plane::new(17, 3, 16, vec![0; 48]).is_none());
    assert!(Plane::new(8, 3, 16, vec![0; 47]).is_none());
}

#[test]
fn planes_are_taken_where_they_are_whole() {
    let plane = |samples: Option<Vec<u8>>| RawPlane { width: 8, height: 2, stride: 8, samples };
    let raw = vec![plane(Some(vec![7; 16])), plane(None), plane(None), plane(None)];
    let planes = Planes::from_raw(1, raw.clone(), "Premature end".to_owned()).expect("one plane");
    assert_eq!(planes.planes().len(), 1);
    assert_eq!(planes.warning(), "Premature end");
    assert_eq!(planes.plane(0).map(|plane| plane.samples().len()), Some(16));
    assert!(planes.plane(1).is_none());
    let error = Planes::from_raw(2, raw.clone(), String::new()).expect_err("a missing plane");
    assert_eq!(error.message(), "the C layer returned a plane it cannot have");
    let error = Planes::from_raw(9, raw, String::new()).expect_err("too many planes");
    assert_eq!((error.kind(), error.message()), (ErrorKind::Decode, "the C layer returned planes it cannot have"));
}

#[test]
fn an_image_holds_its_components() {
    let raw = raw_image(2, vec![raw_component(1, 3, 2, (2, 2)), raw_component(2, 2, 1, (1, 1)), raw_component(3, 2, 1, (1, 1))], 3);
    let image = Image::from_raw(raw, "a warning".to_owned()).expect("an image");
    assert_eq!((image.width(), image.height()), (24, 16));
    assert_eq!(image.color_space(), ColorSpace::YCbCr);
    assert!(image.progressive());
    assert!(!image.arithmetic());
    assert_eq!(image.exif_orientation(), 6);
    assert_eq!(image.warnings(), 2);
    assert_eq!(image.warning(), "a warning");
    assert_eq!(image.icc_profile(), Some(&[1u8, 2, 3][..]));
    assert_eq!(image.components().len(), 3);
    let luma = image.component(0).expect("luma");
    assert_eq!((luma.id(), luma.h_samp_factor(), luma.v_samp_factor()), (1, 2, 2));
    assert_eq!((luma.width_in_blocks(), luma.height_in_blocks()), (3, 2));
    assert_eq!(luma.quant_table()[5], 3);
    assert_eq!(luma.coefficients().len(), 384);
    let block = luma.block(2, 1).expect("the last block");
    let start = (3 + 2) * 64;
    let expected: Vec<i16> = (start..start + 64).map(|value| (value % 100) as i16).collect();
    assert_eq!(block, &expected[..]);
    assert!(luma.block(3, 0).is_none());
    assert!(luma.block(0, 2).is_none());
    assert!(image.component(3).is_none());
}

#[test]
fn images_the_c_layer_cannot_have_are_refused() {
    let error = Image::from_raw(raw_image(9, vec![raw_component(1, 1, 1, (1, 1))], 1), String::new())
        .expect_err("a color space that is none");
    assert_eq!(error.message(), "the C layer returned an image it cannot have");
    let mut broken = raw_component(1, 2, 2, (1, 1));
    broken.coefficients = Some(vec![0; 10]);
    let error = Image::from_raw(raw_image(1, vec![broken], 1), String::new()).expect_err("a short component");
    assert_eq!((error.kind(), error.message()), (ErrorKind::Decode, "the C layer returned a component it cannot have"));
    let mut empty = raw_image(1, vec![raw_component(1, 1, 1, (1, 1))], 1);
    empty.icc_profile = Some(Vec::new());
    assert_eq!(Image::from_raw(empty, String::new()).expect("an image").icc_profile(), None);
}

#[test]
fn a_png_picture_is_checked_before_it_is_written() {
    let samples = [1u8, 2, 3, 4, 5, 6];
    let profile = [9u8; 5];
    let png = Png {
        width: 2,
        height: 1,
        channels: 3,
        samples: Samples::Eight(&samples),
        compression: Some(7),
        icc_profile: Some(&profile),
    };
    let raw = png.to_raw().expect("the picture is whole");
    assert_eq!((raw.width, raw.height, raw.channels, raw.bits), (2, 1, 3, 8));
    assert_eq!((raw.compression, raw.samples, raw.icc_profile_size), (7, 6, 5));
    let deep = [1u16, 2];
    let gray = Png { width: 1, height: 2, channels: 1, samples: Samples::Sixteen(&deep), compression: None, icc_profile: None };
    let raw = gray.to_raw().expect("the picture is whole");
    assert_eq!((raw.bits, raw.compression, raw.icc_profile_size), (16, -1, 0));
    let short = Png { width: 3, ..png };
    let error = short.to_raw().expect_err("too few samples");
    assert_eq!(error.kind(), ErrorKind::Argument);
    assert_eq!(error.message(), "a picture of 1 x 3 pixels of 3 samples, not of 6 samples");
    let none: [u8; 0] = [];
    let odd = Png { width: 0, height: 1, channels: u32::MAX, samples: Samples::Eight(&none), compression: None, icc_profile: None };
    assert_eq!(odd.to_raw().expect_err("too many channels").message(), "a PNG picture here has 1 or 3 channels");
}

#[test]
fn a_writing_gives_its_file_or_its_error() {
    let file = written(OK, "the ICC profile is not written".to_owned(), vec![137, 80]).expect("a file");
    assert_eq!(file.bytes, vec![137, 80]);
    assert_eq!(file.warning, "the ICC profile is not written");
    let error = written(OK, String::new(), Vec::new()).expect_err("no file");
    assert_eq!((error.kind(), error.message()), (ErrorKind::Encode, "the C layer returned no file"));
    let error = written(5, "out of memory".to_owned(), Vec::new()).expect_err("a failed writing");
    assert_eq!((error.kind(), error.message()), (ErrorKind::Memory, "out of memory"));
}

#[test]
fn a_test_file_is_what_the_c_support_takes() {
    let file = File {
        width: 33,
        height: 17,
        layout: Layout::YCbCr([(2, 2), (1, 1), (1, 1)]),
        quant_tables: vec![[1; 64], [2; 64], [3; 64]],
        progressive: true,
        arithmetic: false,
    };
    let jpeg = file.test_jpeg().expect("a table for each component");
    assert_eq!((jpeg.width, jpeg.height, jpeg.color_space), (33, 17, 2));
    assert_eq!(jpeg.h_samp_factor, [2, 1, 1, 0]);
    assert_eq!(jpeg.v_samp_factor, [2, 1, 1, 0]);
    assert_eq!(jpeg.quant_table_slot, [0, 1, 2, 0]);
    assert_eq!(jpeg.quant_tables[2], [3; 64]);
    assert_eq!(jpeg.quant_tables[3], [0; 64]);
    assert_eq!((jpeg.progressive, jpeg.arithmetic), (1, 0));
    let gray = File { layout: Layout::Grayscale, quant_tables: vec![[5; 64]], ..file.clone() };
    let jpeg = gray.test_jpeg().expect("one table");
    assert_eq!(jpeg.h_samp_factor, [0; 4]);
    assert_eq!(jpeg.quant_tables[1], [0; 64]);
    let wrong = File { layout: Layout::Rgb, quant_tables: vec![[5; 64]], ..file };
    assert_eq!(
        wrong.test_jpeg().expect_err("one table for three components"),
        "a quantization table for each of the 3 components, not 1"
    );
}

#[test]
fn coefficients_are_checked_against_the_blocks() {
    let blocks = [(3, 2), (2, 1)];
    assert_eq!(check_coefficients(&blocks, &[vec![0; 384], vec![0; 128]]), Ok(()));
    assert_eq!(
        check_coefficients(&blocks, &[vec![0; 384]]),
        Err("coefficients for each of the 2 components, not 1".to_owned())
    );
    assert_eq!(
        check_coefficients(&blocks, &[vec![0; 384], vec![0; 64]]),
        Err("component 1 has 2 x 1 blocks of 64 coefficients, not 64".to_owned())
    );
}
