use jpeg_unround::decode::{blocks, check_components, data_of, factor, Input, Method};
use jpeg_unround::error::Error;
use jpeg_unround::frames::{blocks_of, ChannelShape, FrameShape};
use jpeg_unround::jpegio::{ColorSpace, Image, RawComponent, RawImage};
use jpeg_unround::model::{check_levels, Centres};
use jpeg_unround::results::Stop;

fn component(wide: u32, high: u32, factors: (i32, i32)) -> RawComponent {
    RawComponent {
        id: 1,
        h_samp_factor: factors.0,
        v_samp_factor: factors.1,
        quant_table_slot: 0,
        width: wide * 8,
        height: high * 8,
        width_in_blocks: wide,
        height_in_blocks: high,
        quant_table: [2; 64],
        coefficients: Some((0..wide * high * 64).map(|value| value as i16).collect()),
    }
}

fn image(components: Vec<RawComponent>) -> Image {
    let count = components.len() as i32;
    let mut all = components;
    while all.len() < 4 {
        let mut empty = component(0, 0, (0, 0));
        empty.coefficients = None;
        all.push(empty);
    }
    let raw = RawImage {
        width: 20,
        height: 12,
        color_space: if count == 1 { 1 } else { 2 },
        num_components: count,
        max_h_samp_factor: 2,
        max_v_samp_factor: 2,
        progressive: 0,
        arithmetic: 0,
        exif_orientation: 3,
        warnings: 0,
        components: all,
        icc_profile: None,
    };
    Image::from_raw(raw, String::new()).expect("an image")
}

#[test]
fn the_defaults_are_tgv_and_the_mmse_centres() {
    assert_eq!(Method::default(), Method::Tgv);
    assert_eq!(Centres::default(), Centres::Mmse);
    assert_eq!(Stop::Observer.name(), "observer");
    assert!(Stop::Converged.converged());
    assert!(!Stop::Stationary.converged());
}

#[test]
fn an_input_is_the_image_s_components() {
    let input = Input::of_image(&image(vec![component(3, 2, (2, 2)), component(2, 1, (1, 1)), component(2, 1, (1, 1))]))
        .expect("factors of at least 0");
    assert_eq!((input.height, input.width), (12, 20));
    assert_eq!(input.color_space, ColorSpace::YCbCr);
    assert_eq!(input.components.len(), 3);
    let luma = &input.components[0];
    assert_eq!((luma.rows, luma.columns, luma.h_samp_factor, luma.v_samp_factor), (2, 3, 2, 2));
    assert_eq!(luma.levels.len(), 384);
    assert_eq!(luma.levels[100], 100);
    assert_eq!(luma.quant_table, [2; 64]);
    assert_eq!(input.icc_profile, None);
    assert_eq!(input.exif_orientation, 3);
    match Input::of_image(&image(vec![component(1, 1, (1, -2))])) {
        Err(Error::Unsupported(message)) => assert_eq!(message, "a sampling factor of -2"),
        other => panic!("refused, not {other:?}"),
    }
}

#[test]
fn factors_and_blocks_are_taken() {
    assert_eq!(factor(2).expect("a factor"), 2);
    assert_eq!(factor(0).expect("a factor"), 0);
    assert!(matches!(factor(-1), Err(Error::Unsupported(message)) if message == "a sampling factor of -1"));
    assert_eq!(blocks(7), 7);
}

#[test]
fn each_component_has_its_data_term() {
    let one = [10];
    let three = [1, 2, 3];
    assert_eq!(*data_of(&one, 2, 3).expect("one for all"), 10);
    assert_eq!(*data_of(&three, 2, 3).expect("one each"), 3);
    match data_of(&three[..2], 0, 3) {
        Err(Error::Options(message)) => {
            assert_eq!(message, "options of G for each of the 3 components, or one for all, not 2");
        }
        other => panic!("refused, not {other:?}"),
    }
}

#[test]
fn the_components_go_with_the_color_space() {
    assert!(check_components(ColorSpace::Grayscale, 1).is_ok());
    assert!(check_components(ColorSpace::Rgb, 3).is_ok());
    match check_components(ColorSpace::YCbCr, 1) {
        Err(Error::Unsupported(message)) => {
            assert_eq!(message, "a file of the color space YCbCr has 3 components, not 1");
        }
        other => panic!("refused, not {other:?}"),
    }
}

#[test]
fn blocks_are_counted_as_libjpeg_counts_them() {
    assert_eq!(blocks_of(17, 1), 3);
    assert_eq!(blocks_of(16, 1), 2);
    assert_eq!(blocks_of(17, 2), 2);
    assert_eq!(blocks_of(0, 3), 0);
}

#[test]
fn a_file_of_subsampled_chroma_is_on_a_canvas_of_whole_mcus() {
    let frame = FrameShape::of_file(&[(3, 3), (2, 2), (2, 2)], &[(2, 2), (1, 1), (1, 1)], (17, 20))
        .expect("whole cells");
    assert_eq!((frame.height(), frame.width()), (32, 32));
    assert_eq!(frame.plane(), 1024);
    assert_eq!(frame.samples(), 3072);
    let channels = frame.channels();
    assert_eq!(channels.len(), 3);
    assert_eq!((channels[0].rows, channels[0].columns, channels[0].ratio), (3, 3, (1, 1)));
    assert_eq!(channels[1].ratio, (2, 2));
    assert!(frame.free(&channels[0]));
    assert!(frame.free(&channels[1]));
    let shape = frame.shape();
    assert_eq!((shape.height, shape.width), (32, 32));
    let one = FrameShape::of_file(&[(2, 3)], &[(7, 7)], (1000, 1000)).expect("one component");
    assert_eq!((one.height(), one.width()), (16, 24));
    assert!(!one.free(&one.channels()[0]));
}

#[test]
fn factors_that_are_not_whole_multiples_are_refused() {
    let refused = |result: Result<FrameShape, Error>| match result {
        Err(Error::Unsupported(message)) => message,
        other => panic!("refused, not {other:?}"),
    };
    assert_eq!(
        refused(FrameShape::of_file(&[(1, 1), (1, 1)], &[(1, 1)], (8, 8))),
        "a sampling factor for each of the components, not 1 for 2"
    );
    assert_eq!(
        refused(FrameShape::of_file(&[(2, 2), (1, 1), (1, 1)], &[(3, 2), (2, 1), (1, 1)], (16, 16))),
        "the sampling factors 2 x 1 do not divide 3 x 2: only whole cells are taken"
    );
    assert_eq!(
        refused(FrameShape::of_file(&[(2, 2), (2, 1), (1, 1)], &[(2, 2), (1, 1), (1, 1)], (16, 16))),
        "a component of 2 x 1 blocks, where a picture of 16 x 16 has 1 x 1"
    );
}

#[test]
fn a_frame_s_cells_tile_its_canvas() {
    let channel = |rows, columns, ratio| ChannelShape { rows, columns, ratio };
    assert!(FrameShape::new(vec![channel(2, 2, (1, 1))], 16, 16).is_ok());
    let refused = |result: Result<FrameShape, Error>| match result {
        Err(Error::Unsupported(message)) => message,
        other => panic!("refused, not {other:?}"),
    };
    assert_eq!(refused(FrameShape::new(Vec::new(), 8, 8)), "a frame has a channel at least");
    assert_eq!(
        refused(FrameShape::new(vec![channel(1, 1, (3, 1))], 16, 16)),
        "cells of 3 x 1 do not tile a canvas of 16 x 16"
    );
    assert_eq!(
        refused(FrameShape::new(vec![channel(3, 1, (1, 1))], 16, 16)),
        "blocks over 24 x 8 samples go beyond a canvas of 16 x 16"
    );
    assert_eq!(channel(2, 3, (2, 1)).extent(), (32, 24));
    assert_eq!(channel(2, 3, (2, 2)).cells(), 4);
}

#[test]
fn levels_are_blocks_of_their_rows_and_columns_and_steps_at_least_1() {
    let table = [1u16; 64];
    assert!(check_levels(&[0i16; 384], 2, 3, &table).is_ok());
    let Err(Error::Options(message)) = check_levels(&[0i16; 383], 2, 3, &table) else {
        panic!("the levels are refused");
    };
    assert_eq!(message, "levels of 2 x 3 blocks of 64, not 383 levels");
    let Err(Error::Options(message)) = check_levels(&[], usize::MAX, 2, &table) else {
        panic!("the levels are refused");
    };
    assert_eq!(message, format!("levels of {} x 2 blocks of 64, not 0 levels", usize::MAX));
    let mut zero = table;
    zero[63] = 0;
    let Err(Error::Options(message)) = check_levels(&[0i16; 64], 1, 1, &zero) else {
        panic!("the step is refused");
    };
    assert_eq!(message, "a quantization step is at least 1");
    // The levels are checked first.
    let Err(Error::Options(message)) = check_levels(&[0i16; 63], 1, 1, &zero) else {
        panic!("the levels are refused");
    };
    assert_eq!(message, "levels of 1 x 1 blocks of 64, not 63 levels");
}
