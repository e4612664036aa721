use jpeg_unround::capi::{
    abi_version, input_of, levels_count, message_bytes, narrow, refuse, status_of, usize_of, wide, UnroundComponent,
    UnroundInput, ABI_VERSION, ERROR_ARGUMENT, ERROR_IO, ERROR_OPTIONS, ERROR_UNSUPPORTED, picture_count, png_level};
use jpeg_unround::error::Error;
use jpeg_unround::jpegio::ColorSpace;

fn component(rows: u32, columns: u32) -> UnroundComponent {
    UnroundComponent {
        levels: Some(vec![1; (rows * columns * 64) as usize]),
        rows,
        columns,
        h_samp_factor: 1,
        v_samp_factor: 1,
        quant_table: [4; 64],
    }
}

#[test]
fn errors_have_their_statuses() {
    assert_eq!(abi_version(), ABI_VERSION);
    assert_eq!(abi_version(), 1);
    assert_eq!(jpeg_unround::jpegio::ABI_VERSION, 1);
    assert_eq!(status_of(&Error::Unsupported(String::new())), ERROR_UNSUPPORTED);
    assert_eq!(status_of(&Error::Options(String::new())), ERROR_OPTIONS);
    assert_eq!(status_of(&Error::Io(std::io::Error::other("gone"))), ERROR_IO);
    assert_eq!(refuse("no"), (ERROR_ARGUMENT, "no".to_owned()));
    assert_eq!(wide(7), 7);
    assert_eq!(usize_of(9), 9);
    assert_eq!(narrow(12), Ok(12));
    assert_eq!(levels_count(2, 3), Some(384));
}

#[test]
fn messages_are_cut_at_a_character_s_boundary() {
    assert_eq!(message_bytes("hello", 100), b"hello\0".to_vec());
    assert_eq!(message_bytes("hello", 3), b"he\0".to_vec());
    assert_eq!(message_bytes("hello", 1), b"\0".to_vec());
    assert_eq!(message_bytes("aé", 3), b"a\0".to_vec());
    assert_eq!(message_bytes("aé", 4), "aé\0".as_bytes().to_vec());
}

#[test]
fn components_given_as_arrays_are_taken() {
    let given = UnroundInput {
        height: 16,
        width: 24,
        color_space: 1,
        components: Some(vec![component(2, 3)]),
    };
    let input = input_of(&given).expect("the components are whole");
    assert_eq!((input.height, input.width, input.color_space), (16, 24, ColorSpace::Grayscale));
    assert_eq!(input.components.len(), 1);
    assert_eq!((input.components[0].rows, input.components[0].columns), (2, 3));
    assert_eq!(input.components[0].levels.len(), 384);
    assert_eq!(input.exif_orientation, 0);
}

#[test]
fn components_given_as_arrays_are_refused_where_they_cannot_be() {
    let refusal = |given: &UnroundInput| match input_of(given) {
        Err((status, message)) => {
            assert_eq!(status, ERROR_ARGUMENT);
            message
        }
        Ok(input) => panic!("refused, not {input:?}"),
    };
    let mut given = UnroundInput { height: 8, width: 8, color_space: 7, components: Some(vec![component(1, 1)]) };
    assert_eq!(refusal(&given), "a color space of 1, 2 or 3, not 7");
    given.color_space = 2;
    given.components = None;
    assert_eq!(refusal(&given), "components are given");
    given.components = Some(Vec::new());
    assert_eq!(refusal(&given), "components are given");
    let mut missing = component(1, 1);
    missing.levels = None;
    given.components = Some(vec![component(1, 1), missing]);
    assert_eq!(refusal(&given), "a component's levels are a null pointer");
    let mut negative = component(1, 1);
    negative.v_samp_factor = -1;
    given.components = Some(vec![negative]);
    assert_eq!(refusal(&given), "a sampling factor below 0");
}

#[test]
fn a_picture_is_counted_in_a_usize_pixels_first() {
    assert_eq!(picture_count(2, 3, 3), Ok(18));
    assert_eq!(picture_count(0, 3, 3), Ok(0));
    assert_eq!(picture_count(u64::MAX, 1, 1), Ok(usize::MAX));
    assert_eq!(picture_count(u64::MAX, 2, 1), Err((1, "a picture too large".to_owned())));
    assert_eq!(picture_count(1 << 32, 1 << 32, 0), Err((1, "a picture too large".to_owned())));
    assert_eq!(picture_count(1 << 40, 1 << 30, 1), Err((1, "a picture too large".to_owned())));
}

#[test]
fn zlib_levels_are_0_to_9_or_its_default() {
    assert_eq!(png_level(-1), Ok(None));
    assert_eq!(png_level(0), Ok(Some(0)));
    assert_eq!(png_level(9), Ok(Some(9)));
    assert_eq!(png_level(10), Err((4, "zlib's level is 0 to 9, or -1, not 10".to_owned())));
    assert_eq!(png_level(-2), Err((4, "zlib's level is 0 to 9, or -1, not -2".to_owned())));
    assert_eq!(
        png_level(i32::MIN),
        Err((4, "zlib's level is 0 to 9, or -1, not -2147483648".to_owned()))
    );
}
