use jpeg_unround::cli::{
    choice, count, data_term_count, list_index, format_of, json_string, one_of, outline, parse_whole, same_text, split, Bits, Format, Target,
    Verbosity,
};

fn arguments(text: &str) -> Vec<Option<String>> {
    text.split_whitespace().map(|word| Some(word.to_owned())).collect()
}

fn extensions(arguments: &[Option<String>]) -> Vec<Option<Vec<u8>>> {
    arguments
        .iter()
        .map(|argument| {
            argument.as_ref().and_then(|text| {
                std::path::Path::new(text)
                    .extension()
                    .map(|extension| extension.to_string_lossy().as_bytes().to_vec())
            })
        })
        .collect()
}

#[test]
fn options_are_split_from_the_positional_arguments() {
    let given_arguments = arguments("--method tv --alpha=2 -v --tolerance=1e-5 in.jpg -- --out.tif");
    let (given, errors) = split(&given_arguments);
    assert!(errors.is_empty(), "{errors:?}");
    assert_eq!(given.text("method"), Some("tv"));
    assert_eq!(given.text("alpha"), Some("2"));
    assert_eq!(given.text("tolerance"), Some("1e-5"));
    assert_eq!(given.text("alpha0"), None);
    assert!(given.flag("verbose"));
    assert!(!given.flag("quiet"));
    assert_eq!(given.positional(), &[5, 7]);
}

#[test]
fn every_refused_option_is_said_in_order() {
    let mut given_arguments = arguments("--alpha 1 --alpha 3 --bogus -x --ycbcr=1 --quiet -q --iterations");
    given_arguments.insert(0, None);
    let (given, errors) = split(&given_arguments);
    assert_eq!(
        errors,
        vec![
            "--alpha is given twice",
            "unknown option --bogus",
            "unknown option -x",
            "--ycbcr takes no value",
            "--quiet is given twice",
            "--iterations needs a value",
        ]
    );
    assert_eq!(given.text("alpha"), Some("3"));
    assert_eq!(given.positional(), &[0]);
}

#[test]
fn a_value_is_the_next_argument_whatever_it_is() {
    let given_arguments = arguments("--report --verbose -");
    let (given, errors) = split(&given_arguments);
    assert!(errors.is_empty());
    assert_eq!(given.text("report"), Some("--verbose"));
    assert!(!given.flag("verbose"));
    assert_eq!(given.positional(), &[2]);
    let mut unicode_less = arguments("--report");
    unicode_less.push(None);
    let (_, errors) = split(&unicode_less);
    assert_eq!(errors, vec!["--report needs a value"]);
}

#[test]
fn whole_numbers_are_read_as_u64_reads_them() {
    assert_eq!(parse_whole("300"), Some(300));
    assert_eq!(parse_whole("+7"), Some(7));
    assert_eq!(parse_whole("18446744073709551615"), Some(u64::MAX));
    assert_eq!(parse_whole("18446744073709551616"), None);
    assert_eq!(parse_whole(""), None);
    assert_eq!(parse_whole("+"), None);
    assert_eq!(parse_whole("-1"), None);
    assert_eq!(parse_whole("1x"), None);
    for value in [0u64, 9, 10, 12345, 9_999_999_999] {
        assert_eq!(parse_whole(&value.to_string()), Some(value));
    }
}

#[test]
fn counts_and_choices_are_checked() {
    let given_arguments = arguments("--iterations 300 --record-every x --max-scans 0 --method fast --channels apart");
    let (given, split_errors) = split(&given_arguments);
    assert!(split_errors.is_empty());
    let mut errors = Vec::new();
    assert_eq!(count(&given, "iterations", 0, &mut errors), Some(300));
    assert_eq!(count(&given, "record-every", 0, &mut errors), None);
    assert_eq!(count(&given, "max-scans", 1, &mut errors), None);
    assert_eq!(count(&given, "max-pixels", 1, &mut errors), None);
    let methods = [("mmse", 0), ("tv", 1), ("tgv", 2), ("subgradient", 3)];
    assert_eq!(choice(&given, "method", &methods, &mut errors), None);
    assert_eq!(choice(&given, "channels", &[("coupled", true), ("apart", false)], &mut errors), Some(false));
    assert_eq!(
        errors,
        vec![
            "--record-every is a whole number of at least 0, not x",
            "--max-scans is a whole number of at least 1, not 0",
            "--method is one of mmse, tv, tgv, subgradient, not fast",
        ]
    );
}

#[test]
fn the_output_follows_the_input_and_the_format() {
    let given_arguments = arguments("--format pnm --bits 16 picture.jpg");
    let (given, mut errors) = split(&given_arguments);
    let taken = outline(&given_arguments, &extensions(&given_arguments), &given, &mut errors).expect("an input");
    assert!(errors.is_empty());
    assert_eq!(taken.input, 4);
    assert_eq!(taken.output, Target::Beside(Format::Pnm));
    assert_eq!((taken.format, taken.bits), (Format::Pnm, Bits::Sixteen));
    assert_eq!(taken.verbosity, Verbosity::Normal);
    let given_arguments = arguments("-q in.jpg OUT.TIFF --report r.json");
    let (given, mut errors) = split(&given_arguments);
    let taken = outline(&given_arguments, &extensions(&given_arguments), &given, &mut errors).expect("an input");
    assert!(errors.is_empty());
    assert_eq!(taken.output, Target::Named(2));
    assert_eq!(taken.format, Format::Tiff);
    assert_eq!(taken.report.as_deref(), Some("r.json"));
    assert_eq!(taken.verbosity, Verbosity::Quiet);
    let given_arguments = arguments("-");
    let (given, mut errors) = split(&given_arguments);
    let taken = outline(&given_arguments, &extensions(&given_arguments), &given, &mut errors).expect("an input");
    assert_eq!(taken.output, Target::Standard);
    let (given, errors) = split(&arguments("--version"));
    assert!(errors.is_empty());
    assert!(given.flag("version"));
    let given_arguments = arguments("--ycbcr --format pnm in.jpg");
    let (given, mut errors) = split(&given_arguments);
    outline(&given_arguments, &extensions(&given_arguments), &given, &mut errors);
    assert!(!errors.is_empty());
}

#[test]
fn what_does_not_go_together_is_refused() {
    let given_arguments = arguments("--ycbcr --format pnm --format-x -v -q in.jpg a b");
    let (given, mut errors) = split(&given_arguments);
    assert_eq!(errors, vec!["unknown option --format-x"]);
    assert!(outline(&given_arguments, &extensions(&given_arguments), &given, &mut errors).is_some());
    assert_eq!(
        errors,
        vec![
            "unknown option --format-x",
            "--verbose and --quiet do not go together",
            "one INPUT and at most one OUTPUT",
            "--ycbcr is for TIFF",
        ]
    );
    let given_arguments = arguments("--bits 8 --format webp");
    let (given, mut errors) = split(&given_arguments);
    assert!(outline(&given_arguments, &extensions(&given_arguments), &given, &mut errors).is_none());
    assert_eq!(
        errors,
        vec!["--format is one of tiff, pnm, not webp", "an INPUT file to read", "--bits is for PNM"]
    );
    // Without an INPUT, what does not go with the format is named all the same.
    let given_arguments = arguments("--ycbcr --format pnm");
    let (given, mut errors) = split(&given_arguments);
    assert!(outline(&given_arguments, &extensions(&given_arguments), &given, &mut errors).is_none());
    assert_eq!(errors, vec!["an INPUT file to read", "--ycbcr is for TIFF"]);
    let given_arguments = arguments("--bits 8 in.jpg out.tif");
    let (given, mut errors) = split(&given_arguments);
    assert!(outline(&given_arguments, &extensions(&given_arguments), &given, &mut errors).is_some());
    assert_eq!(errors, vec!["--bits is for PNM"]);
}

#[test]
fn extensions_name_formats_in_any_case() {
    assert_eq!(format_of(b"tif"), Some(Format::Tiff));
    assert_eq!(format_of(b"TiFF"), Some(Format::Tiff));
    assert_eq!(format_of(b"PGM"), Some(Format::Pnm));
    assert_eq!(format_of(b"ppm"), Some(Format::Pnm));
    assert_eq!(format_of(b"pnm"), Some(Format::Pnm));
    assert_eq!(format_of(b"png"), None);
    assert_eq!(format_of(b""), None);
}

#[test]
fn json_strings_are_escaped() {
    assert_eq!(json_string(b"plain"), b"\"plain\"".to_vec());
    assert_eq!(json_string(b"a\"b\\c\nd\te\x01"), b"\"a\\\"b\\\\c\\nd\\u0009e\\u0001\"".to_vec());
    assert_eq!(json_string("é\u{1f}".as_bytes()), "\"é\\u001f\"".as_bytes().to_vec());
}

#[test]
fn texts_are_compared_by_their_characters() {
    assert!(same_text("tgv", "tgv"));
    assert!(!same_text("tgv", "tv"));
    assert!(same_text("", ""));
    assert!(one_of("tv", &["mmse", "tv"]));
    assert!(!one_of("t", &["mmse", "tv"]));
}

#[test]
fn the_lists_of_the_data_term_give_the_count_of_components() {
    let mut errors = Vec::new();
    assert_eq!(data_term_count(&[None, None, None], &mut errors), 1);
    assert_eq!(data_term_count(&[Some(1), None, Some(1)], &mut errors), 1);
    assert_eq!(data_term_count(&[None, Some(1), Some(3), Some(3)], &mut errors), 3);
    assert!(errors.is_empty());
    // `--mu 0.01,rule,0.5 --mu-scale 9 --centres midpoint --slack 0.5`: three components.
    assert_eq!(data_term_count(&[Some(3), Some(1), None, None, None, Some(1), None, Some(1)], &mut errors), 3);
    assert!(errors.is_empty());
}

#[test]
fn lists_of_two_lengths_are_refused_and_the_least_taken() {
    let mut errors = vec!["before".to_owned()];
    // `--mu 1,2 --slack 0,0,0`.
    assert_eq!(data_term_count(&[Some(2), None, None, None, None, Some(3), None, None], &mut errors), 2);
    assert_eq!(
        errors,
        vec![
            "before",
            "the lists of the data term have one value for each component, and so one length, not {2, 3}",
        ]
    );
    let mut errors = Vec::new();
    assert_eq!(data_term_count(&[Some(4), Some(12), Some(4), Some(1), Some(7)], &mut errors), 4);
    assert_eq!(
        errors,
        vec!["the lists of the data term have one value for each component, and so one length, not {4, 7, 12}"]
    );
    // Every component takes a value that each list has: its own, or the one value.
    assert_eq!((list_index(1, 3), list_index(5, 3)), (0, 3));
    for index in 0..4 {
        for length in [4usize, 12, 4, 1, 7] {
            let picked = list_index(length, index);
            assert!(picked < length);
        }
    }
}
