use jpeg_unround::error::Error;
use jpeg_unround::planar::{values_to_planes, ChannelBlocks, Layout, BLOCK_SIZE};

/// Luma of 2 x 3 blocks and two chroma components of 1 x 2 blocks, sampled 2 x 2 down
/// and across, on a canvas of 16 x 32.
fn frame() -> Vec<ChannelBlocks> {
    let luma: Vec<i16> = (0..2 * 3 * 64).map(|value| (value % 200) as i16 - 100).collect();
    let chroma: Vec<i16> = (0..2 * 64).map(|value| value as i16 + 1).collect();
    vec![
        ChannelBlocks { ratio: (1, 1), rows: 2, columns: 3, levels: luma },
        ChannelBlocks { ratio: (2, 2), rows: 1, columns: 2, levels: chroma.clone() },
        ChannelBlocks { ratio: (2, 2), rows: 1, columns: 2, levels: chroma },
    ]
}

/// The place of a coefficient as the layout states it, worked out by hand.
fn place_by_hand(planes: usize, sets: usize, columns: usize, across: usize, index: usize) -> usize {
    let (block, within) = (index / 64, index % 64);
    let (row, column) = (block / columns, block % columns);
    let (v, u) = (within / 8, within % 8);
    row * 8 * planes * across + (v * planes + 8 * (column % sets) + u) * across + column / sets
}

#[test]
fn a_frame_of_subsampled_chroma_is_laid_out_in_mcus() {
    let layout = Layout::new(&frame(), 16, 32).expect("MCUs of 16 x 16 tile the canvas");
    assert_eq!((layout.height, layout.width), (16, 32));
    assert_eq!((layout.planes, layout.across, layout.band), (16, 2, 16));
    assert_eq!(layout.plane(), 512);
    assert_eq!(layout.bands(), 1);
    assert_eq!(layout.parts.len(), 3);
    let luma = &layout.parts[0];
    assert_eq!((luma.planes, luma.sets, luma.band_rows, luma.rows, luma.columns), (16, 2, 2, 2, 3));
    assert_eq!(luma.valid, vec![2, 1]);
    assert_eq!(luma.block_row(layout.across), 256);
    let chroma = &layout.parts[1];
    assert_eq!((chroma.planes, chroma.sets, chroma.band_rows), (8, 1, 1));
    assert_eq!(chroma.valid, vec![2]);
}

#[test]
fn columns_go_to_their_planes() {
    let layout = Layout::new(&frame(), 16, 32).expect("a layout");
    let places: Vec<usize> = (0..32).map(|column| layout.place(column)).collect();
    let expected: Vec<usize> = (0..32).map(|column| (column % 16) * 2 + column / 16).collect();
    assert_eq!(places, expected);
    assert_eq!(layout.place(17), 3);
    let mut sorted = places.clone();
    sorted.sort_unstable();
    assert_eq!(sorted, (0..32).collect::<Vec<usize>>());
}

#[test]
fn coefficients_go_to_their_places() {
    let layout = Layout::new(&frame(), 16, 32).expect("a layout");
    let luma = &layout.parts[0];
    for index in 0..2 * 3 * 64 {
        assert_eq!(
            layout.coefficient_place(luma, index),
            place_by_hand(16, 2, 3, 2, index),
            "coefficient {index}"
        );
    }
    // Coefficient (1, 2) of the third block of the second block row.
    assert_eq!(layout.coefficient_place(luma, (3 + 2) * 64 + 8 + 2), 256 + (16 + 2) * 2 + 1);
}

#[test]
fn levels_are_in_the_planes_and_the_missing_blocks_are_zero() {
    let channels = frame();
    let layout = Layout::new(&channels, 16, 32).expect("a layout");
    let luma = &layout.parts[0];
    assert_eq!(luma.levels.len(), 2 * 256);
    for index in 0..channels[0].levels.len() {
        assert_eq!(luma.levels[layout.coefficient_place(luma, index)], channels[0].levels[index]);
    }
    // The fourth block of each block row is not the component's: MCU 1, place 1.
    let missing: Vec<usize> = (0..2)
        .flat_map(|row| (0..8).flat_map(move |v| (0..8).map(move |u| row * 256 + (v * 16 + 8 + u) * 2 + 1)))
        .collect();
    assert_eq!(missing.len(), 128);
    for place in missing {
        assert_eq!(luma.levels[place], 0, "place {place}");
    }
}

#[test]
fn values_go_to_the_planes_and_back() {
    let layout = Layout::new(&frame(), 16, 32).expect("a layout");
    let luma = &layout.parts[0];
    let natural: Vec<f64> = (0..2 * 3 * BLOCK_SIZE).map(|value| value as f64 * 0.5).collect();
    let planar = layout.values_to_planes(luma, &natural);
    assert_eq!(planar, values_to_planes(luma, layout.across, &natural));
    assert_eq!(planar.len(), 512);
    let mut back = vec![-1.0; natural.len()];
    layout.write_values_natural(luma, &planar, &mut back);
    assert_eq!(back, natural);
    // Values for one block row only fill the first block row.
    let short = layout.values_to_planes(luma, &natural[..3 * BLOCK_SIZE + 5]);
    assert_eq!(short[..256], planar[..256]);
    assert!(short[256..].iter().all(|&value| value == 0.0));
}

#[test]
fn a_canvas_goes_to_the_planes_and_back() {
    let layout = Layout::new(&frame(), 16, 32).expect("a layout");
    let natural: Vec<f64> = (0..3 * 16 * 32).map(|value| f64::from(value) - 7.25).collect();
    let planar = layout.to_planes(&natural);
    assert_eq!(planar.len(), natural.len());
    // Row 1, column 17, is at place 3 of row 1.
    assert_eq!(planar[32 + 3], natural[32 + 17]);
    assert_eq!(layout.to_natural(&planar), natural);
    let mut written = vec![0.0; natural.len()];
    layout.write_natural(&planar, &mut written);
    assert_eq!(written, natural);
    // A part of a row is left as it was.
    let partial = layout.to_planes(&natural[..40]);
    assert_eq!(partial[..32], planar[..32]);
    assert!(partial[32..].iter().all(|&value| value == 0.0));
}

#[test]
fn mcus_that_do_not_tile_are_refused() {
    let channels = frame();
    match Layout::new(&channels, 16, 40) {
        Err(Error::Unsupported(message)) => {
            assert_eq!(message, "MCUs of 16 x 16 do not tile a canvas of 16 x 40");
        }
        other => panic!("refused, not {other:?}"),
    }
    let odd = vec![
        ChannelBlocks { ratio: (1, 3), rows: 1, columns: 1, levels: vec![0; 64] },
        ChannelBlocks { ratio: (1, 2), rows: 1, columns: 1, levels: vec![0; 64] },
    ];
    match Layout::new(&odd, 8, 24) {
        Err(Error::Unsupported(message)) => {
            assert_eq!(message, "blocks of 8 x 16 do not tile MCUs of 8 x 24");
        }
        other => panic!("refused, not {other:?}"),
    }
}
