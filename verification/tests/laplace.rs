use jpeg_unround::laplace::{level_counts, Counts};

#[test]
fn each_frequency_counts_its_zeros_and_its_odd_sum() {
    let mut levels = vec![0i16; 130];
    levels[1] = 3;
    levels[2] = -2;
    levels[64 + 2] = 1;
    levels[64 + 63] = -32768;
    // The two levels past the second block are no block, and not counted.
    levels[128] = 9;
    levels[129] = 9;
    let counts = level_counts(&levels);
    assert_eq!(counts.len(), 64);
    assert_eq!(counts[0], Counts { zeros: 2, nonzeros: 0, odd_sum: 0 });
    assert_eq!(counts[1], Counts { zeros: 1, nonzeros: 1, odd_sum: 5 });
    assert_eq!(counts[2], Counts { zeros: 0, nonzeros: 2, odd_sum: 4 });
    assert_eq!(counts[63], Counts { zeros: 1, nonzeros: 1, odd_sum: 65535 });
    for count in &counts {
        assert_eq!(count.zeros + count.nonzeros, 2);
    }
}

#[test]
fn no_block_has_no_count() {
    let counts = level_counts(&[5i16; 63]);
    assert!(counts.iter().all(|count| *count == Counts { zeros: 0, nonzeros: 0, odd_sum: 0 }));
}
