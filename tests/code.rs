use hamming::Code;

#[test]
fn from_block_bits() {
    assert_eq!(Code::from_block_size(0), None);
    assert_eq!(Code::from_block_size(1), None);
    assert_eq!(Code::from_block_size(2), None);
    assert_eq!(Code::from_block_size(3), Some(Code::Hamming(2)));
    assert_eq!(Code::from_block_size(4), Some(Code::EHamming(3)));
    assert_eq!(Code::from_block_size(5), None);
    assert_eq!(Code::from_block_size(6), None);
    assert_eq!(Code::from_block_size(7), Some(Code::Hamming(3)));
    assert_eq!(Code::from_block_size(8), Some(Code::EHamming(4)));
}

#[test]
fn block_bits() {
    assert_eq!(Code::Hamming(2).block_bits(), 3);
    assert_eq!(Code::Hamming(3).block_bits(), 7);
    assert_eq!(Code::Hamming(4).block_bits(), 15);
    assert_eq!(Code::EHamming(3).block_bits(), 4);
    assert_eq!(Code::EHamming(4).block_bits(), 8);
    assert_eq!(Code::EHamming(5).block_bits(), 16);
}

#[test]
fn data_bits() {
    assert_eq!(Code::Hamming(2).data_bits(), 1);
    assert_eq!(Code::Hamming(3).data_bits(), 4);
    assert_eq!(Code::Hamming(4).data_bits(), 11);
    assert_eq!(Code::EHamming(3).data_bits(), 1);
    assert_eq!(Code::EHamming(4).data_bits(), 4);
    assert_eq!(Code::EHamming(5).data_bits(), 11);
}

#[test]
fn parity_bits() {
    assert_eq!(Code::Hamming(2).parity_bits(), 2);
    assert_eq!(Code::Hamming(3).parity_bits(), 3);
    assert_eq!(Code::Hamming(4).parity_bits(), 4);
    assert_eq!(Code::EHamming(3).parity_bits(), 3);
    assert_eq!(Code::EHamming(4).parity_bits(), 4);
    assert_eq!(Code::EHamming(5).parity_bits(), 5);
}

#[test]
fn from_block_size_larger_sizes() {
    assert_eq!(Code::from_block_size(15), Some(Code::Hamming(4)));
    assert_eq!(Code::from_block_size(16), Some(Code::EHamming(5)));
    assert_eq!(Code::from_block_size(31), Some(Code::Hamming(5)));
    assert_eq!(Code::from_block_size(32), Some(Code::EHamming(6)));
    assert_eq!(Code::from_block_size(12), None);
    assert_eq!(Code::from_block_size(17), None);
    assert_eq!(Code::from_block_size(1 << 31), Some(Code::EHamming(32)));
    assert_eq!(Code::from_block_size(u32::MAX), Some(Code::Hamming(32)));
    assert_eq!(Code::from_block_size(u32::MAX - 1), None);
}

#[test]
fn dimensions_add_up() {
    for p in 2..=32u32 {
        let h = Code::Hamming(p);
        assert_eq!(h.block_bits(), h.data_bits() + h.parity_bits());
        assert!(h.block_bits() > h.data_bits() && h.data_bits() > 0);
        if p >= 3 {
            let e = Code::EHamming(p);
            assert_eq!(e.block_bits(), e.data_bits() + e.parity_bits());
            assert!(e.block_bits() > e.data_bits() && e.data_bits() > 0);
        }
    }
}

#[test]
fn dimension_table_p2_to_p5() {
    let h: Vec<(u32, u32, u32)> = (2..=5u32)
        .map(|p| {
            let c = Code::Hamming(p);
            (c.block_bits(), c.data_bits(), c.parity_bits())
        })
        .collect();
    assert_eq!(h, vec![(3, 1, 2), (7, 4, 3), (15, 11, 4), (31, 26, 5)]);
    let e: Vec<(u32, u32, u32)> = (3..=5u32)
        .map(|p| {
            let c = Code::EHamming(p);
            (c.block_bits(), c.data_bits(), c.parity_bits())
        })
        .collect();
    assert_eq!(e, vec![(4, 1, 3), (8, 4, 4), (16, 11, 5)]);
    assert_eq!(Code::Hamming(32).block_bits(), u32::MAX);
    assert_eq!(Code::EHamming(32).block_bits(), 1 << 31);
}

#[test]
fn named_codes() {
    assert_eq!(Code::h3_1(), Code::Hamming(2));
    assert_eq!(Code::h7_4(), Code::Hamming(3));
    assert_eq!(Code::h15_11(), Code::Hamming(4));
    assert_eq!(Code::eh4_1(), Code::EHamming(3));
    assert_eq!(Code::eh8_4(), Code::EHamming(4));
    assert_eq!(Code::eh16_11(), Code::EHamming(5));
    assert_eq!(Code::h15_11().block_bits(), 15);
    assert_eq!(Code::eh16_11().data_bits(), 11);
}
