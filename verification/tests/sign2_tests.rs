use bitrag::sign2::{pack, unpack, Sign2, Sign2Block, BLOCK_BYTES, VALUES_PER_BLOCK};

#[test]
fn bits_roundtrip() {
    for v in [Sign2::Plus, Sign2::Zero, Sign2::Minus, Sign2::Spare] {
        assert_eq!(Sign2::from_bits(v.to_bits()), v);
    }
    assert_eq!(Sign2::Plus.to_bits(), 0b01);
    assert_eq!(Sign2::Zero.to_bits(), 0b00);
    assert_eq!(Sign2::Minus.to_bits(), 0b10);
    assert_eq!(Sign2::Spare.to_bits(), 0b11);
}

#[test]
fn to_i8_projection() {
    assert_eq!(Sign2::Plus.to_i8(), 1);
    assert_eq!(Sign2::Zero.to_i8(), 0);
    assert_eq!(Sign2::Minus.to_i8(), -1);
    assert_eq!(Sign2::Spare.to_i8(), 0);
}

#[test]
fn block_get_set_each_position() {
    let mut blk = Sign2Block::zero();
    for i in 0..VALUES_PER_BLOCK {
        let v = match i % 4 {
            0 => Sign2::Plus,
            1 => Sign2::Zero,
            2 => Sign2::Minus,
            _ => Sign2::Spare,
        };
        blk.set(i, v);
    }
    for i in 0..VALUES_PER_BLOCK {
        let expected = match i % 4 {
            0 => Sign2::Plus,
            1 => Sign2::Zero,
            2 => Sign2::Minus,
            _ => Sign2::Spare,
        };
        assert_eq!(blk.get(i), expected, "pos {i}");
    }
}

#[test]
fn pack_unpack_roundtrip() {
    let mut values: Vec<Sign2> = Vec::new();
    for i in 0..1500 {
        values.push(match i % 4 {
            0 => Sign2::Plus,
            1 => Sign2::Zero,
            2 => Sign2::Minus,
            _ => Sign2::Spare,
        });
    }
    let packed = pack(&values);
    assert_eq!(packed.len(), 3);
    let back = unpack(&packed, values.len());
    assert_eq!(back, values);
}

#[test]
fn capacity_512_per_block() {
    assert_eq!(VALUES_PER_BLOCK, 512);
    assert_eq!(BLOCK_BYTES * 4, VALUES_PER_BLOCK);
}

#[test]
fn neg_is_bit_swap() {
    assert_eq!(Sign2::Plus.neg(), Sign2::Minus);
    assert_eq!(Sign2::Minus.neg(), Sign2::Plus);
    assert_eq!(Sign2::Zero.neg(), Sign2::Zero);
    assert_eq!(Sign2::Spare.neg(), Sign2::Spare);
}

#[test]
fn mul_full_table_excluding_spare() {
    let xs = [Sign2::Minus, Sign2::Zero, Sign2::Plus];
    for a in xs {
        for b in xs {
            let got = a.mul(b).to_i8();
            let want = a.to_i8() * b.to_i8();
            assert_eq!(got, want, "{:?} * {:?}", a, b);
        }
    }
}

#[test]
fn mul_spare_is_zero_absorbing() {
    for a in [Sign2::Minus, Sign2::Zero, Sign2::Plus, Sign2::Spare] {
        assert_eq!(Sign2::Spare.mul(a).to_i8(), 0);
        assert_eq!(a.mul(Sign2::Spare).to_i8(), 0);
    }
}

#[test]
fn add_saturating_table() {
    let xs = [Sign2::Minus, Sign2::Zero, Sign2::Plus];
    for a in xs {
        for b in xs {
            let s = (a.to_i8() + b.to_i8()).clamp(-1, 1);
            assert_eq!(a.add_saturating(b).to_i8(), s, "{:?} + {:?}", a, b);
        }
    }
}

#[test]
fn symbols_of_values() {
    assert_eq!(Sign2::Plus.symbol(), '+');
    assert_eq!(Sign2::Zero.symbol(), '0');
    assert_eq!(Sign2::Minus.symbol(), '-');
    assert_eq!(Sign2::Spare.symbol(), '*');
}

#[test]
fn from_bits_reads_low_two_bits_only() {
    assert_eq!(Sign2::from_bits(0b1101), Sign2::Plus);
    assert_eq!(Sign2::from_bits(0xFF), Sign2::Spare);
}

#[test]
fn pack_pads_with_spare_and_unpack_stops_at_len() {
    let packed = pack(&[Sign2::Plus, Sign2::Minus]);
    assert_eq!(packed.len(), 1);
    assert_eq!(packed[0].get(0), Sign2::Plus);
    assert_eq!(packed[0].get(1), Sign2::Minus);
    assert_eq!(packed[0].get(2), Sign2::Spare);
    assert_eq!(packed[0].get(511), Sign2::Spare);
    assert_eq!(unpack(&packed, 1), vec![Sign2::Plus]);
    assert_eq!(unpack(&packed, 600).len(), 512);
    assert_eq!(pack(&[]).len(), 0);
}

#[test]
fn mul_of_minus_and_minus_is_plus() {
    assert_eq!(Sign2::Minus.mul(Sign2::Minus), Sign2::Plus);
    assert_eq!(Sign2::Minus.mul(Sign2::Plus), Sign2::Minus);
    assert_eq!(Sign2::Spare.mul(Sign2::Plus), Sign2::Zero);
}

#[test]
fn negation_twice_is_identity() {
    for v in [Sign2::Plus, Sign2::Zero, Sign2::Minus, Sign2::Spare] {
        assert_eq!(v.neg().neg(), v);
    }
}
