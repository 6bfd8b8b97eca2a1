use bitfield::layout::resolve;
use bitfield::record::PackedRecord;

#[test]
fn new_record_is_zeroed() {
    let fields = vec![("a".to_string(), 12u8), ("b".to_string(), 20u8)];
    let layout = resolve(&fields).unwrap();
    let record = PackedRecord::new(&layout);
    assert_eq!(record.num_bytes(), 4);
    for i in 0..record.num_bytes() {
        assert_eq!(record.byte_at(i), 0);
    }
    assert_eq!(record.get_field(&layout, 0), 0);
    assert_eq!(record.get_field(&layout, 1), 0);
}

#[test]
fn set_then_get_round_trips() {
    let fields = vec![
        ("a".to_string(), 3u8),
        ("b".to_string(), 10u8),
        ("c".to_string(), 3u8),
    ];
    let layout = resolve(&fields).unwrap();
    let mut record = PackedRecord::new(&layout);
    record.set_field(&layout, 0, 0b101);
    record.set_field(&layout, 1, 0b10_1100_1110);
    record.set_field(&layout, 2, 0b011);
    assert_eq!(record.get_field(&layout, 0), 0b101);
    assert_eq!(record.get_field(&layout, 1), 0b10_1100_1110);
    assert_eq!(record.get_field(&layout, 2), 0b011);
}

#[test]
fn boundary_fields_share_one_byte() {
    // Two fields filling one byte: b lands in the high five bits, a in the
    // low three.
    let fields = vec![("a".to_string(), 3u8), ("b".to_string(), 5u8)];
    let layout = resolve(&fields).unwrap();
    let mut record = PackedRecord::new(&layout);
    record.set_field(&layout, 0, 0b101);
    record.set_field(&layout, 1, 0b10110);
    assert_eq!(record.num_bytes(), 1);
    assert_eq!(record.byte_at(0), 0b10110_101);
    assert_eq!(record.get_field(&layout, 0), 5);
    assert_eq!(record.get_field(&layout, 1), 22);
}

#[test]
fn cross_byte_field_leaves_neighbours_alone() {
    // 16 bits over 2 bytes; b straddles the byte boundary.
    let fields = vec![
        ("a".to_string(), 4u8),
        ("b".to_string(), 8u8),
        ("c".to_string(), 4u8),
    ];
    let layout = resolve(&fields).unwrap();
    let mut record = PackedRecord::new(&layout);
    record.set_field(&layout, 1, 0xFF);
    assert_eq!(record.get_field(&layout, 0), 0);
    assert_eq!(record.get_field(&layout, 2), 0);
    assert_eq!(record.get_field(&layout, 1), 0xFF);
    record.set_field(&layout, 0, 0x9);
    record.set_field(&layout, 2, 0x6);
    assert_eq!(record.get_field(&layout, 1), 0xFF);
    record.set_field(&layout, 1, 0x3C);
    assert_eq!(record.get_field(&layout, 0), 0x9);
    assert_eq!(record.get_field(&layout, 2), 0x6);
    assert_eq!(record.get_field(&layout, 1), 0x3C);
}

#[test]
fn setter_truncates_to_field_width() {
    let fields = vec![("a".to_string(), 3u8), ("b".to_string(), 5u8)];
    let layout = resolve(&fields).unwrap();
    let mut record = PackedRecord::new(&layout);
    // 13 = 0b1101: only the low three bits are stored.
    record.set_field(&layout, 0, 13);
    assert_eq!(record.get_field(&layout, 0), 5);
    // The discarded high bit must not leak into the neighbour.
    assert_eq!(record.get_field(&layout, 1), 0);
    // 287 mod 32 == 31.
    record.set_field(&layout, 1, 287);
    assert_eq!(record.get_field(&layout, 1), 31);
    assert_eq!(record.get_field(&layout, 0), 5);
}

#[test]
fn full_word_field_round_trips() {
    let fields = vec![("word".to_string(), 64u8)];
    let layout = resolve(&fields).unwrap();
    let mut record = PackedRecord::new(&layout);
    record.set_field(&layout, 0, u64::MAX);
    assert_eq!(record.get_field(&layout, 0), u64::MAX);
    record.set_field(&layout, 0, 0xDEAD_BEEF_0123_4567);
    assert_eq!(record.get_field(&layout, 0), 0xDEAD_BEEF_0123_4567);
}

#[test]
fn every_width_round_trips() {
    // One field of each width from 1 to 64, padded to a byte multiple with
    // a trailing field, every field starting mid-byte for odd widths.
    for w in 1u8..=64 {
        let pad = (8 - (w as u16 % 8)) % 8;
        let mut fields = vec![("f".to_string(), w)];
        if pad > 0 {
            fields.push(("pad".to_string(), pad as u8));
        }
        let layout = resolve(&fields).unwrap();
        let mut record = PackedRecord::new(&layout);
        let max_value: u64 = if w == 64 { u64::MAX } else { (1u64 << w) - 1 };
        record.set_field(&layout, 0, max_value);
        assert_eq!(record.get_field(&layout, 0), max_value, "width {}", w);
        if pad > 0 {
            assert_eq!(record.get_field(&layout, 1), 0, "width {}", w);
        }
    }
}

#[test]
fn setting_one_field_never_moves_another() {
    let fields = vec![
        ("a".to_string(), 5u8),
        ("b".to_string(), 11u8),
        ("c".to_string(), 1u8),
        ("d".to_string(), 7u8),
    ];
    let layout = resolve(&fields).unwrap();
    let mut record = PackedRecord::new(&layout);
    let values: [u64; 4] = [0b10011, 0b110_0101_1100, 0b1, 0b0110101];
    for i in 0..4 {
        record.set_field(&layout, i, values[i]);
    }
    for i in 0..4 {
        // Overwrite each field with all ones, then restore it: the other
        // three fields must read back unchanged at every step.
        record.set_field(&layout, i, u64::MAX);
        for j in 0..4 {
            if j != i {
                assert_eq!(record.get_field(&layout, j), values[j]);
            }
        }
        record.set_field(&layout, i, values[i]);
        for j in 0..4 {
            assert_eq!(record.get_field(&layout, j), values[j]);
        }
    }
}
