use pinot_segment::FixedBitWidthReader;

#[test]
fn test_bit_packing_1bit() {
    // 0, 1, 0, 1, 1, 0, 0, 1 packed as 01011001
    let reader = FixedBitWidthReader::new(vec![0x59], 1, 8);

    assert_eq!(reader.get_dict_id(0).unwrap(), 0);
    assert_eq!(reader.get_dict_id(1).unwrap(), 1);
    assert_eq!(reader.get_dict_id(2).unwrap(), 0);
    assert_eq!(reader.get_dict_id(3).unwrap(), 1);
    assert_eq!(reader.get_dict_id(4).unwrap(), 1);
    assert_eq!(reader.get_dict_id(5).unwrap(), 0);
    assert_eq!(reader.get_dict_id(6).unwrap(), 0);
    assert_eq!(reader.get_dict_id(7).unwrap(), 1);
}

#[test]
fn test_bit_packing_4bit() {
    let reader = FixedBitWidthReader::new(vec![0x5A, 0xF3], 4, 4);

    assert_eq!(reader.get_dict_id(0).unwrap(), 5);
    assert_eq!(reader.get_dict_id(1).unwrap(), 10);
    assert_eq!(reader.get_dict_id(2).unwrap(), 15);
    assert_eq!(reader.get_dict_id(3).unwrap(), 3);
}

#[test]
fn test_bit_packing_cross_byte() {
    let reader = FixedBitWidthReader::new(vec![0x55, 0x0A], 5, 3);

    assert_eq!(reader.get_dict_id(0).unwrap(), 10);
    assert_eq!(reader.get_dict_id(1).unwrap(), 20);
    assert_eq!(reader.get_dict_id(2).unwrap(), 5);
}

#[test]
fn four_bit_values_read_all() {
    let reader = FixedBitWidthReader::new(vec![0x5A, 0xF3], 4, 4);
    assert_eq!(reader.read_all().unwrap(), vec![5, 10, 15, 3]);
}

#[test]
fn five_bit_values_read_all() {
    let reader = FixedBitWidthReader::new(vec![0x55, 0x0A], 5, 3);
    assert_eq!(reader.read_all().unwrap(), vec![10, 20, 5]);
}

/// Packs values MSB-first, the way the format's writer does.
fn pack(values: &[u32], bits: u32) -> Vec<u8> {
    let total_bits = values.len() * bits as usize;
    let mut out = vec![0u8; (total_bits + 7) / 8];
    for (i, &v) in values.iter().enumerate() {
        for t in 0..bits {
            let bit = (v >> (bits - 1 - t)) & 1;
            let k = i * bits as usize + t as usize;
            if bit == 1 {
                out[k / 8] |= 0x80 >> (k % 8);
            }
        }
    }
    out
}

#[test]
fn packed_values_round_trip_at_boundary_widths() {
    for &bits in &[1u32, 7, 8, 9, 31] {
        let max = if bits == 32 { u32::MAX } else { (1u32 << bits) - 1 };
        let values: Vec<u32> = (0..37u32)
            .map(|i| (i.wrapping_mul(2654435761)) & max)
            .chain([0, max])
            .collect();
        let reader = FixedBitWidthReader::new(pack(&values, bits), bits as u8, values.len() as u32);
        assert_eq!(reader.read_all().unwrap(), values, "bits = {}", bits);
    }
}

#[test]
fn doc_id_past_the_end_is_invalid_format() {
    let reader = FixedBitWidthReader::new(vec![0x5A, 0xF3], 4, 4);
    assert!(matches!(reader.get_dict_id(4), Err(pinot_segment::Error::InvalidFormat(_))));
}

#[test]
fn short_buffer_is_invalid_format() {
    let reader = FixedBitWidthReader::new(vec![0x5A], 4, 4);
    assert_eq!(reader.get_dict_id(1).unwrap(), 10);
    assert!(matches!(reader.get_dict_id(2), Err(pinot_segment::Error::InvalidFormat(_))));
    assert!(matches!(reader.read_all(), Err(pinot_segment::Error::InvalidFormat(_))));
}

#[test]
fn read_skips_the_magic_marker() {
    let mut data = vec![0xDE, 0xAD, 0xBE, 0xEF, 0xDE, 0xAF, 0xBE, 0xAD];
    data.extend_from_slice(&[0x5A, 0xF3]);
    let reader = FixedBitWidthReader::read(&data, 0, data.len(), 4, 4).unwrap();
    assert_eq!(reader.read_all().unwrap(), vec![5, 10, 15, 3]);
}

#[test]
fn read_rejects_a_region_without_marker_room() {
    let data = vec![0u8; 6];
    assert!(matches!(
        FixedBitWidthReader::read(&data, 0, 6, 4, 1),
        Err(pinot_segment::Error::InvalidFormat(_))
    ));
    assert!(matches!(
        FixedBitWidthReader::read(&data, 0, 16, 4, 1),
        Err(pinot_segment::Error::InvalidFormat(_))
    ));
    let data = vec![0u8; 9];
    assert!(matches!(
        FixedBitWidthReader::read(&data, 0, 9, 0, 1),
        Err(pinot_segment::Error::InvalidFormat(_))
    ));
}
