use pinot_segment::{DataType, DictionaryReader, Error, SegmentReader, VarByteChunkReader};

const MAGIC: [u8; 8] = [0xDE, 0xAD, 0xBE, 0xEF, 0xDE, 0xAF, 0xBE, 0xAD];

fn be32(v: u32) -> [u8; 4] {
    v.to_be_bytes()
}

fn le32(v: u32) -> [u8; 4] {
    v.to_le_bytes()
}

/// A blob holding an INT dictionary [10, 20, 30] at 0 and a 2-bit forward
/// index [0, 1, 2, 0] right after it.
fn int_blob() -> Vec<u8> {
    let mut data = MAGIC.to_vec();
    for v in [10u32, 20, 30] {
        data.extend_from_slice(&be32(v));
    }
    data.extend_from_slice(&MAGIC);
    data.push(0b0001_1000);
    data
}

fn int_segment(extra_columns: &str, extra_index: &str) -> SegmentReader {
    let metadata = format!(
        "segment.name=seg\nsegment.table.name=tbl\nsegment.total.docs=4\n\
segment.dimension.column.names=n{}\n\
column.n.dataType=INT\ncolumn.n.cardinality=3\ncolumn.n.bitsPerElement=2\ncolumn.n.hasDictionary=true\n",
        extra_columns
    );
    let index = format!(
        "n.dictionary.startOffset=0\nn.dictionary.size=20\n\
n.forward_index.startOffset=20\nn.forward_index.size=9\n{}",
        extra_index
    );
    SegmentReader::open(&metadata, &index).unwrap()
}

#[test]
fn int_dictionary_column() {
    let reader = int_segment("", "");
    assert_eq!(reader.total_docs(), 4);
    assert_eq!(reader.read_int_column("n", &int_blob()).unwrap(), vec![10, 20, 30, 10]);
}

#[test]
fn dictionary_column_errors() {
    let reader = int_segment("", "");
    let data = int_blob();
    assert!(matches!(reader.read_int_column("missing", &data), Err(Error::ColumnNotFound(_))));
    assert!(matches!(reader.read_long_column("n", &data), Err(Error::InvalidFormat(_))));
    assert!(matches!(reader.read_string_column("n", &data), Err(Error::InvalidFormat(_))));
    // an id past the dictionary: the third value is 3
    let mut bad = data.clone();
    *bad.last_mut().unwrap() = 0b0001_1011;
    assert!(matches!(reader.read_int_column("n", &bad), Err(Error::InvalidFormat(_))));
    // truncated forward index
    assert!(matches!(reader.read_int_column("n", &data[..28]), Err(Error::InvalidFormat(_))));
}

#[test]
fn raw_int_column_is_unsupported() {
    let metadata = "segment.name=s\nsegment.table.name=t\nsegment.total.docs=1\ncolumns=r\ncolumn.r.dataType=INT\n";
    let reader = SegmentReader::open(metadata, "").unwrap();
    assert!(matches!(reader.read_int_column("r", &[]), Err(Error::UnsupportedFeature(_))));
}

#[test]
fn little_endian_dictionary_is_rejected() {
    let mut data = int_blob();
    let mut le = MAGIC;
    le.reverse();
    data[..8].copy_from_slice(&le);
    let reader = int_segment("", "");
    assert!(matches!(reader.read_int_column("n", &data), Err(Error::InvalidFormat(_))));
}

#[test]
fn long_and_floating_dictionaries() {
    let mut data = MAGIC.to_vec();
    data.extend_from_slice(&(-5i64).to_be_bytes());
    data.extend_from_slice(&(1i64 << 40).to_be_bytes());
    let d = DictionaryReader::read(&data, 0, data.len(), DataType::Long, 2, 0).unwrap();
    assert_eq!(d.get_long(0), Some(-5));
    assert_eq!(d.get_long(1), Some(1i64 << 40));
    assert_eq!(d.get_long(2), None);
    assert_eq!(d.get_int(0), None);

    let mut data = MAGIC.to_vec();
    data.extend_from_slice(&1.5f32.to_be_bytes());
    let d = DictionaryReader::read(&data, 0, data.len(), DataType::Float, 1, 0).unwrap();
    assert_eq!(f32::from_bits(d.get_float_bits(0).unwrap()), 1.5);

    let mut data = MAGIC.to_vec();
    data.extend_from_slice(&(-2.25f64).to_be_bytes());
    let d = DictionaryReader::read(&data, 0, data.len(), DataType::Double, 1, 0).unwrap();
    assert_eq!(f64::from_bits(d.get_double_bits(0).unwrap()), -2.25);
}

#[test]
fn variable_length_string_dictionary() {
    let mut data = MAGIC.to_vec();
    data.extend_from_slice(&be32(2));
    data.extend_from_slice(b"ab");
    data.extend_from_slice(&be32(3));
    data.extend_from_slice(b"cde");
    let d = DictionaryReader::read(&data, 0, data.len(), DataType::String, 2, 0).unwrap();
    assert_eq!(d.get_string(0), Some("ab"));
    assert_eq!(d.get_string(1), Some("cde"));
    assert_eq!(d.get_string(2), None);
}

#[test]
fn fixed_length_string_dictionary_trims_padding() {
    let mut data = vec![0xFF, 0xFF];
    data.extend_from_slice(&MAGIC);
    data.extend_from_slice(b"ab\0\0");
    data.extend_from_slice("é\0x".as_bytes());
    data.extend_from_slice(b"wxyz");
    let d = DictionaryReader::read(&data, 2, 0, DataType::String, 3, 4).unwrap();
    assert_eq!(d.get_string(0), Some("ab"));
    assert_eq!(d.get_string(1), Some("é"));
    assert_eq!(d.get_string(2), Some("wxyz"));
}

#[test]
fn dictionary_errors() {
    let mut data = MAGIC.to_vec();
    data.extend_from_slice(&be32(2));
    data.extend_from_slice(&[0xC3, 0x28]);
    assert!(matches!(
        DictionaryReader::read(&data, 0, 0, DataType::String, 1, 0),
        Err(Error::Parse(_))
    ));
    assert!(matches!(
        DictionaryReader::read(&data, 0, 0, DataType::String, 2, 0),
        Err(Error::InvalidFormat(_))
    ));
    assert!(matches!(
        DictionaryReader::read(&data, 0, 0, DataType::Bytes, 1, 0),
        Err(Error::UnsupportedFeature(_))
    ));
    assert!(matches!(
        DictionaryReader::read(&data, 0, 0, DataType::Boolean, 1, 0),
        Err(Error::UnsupportedFeature(_))
    ));
    assert!(matches!(
        DictionaryReader::read(&data, 1, 0, DataType::Int, 1, 0),
        Err(Error::InvalidFormat(_))
    ));
    assert!(matches!(
        DictionaryReader::read(&data, 0, 0, DataType::Int, 2, 0),
        Err(Error::InvalidFormat(_))
    ));
}

#[test]
fn dictionary_encoded_string_column() {
    let mut data = MAGIC.to_vec();
    data.extend_from_slice(&be32(2));
    data.extend_from_slice(b"ab");
    data.extend_from_slice(&be32(3));
    data.extend_from_slice(b"cde");
    let fwd_at = data.len();
    data.extend_from_slice(&MAGIC);
    data.push(0b0110_0000);
    let metadata = "segment.name=s\nsegment.table.name=t\nsegment.total.docs=3\ncolumns=s\n\
column.s.dataType=STRING\ncolumn.s.cardinality=2\ncolumn.s.bitsPerElement=1\ncolumn.s.hasDictionary=true\n";
    let index = format!(
        "s.dictionary.startOffset=0\ns.dictionary.size={}\ns.forward_index.startOffset={}\ns.forward_index.size=9\n",
        fwd_at, fwd_at
    );
    let reader = SegmentReader::open(metadata, &index).unwrap();
    assert_eq!(reader.read_string_column("s", &data).unwrap(), vec!["ab", "cde", "cde"]);
}

/// A version-4 forward index with the given chunk entries and chunk bytes.
fn var_byte_index(compression: u32, target: u32, entries: &[(u32, u32)], chunks: &[u8]) -> Vec<u8> {
    let mut f = MAGIC.to_vec();
    f.extend_from_slice(&be32(4));
    f.extend_from_slice(&be32(target));
    f.extend_from_slice(&be32(compression));
    f.extend_from_slice(&be32(16 + 8 * entries.len() as u32));
    for &(word, off) in entries {
        f.extend_from_slice(&le32(word));
        f.extend_from_slice(&le32(off));
    }
    f.extend_from_slice(chunks);
    f
}

/// A regular chunk holding `values`.
fn chunk(values: &[&[u8]]) -> Vec<u8> {
    let n = values.len() as u32;
    let mut c = le32(n).to_vec();
    let mut pos = 4 + 4 * n;
    for v in values {
        c.extend_from_slice(&le32(pos));
        pos += v.len() as u32;
    }
    for v in values {
        c.extend_from_slice(v);
    }
    c
}

#[test]
fn var_byte_passthrough_chunk() {
    let c = chunk(&[b"hi", b"abc", b"xyz"]);
    assert_eq!(&c[4..16], &[16, 0, 0, 0, 18, 0, 0, 0, 21, 0, 0, 0]);
    let f = var_byte_index(0, 1024, &[(0, 0)], &c);
    let r = VarByteChunkReader::read(&f, 0, f.len(), 3).unwrap();
    assert_eq!(r.read_all_strings().unwrap(), vec!["hi", "abc", "xyz"]);
    assert_eq!(r.get_string(1).unwrap(), "abc");
    assert_eq!(r.read_all_bytes().unwrap(), vec![b"hi".to_vec(), b"abc".to_vec(), b"xyz".to_vec()]);
}

#[test]
fn bulk_read_matches_lookups_across_chunks() {
    let c0 = chunk(&[b"a", b"bb"]);
    let huge = b"a huge value".to_vec();
    let c2 = chunk(&[b"", b"ccc", b"dddd"]);
    let mut chunks = c0.clone();
    chunks.extend_from_slice(&huge);
    chunks.extend_from_slice(&c2);
    let o1 = c0.len() as u32;
    let o2 = o1 + huge.len() as u32;
    let f = var_byte_index(0, 64, &[(0, 0), (2 | 0x8000_0000, o1), (3, o2), (0, 0xFFFF_FFFF)], &chunks);
    let r = VarByteChunkReader::read(&f, 0, f.len(), 6).unwrap();
    let all = r.read_all_strings().unwrap();
    assert_eq!(all, vec!["a", "bb", "a huge value", "", "ccc", "dddd"]);
    for (doc, v) in all.iter().enumerate() {
        assert_eq!(&r.get_string(doc as u32).unwrap(), v);
    }
    assert!(matches!(r.get_string(6), Err(Error::InvalidFormat(_))));
}

#[test]
fn var_byte_lz4_chunks() {
    let c = chunk(&[b"first value", b"second value", b"third"]);
    let raw_block = lz4::block::compress(&c, None, false).unwrap();
    let f = var_byte_index(3, c.len() as u32, &[(0, 0)], &raw_block);
    let r = VarByteChunkReader::read(&f, 0, f.len(), 3).unwrap();
    assert_eq!(r.read_all_strings().unwrap(), vec!["first value", "second value", "third"]);

    let prefixed = lz4::block::compress(&c, None, true).unwrap();
    let f = var_byte_index(4, 0, &[(0, 0)], &prefixed);
    let r = VarByteChunkReader::read(&f, 0, f.len(), 3).unwrap();
    assert_eq!(r.read_all_strings().unwrap(), vec!["first value", "second value", "third"]);
    assert_eq!(r.get_string(2).unwrap(), "third");

    let f = var_byte_index(4, 0, &[(0, 0)], &[1, 2, 3, 4, 5, 6]);
    let r = VarByteChunkReader::read(&f, 0, f.len(), 3).unwrap();
    assert!(matches!(r.read_all_strings(), Err(Error::InvalidFormat(_))));
}

#[test]
fn var_byte_header_errors() {
    let c = chunk(&[b"x"]);
    let mut f = var_byte_index(0, 16, &[(0, 0)], &c);
    // version written little-endian
    f[8..12].copy_from_slice(&le32(4));
    match VarByteChunkReader::read(&f, 0, f.len(), 1) {
        Err(Error::UnsupportedFeature(m)) => assert!(m.contains("Expected V4")),
        _ => panic!("expected an unsupported version"),
    }
    let f = var_byte_index(1, 16, &[(0, 0)], &c);
    assert!(matches!(VarByteChunkReader::read(&f, 0, f.len(), 1), Err(Error::UnsupportedFeature(_))));
    let f = var_byte_index(9, 16, &[(0, 0)], &c);
    assert!(matches!(VarByteChunkReader::read(&f, 0, f.len(), 1), Err(Error::UnsupportedFeature(_))));
    let f = var_byte_index(0, 16, &[(1, 0), (1, 0)], &c);
    assert!(matches!(VarByteChunkReader::read(&f, 0, f.len(), 1), Err(Error::InvalidFormat(_))));
    assert!(matches!(VarByteChunkReader::read(&f, 0, 10, 1), Err(Error::InvalidFormat(_))));
    assert!(matches!(VarByteChunkReader::read(&f, 4, f.len(), 1), Err(Error::InvalidFormat(_))));
}

#[test]
fn var_byte_value_errors() {
    let mut c = chunk(&[b"ok", &[0xFF, 0xFE]]);
    let f = var_byte_index(0, 64, &[(0, 0)], &c);
    let r = VarByteChunkReader::read(&f, 0, f.len(), 2).unwrap();
    assert!(matches!(r.read_all_strings(), Err(Error::Parse(_))));
    assert_eq!(r.get_string(0).unwrap(), "ok");
    assert!(matches!(r.get_string(1), Err(Error::Parse(_))));
    // an offset past the end of the chunk
    c[4] = 200;
    let f = var_byte_index(0, 64, &[(0, 0)], &c);
    let r = VarByteChunkReader::read(&f, 0, f.len(), 2).unwrap();
    assert!(matches!(r.read_all_bytes(), Err(Error::InvalidFormat(_))));
}

#[test]
fn raw_string_column_through_the_reader() {
    let c = chunk(&[b"hi", b"abc", b"xyz"]);
    let f = var_byte_index(0, 1024, &[(0, 0)], &c);
    let mut data = vec![7u8; 5];
    data.extend_from_slice(&f);
    let metadata = "segment.name=s\nsegment.table.name=t\nsegment.total.docs=3\ncolumns=p\ncolumn.p.dataType=STRING\n";
    let index = format!("p.forward_index.startOffset=5\np.forward_index.size={}\n", f.len());
    let reader = SegmentReader::open(metadata, &index).unwrap();
    assert_eq!(reader.read_string_column("p", &data).unwrap(), vec!["hi", "abc", "xyz"]);
}

#[test]
fn error_messages_name_their_kind() {
    assert_eq!(Error::Io("disk".to_string()).message(), "I/O error: disk");
    assert_eq!(Error::Parse("p".to_string()).message(), "Parse error: p");
    assert_eq!(Error::InvalidFormat("f".to_string()).message(), "Invalid format: f");
    assert_eq!(Error::UnsupportedFeature("u".to_string()).message(), "Unsupported feature: u");
    assert_eq!(Error::ColumnNotFound("c".to_string()).message(), "Column not found: c");
    let wrapped = pinot_segment::catalog::Error::from(Error::Parse("p".to_string()));
    assert_eq!(wrapped.message(), "Pinot segment error: Parse error: p");
}

#[test]
fn missing_column_error_names_the_column() {
    let reader = int_segment("", "");
    match reader.read_int_column("nope", &int_blob()) {
        Err(Error::ColumnNotFound(name)) => assert_eq!(name, "nope"),
        _ => panic!("expected ColumnNotFound"),
    }
}

#[test]
fn raw_column_with_fewer_values_than_documents_is_invalid() {
    let c = chunk(&[b"hi", b"abc"]);
    let f = var_byte_index(0, 1024, &[(0, 0)], &c);
    let r = VarByteChunkReader::read(&f, 0, f.len(), 3).unwrap();
    assert!(matches!(r.read_all_strings(), Err(Error::InvalidFormat(_))));
    assert_eq!(r.get_string(1).unwrap(), "abc");
}

#[test]
fn schemas_compare_by_column_names_and_types() {
    let a = pinot_segment::SegmentMetadata::parse(
        "segment.name=a\nsegment.table.name=t\nsegment.total.docs=1\ncolumns=x,y\ncolumn.x.dataType=INT\ncolumn.y.dataType=STRING\n",
    )
    .unwrap();
    let b = pinot_segment::SegmentMetadata::parse(
        "segment.name=b\nsegment.table.name=t\nsegment.total.docs=9\ncolumns=x,y\ncolumn.x.dataType=INT\ncolumn.y.dataType=STRING\n",
    )
    .unwrap();
    let c = pinot_segment::SegmentMetadata::parse(
        "segment.name=c\nsegment.table.name=t\nsegment.total.docs=1\ncolumns=x,y\ncolumn.x.dataType=LONG\ncolumn.y.dataType=STRING\n",
    )
    .unwrap();
    assert!(a.same_schema(&b));
    assert!(!a.same_schema(&c));
}

#[test]
fn bulk_read_rejects_a_table_that_skips_documents() {
    let c0 = chunk(&[b"a"]);
    let c1 = chunk(&[b"b"]);
    let mut chunks = c0.clone();
    chunks.extend_from_slice(&c1);
    let f = var_byte_index(0, 64, &[(0, 0), (2, c0.len() as u32)], &chunks);
    let r = VarByteChunkReader::read(&f, 0, f.len(), 2).unwrap();
    assert!(matches!(r.read_all_bytes(), Err(Error::InvalidFormat(_))));
    assert_eq!(r.get_string(0).unwrap(), "a");
    match r.get_string(1) {
        Err(Error::InvalidFormat(m)) => assert_eq!(m, "doc_id not in chunk"),
        _ => panic!("expected InvalidFormat"),
    }
}

#[test]
fn bulk_read_keeps_the_first_total_docs_values() {
    let c = chunk(&[b"x", b"y", b"z"]);
    let f = var_byte_index(0, 64, &[(0, 0)], &c);
    let r = VarByteChunkReader::read(&f, 0, f.len(), 2).unwrap();
    let all = r.read_all_strings().unwrap();
    assert_eq!(all, vec!["x", "y"]);
    for (d, v) in all.iter().enumerate() {
        assert_eq!(&r.get_string(d as u32).unwrap(), v);
    }
}

#[test]
fn packed_read_all_reports_the_first_failing_id() {
    let reader = pinot_segment::FixedBitWidthReader::new(vec![0x5A], 4, 4);
    match reader.read_all() {
        Err(Error::InvalidFormat(m)) => assert_eq!(m, "Packed value extends past the end of the buffer"),
        _ => panic!("expected InvalidFormat"),
    }
    match reader.get_dict_id(9) {
        Err(Error::InvalidFormat(m)) => assert_eq!(m, "doc_id out of range"),
        _ => panic!("expected InvalidFormat"),
    }
}
