use pinot_segment::{DataType, SegmentMetadata};

#[test]
fn test_parse_simple_properties() {
    let content = r#"
segment.name=test_segment
segment.table.name=testTable
segment.total.docs=100
columns=col1,col2
column.col1.dataType=INT
column.col1.cardinality=10
column.col1.bitsPerElement=4
column.col1.hasDictionary=true
column.col1.isSorted=false
column.col2.dataType=STRING
column.col2.cardinality=50
column.col2.bitsPerElement=6
column.col2.hasDictionary=true
column.col2.isSorted=true
"#;

    let metadata = SegmentMetadata::parse(content).unwrap();

    assert_eq!(metadata.segment_name, "test_segment");
    assert_eq!(metadata.table_name, "testTable");
    assert_eq!(metadata.total_docs, 100);
    assert_eq!(metadata.columns.len(), 2);

    let col1 = metadata.get_column("col1").unwrap();
    assert_eq!(col1.data_type, DataType::Int);
    assert_eq!(col1.cardinality, 10);
    assert_eq!(col1.bits_per_element, 4);
    assert!(col1.has_dictionary);
    assert!(!col1.is_sorted);
}

#[test]
fn test_decode_unicode() {
    assert_eq!(SegmentMetadata::decode_java_string("hello"), "hello");
    assert_eq!(SegmentMetadata::decode_java_string("hello\\u0020world"), "hello world");
    assert_eq!(SegmentMetadata::decode_java_string("tab\\there"), "tab\there");
}

#[test]
fn dimension_list_is_trimmed() {
    let content = "segment.name=s\nsegment.table.name=t\nsegment.total.docs=4\n\
segment.dimension.column.names=a, b ,c\n\
column.a.dataType=INT\ncolumn.a.hasDictionary=true\ncolumn.a.bitsPerElement=1\ncolumn.a.cardinality=2\n\
column.b.dataType=INT\ncolumn.b.hasDictionary=true\ncolumn.b.bitsPerElement=1\ncolumn.b.cardinality=2\n\
column.c.dataType=INT\ncolumn.c.hasDictionary=true\ncolumn.c.bitsPerElement=1\ncolumn.c.cardinality=2\n";
    let m = SegmentMetadata::parse(content).unwrap();
    let names: Vec<&str> = m.columns.iter().map(|c| c.name.as_str()).collect();
    assert_eq!(names, vec!["a", "b", "c"]);
    for c in &m.columns {
        assert_eq!(c.data_type, DataType::Int);
        assert!(c.has_dictionary);
        assert_eq!(c.bits_per_element, 1);
        assert_eq!(c.cardinality, 2);
        assert_eq!(c.total_docs, 4);
    }
}

#[test]
fn column_lists_are_unioned_without_repeats() {
    let content = "segment.name=s\nsegment.table.name=t\nsegment.total.docs=1\n\
columns=x\nsegment.dimension.column.names=x,y\nsegment.metric.column.names=,z\n\
segment.datetime.column.names=y, w\n\
column.x.dataType=LONG\ncolumn.y.dataType=STRING\ncolumn.z.dataType=DOUBLE\ncolumn.w.dataType=BOOLEAN\n";
    let m = SegmentMetadata::parse(content).unwrap();
    let names: Vec<&str> = m.columns.iter().map(|c| c.name.as_str()).collect();
    assert_eq!(names, vec!["x", "y", "z", "w"]);
    assert_eq!(m.get_column("w").unwrap().data_type, DataType::Boolean);
}

#[test]
fn missing_numbers_default_to_zero() {
    let content = "segment.name=s\nsegment.table.name=t\nsegment.total.docs=1\ncolumns=x\n\
column.x.dataType=STRING\ncolumn.x.cardinality=lots\ncolumn.x.lengthOfEachEntry=12\n";
    let m = SegmentMetadata::parse(content).unwrap();
    let c = m.get_column("x").unwrap();
    assert_eq!(c.cardinality, 0);
    assert_eq!(c.bits_per_element, 0);
    assert_eq!(c.length_of_each_entry, 12);
    assert!(!c.has_dictionary);
}

#[test]
fn missing_required_keys_are_parse_errors() {
    let r = SegmentMetadata::parse("segment.table.name=t\nsegment.total.docs=1\n");
    assert!(matches!(r, Err(pinot_segment::Error::Parse(_))));
    let r = SegmentMetadata::parse("segment.name=s\nsegment.table.name=t\nsegment.total.docs=-1\n");
    assert!(matches!(r, Err(pinot_segment::Error::Parse(_))));
    let r = SegmentMetadata::parse("segment.name=s\nsegment.table.name=t\nsegment.total.docs=1\ncolumns=x\n");
    assert!(matches!(r, Err(pinot_segment::Error::Parse(_))));
    let r = SegmentMetadata::parse(
        "segment.name=s\nsegment.table.name=t\nsegment.total.docs=1\ncolumns=x\ncolumn.x.dataType=TEXT\n",
    );
    assert!(matches!(r, Err(pinot_segment::Error::Parse(_))));
}

#[test]
fn unknown_column_is_column_not_found() {
    let m = SegmentMetadata::parse("segment.name=s\nsegment.table.name=t\nsegment.total.docs=1\n").unwrap();
    assert!(matches!(m.get_column("nope"), Err(pinot_segment::Error::ColumnNotFound(_))));
}

#[test]
fn values_are_unescaped_and_comments_skipped() {
    let content = "# comment\n  \nsegment.name = a\\tb\\u0041\nsegment.table.name=x=y\nsegment.total.docs=+7\n";
    let m = SegmentMetadata::parse(content).unwrap();
    assert_eq!(m.segment_name, "a\tbA");
    assert_eq!(m.table_name, "x=y");
    assert_eq!(m.total_docs, 7);
}

#[test]
fn malformed_unicode_escapes_stay_verbatim() {
    assert_eq!(SegmentMetadata::decode_java_string("\\uZZ12x"), "\\uZZ12x");
    assert_eq!(SegmentMetadata::decode_java_string("\\uD800!"), "\\uD800!");
    assert_eq!(SegmentMetadata::decode_java_string("\\u41"), "\\u41");
    assert_eq!(SegmentMetadata::decode_java_string("\\u+041"), "\\u+041");
    assert_eq!(SegmentMetadata::decode_java_string("\\u0041"), "A");
    assert_eq!(SegmentMetadata::decode_java_string("a\\\\b\\n\\r\\q\\"), "a\\b\n\r\\q\\");
    assert_eq!(SegmentMetadata::decode_java_string("\\u00e9t\\u00E9"), "été");
}

#[test]
fn data_type_tokens() {
    assert_eq!(DataType::from_string("FLOAT").unwrap(), DataType::Float);
    assert_eq!(DataType::from_string("BYTES").unwrap(), DataType::Bytes);
    assert!(matches!(DataType::from_string("int"), Err(pinot_segment::Error::Parse(_))));
}
