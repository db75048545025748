use pinot_segment::IndexMap;

#[test]
fn test_parse_index_map() {
    let content = r#"
# Index map for segment
hits.dictionary.startOffset=1024
hits.dictionary.size=40
hits.forward_index.startOffset=1064
hits.forward_index.size=48986
playerID.forward_index.startOffset=50050
playerID.forward_index.size=5000000
"#;

    let index_map = IndexMap::parse(content).unwrap();

    let dict = index_map.get_dictionary("hits").unwrap();
    assert_eq!(dict.start_offset, 1024);
    assert_eq!(dict.size, 40);

    let fwd = index_map.get_forward_index("hits").unwrap();
    assert_eq!(fwd.start_offset, 1064);
    assert_eq!(fwd.size, 48986);

    assert!(index_map.get_dictionary("playerID").is_none());
    let player_fwd = index_map.get_forward_index("playerID").unwrap();
    assert_eq!(player_fwd.start_offset, 50050);
}

#[test]
fn test_column_name_with_dots() {
    let content = r#"
some.column.name.dictionary.startOffset=100
some.column.name.dictionary.size=200
"#;

    let index_map = IndexMap::parse(content).unwrap();
    let dict = index_map.get_dictionary("some.column.name").unwrap();
    assert_eq!(dict.start_offset, 100);
    assert_eq!(dict.size, 200);
}

#[test]
fn dotted_key_names_the_whole_prefix() {
    let index_map = IndexMap::parse("a.b.c.forward_index.startOffset=7\n").unwrap();
    let loc = index_map.get_forward_index("a.b.c").unwrap();
    assert_eq!(loc.start_offset, 7);
    assert_eq!(loc.size, 0);
    assert!(index_map.get_forward_index("a").is_none());
}

#[test]
fn bad_number_is_a_parse_error() {
    let r = IndexMap::parse("x.dictionary.size=12ab\n");
    assert!(matches!(r, Err(pinot_segment::Error::Parse(_))));
}

#[test]
fn short_keys_and_unknown_properties_are_skipped() {
    let index_map = IndexMap::parse("nodots=5\nx.y=6\nc.dictionary.other=9\nc.dictionary.size=3\n").unwrap();
    let loc = index_map.get_dictionary("c").unwrap();
    assert_eq!(loc.start_offset, 0);
    assert_eq!(loc.size, 3);
    assert!(index_map.get_index("x", "y").is_none());
}

#[test]
fn later_lines_win() {
    let index_map = IndexMap::parse("c.dictionary.size=3\nc.dictionary.size=4\n").unwrap();
    assert_eq!(index_map.get_dictionary("c").unwrap().size, 4);
}
