use pinot_segment::discovery::{
    segment_dir_names, table_listed, table_names, SegmentDirEntry, SegmentListResponse, TablesResponse,
};
use pinot_segment::FileSystemMetadataProvider;

fn strings(v: &[&str]) -> Vec<String> {
    v.iter().map(|s| s.to_string()).collect()
}

#[test]
fn tables_are_stripped_sorted_and_unique() {
    let dirs = strings(&["zeta_REALTIME", "alpha_OFFLINE", "zeta_OFFLINE", "notes", "beta_REALTIME", "_OFFLINE"]);
    assert_eq!(table_names(&dirs), strings(&["", "alpha", "beta", "zeta"]));
    assert!(table_names(&strings(&["x", "y_OFFLINEx"])).is_empty());
}

#[test]
fn segment_directories_skip_tmp_and_non_segments() {
    let e = |name: &str, is_dir: bool, has_v3: bool| SegmentDirEntry { name: name.to_string(), is_dir, has_v3 };
    let entries = vec![e("seg_2", true, true), e("tmp", true, true), e("file", false, false), e("seg_1", true, true), e("old", true, false)];
    assert_eq!(segment_dir_names(&entries).unwrap(), strings(&["seg_1", "seg_2"]));
    let none = vec![e("tmp", true, true), e("x", true, false)];
    let err = segment_dir_names(&none).unwrap_err();
    assert!(err.message().contains("No valid segments found"));
}

#[test]
fn listed_tables() {
    let tables = strings(&["baseballStats", "airlineStats"]);
    assert!(table_listed(&tables, "airlineStats"));
    assert!(!table_listed(&tables, "nonexistent_table_12345"));
}

#[test]
fn provider_directories() {
    let p = FileSystemMetadataProvider::new("/data".to_string());
    assert_eq!(p.data_dir(), "/data");
    let (off, rt) = FileSystemMetadataProvider::table_dir_names("baseballStats");
    assert_eq!(off, "baseballStats_OFFLINE");
    assert_eq!(rt, "baseballStats_REALTIME");
}

#[test]
fn segments_of_requested_type() {
    let resp = SegmentListResponse(vec![
        vec![("OFFLINE".to_string(), strings(&["seg1", "seg2"]))],
        vec![("REALTIME".to_string(), strings(&["seg3"]))],
    ]);
    assert_eq!(resp.segments_of_type("OFFLINE"), strings(&["seg1", "seg2"]));
    assert_eq!(resp.segments_of_type("REALTIME"), strings(&["seg3"]));
    let only_offline = SegmentListResponse(vec![vec![("OFFLINE".to_string(), strings(&["seg1"]))]]);
    assert!(only_offline.segments_of_type("REALTIME").is_empty());
    let tables = TablesResponse { tables: strings(&["table1", "table2"]) };
    assert_eq!(tables.tables, strings(&["table1", "table2"]));
}
