use pinot_segment::catalog::PinotCatalogSource;
use pinot_segment::PinotCatalog;
use std::path::Path;

const DATA_DIR: &str = "/tmp/pinot/quickstart/PinotServerDataDir0";

fn dir_exists(dir: &str) -> bool {
    Path::new(dir).exists()
}

#[test]
fn test_catalog_creation() {
    if !Path::new(DATA_DIR).exists() {
        println!("Skipping test: data directory not found");
        return;
    }

    let catalog = PinotCatalog::new(DATA_DIR.to_string(), dir_exists(DATA_DIR)).expect("Failed to create catalog");

    let schema_names = catalog.schema_names();
    assert!(schema_names.contains(&"default".to_string()));
}

#[test]
fn test_builder_filesystem_mode() {
    if !Path::new(DATA_DIR).exists() {
        println!("Skipping test: data directory not found");
        return;
    }

    let catalog = PinotCatalog::builder()
        .filesystem(DATA_DIR.to_string())
        .build(dir_exists(DATA_DIR))
        .expect("Failed to build catalog");

    let schema_names = catalog.schema_names();
    assert!(schema_names.contains(&"default".to_string()));
}

#[test]
fn test_builder_missing_source() {
    let result = PinotCatalog::builder().build(false);
    assert!(result.is_err());
    assert!(result
        .unwrap_err()
        .message()
        .contains("No catalog source configured"));
}

#[test]
fn test_builder_nonexistent_directory() {
    let dir = "/nonexistent/path/12345";
    let result = PinotCatalog::builder().filesystem(dir.to_string()).build(dir_exists(dir));
    assert!(result.is_err());
    assert!(result.unwrap_err().message().contains("does not exist"));
}

#[test]
fn test_builder_controller_mode() {
    if !Path::new(DATA_DIR).exists() {
        println!("Skipping test: data directory not found");
        return;
    }

    let result = PinotCatalog::builder()
        .controller("http://localhost:9000".to_string())
        .with_segment_dir(DATA_DIR.to_string())
        .build(dir_exists(DATA_DIR));

    assert!(result.is_ok());
}

#[test]
fn test_builder_controller_missing_url() {
    let result = PinotCatalog::builder()
        .with_segment_dir(DATA_DIR.to_string())
        .build(dir_exists(DATA_DIR));

    assert!(result.is_err());
}

#[test]
fn test_builder_controller_missing_segment_dir() {
    let result = PinotCatalog::builder()
        .controller("http://localhost:9000".to_string())
        .build(true);

    assert!(result.is_err());
    assert!(result
        .unwrap_err()
        .message()
        .contains("Segment directory not specified"));
}

#[test]
fn controller_and_segment_dir_combine_in_either_order() {
    let b = PinotCatalog::builder()
        .with_segment_dir("/data".to_string())
        .controller("http://c".to_string());
    match &b.source {
        Some(PinotCatalogSource::Controller { base_url, segment_dir }) => {
            assert_eq!(base_url, "http://c");
            assert_eq!(segment_dir, "/data");
        }
        _ => panic!("expected a controller source"),
    }
    assert_eq!(b.directory().unwrap(), "/data");
    let c = b.build(true).unwrap();
    assert!(matches!(c.source, PinotCatalogSource::Controller { .. }));
}

#[test]
fn missing_segment_directory_is_reported() {
    let r = PinotCatalog::builder()
        .controller("http://c".to_string())
        .with_segment_dir("/gone".to_string())
        .build(false);
    assert_eq!(r.unwrap_err().message(), "Internal error: Segment directory does not exist: /gone");
}

#[test]
fn catalog_has_only_the_default_schema() {
    let c = PinotCatalog::new("/d".to_string(), true).unwrap();
    assert_eq!(c.schema_names(), vec!["default".to_string()]);
    assert!(c.has_schema("default"));
    assert!(!c.has_schema("other"));
    let e = PinotCatalog::new("/d".to_string(), false).unwrap_err();
    assert_eq!(e.message(), "Internal error: Data directory does not exist: /d");
}
