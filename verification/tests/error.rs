use flatdata::error::ResourceStorageError;

#[test]
fn from_io_error_keeps_error_and_name() {
    let err = std::io::Error::new(std::io::ErrorKind::NotFound, "gone");
    let e = ResourceStorageError::from_io_error(err, "vertices".to_string());
    match e {
        ResourceStorageError::Io(inner, name) => {
            assert_eq!(inner.kind(), std::io::ErrorKind::NotFound);
            assert_eq!(name, "vertices");
        }
        _ => panic!("expected an I/O error"),
    }
}

#[test]
fn descriptions_name_each_kind() {
    let io = ResourceStorageError::from_io_error(
        std::io::Error::new(std::io::ErrorKind::Other, "x"),
        "r".to_string(),
    );
    assert_eq!(io.description(), "resource io error");
    let utf8 = std::str::from_utf8(&[0xff_u8]).unwrap_err();
    assert_eq!(ResourceStorageError::Utf8Error(utf8).description(), "utf8 error in schema");
    assert_eq!(
        ResourceStorageError::MissingSchema("r".to_string()).description(),
        "schema of resource is missing"
    );
    assert_eq!(
        ResourceStorageError::MissingData.description(),
        "resource has partially missing data"
    );
    assert_eq!(
        ResourceStorageError::WrongSignature { resource_name: "r".to_string(), diff: "d".to_string() }
            .description(),
        "schema is not matching expected schema"
    );
    assert_eq!(
        ResourceStorageError::UnexpectedDataSize.description(),
        "resource has unexpected size"
    );
    assert_eq!(
        ResourceStorageError::TooBig { resource_name: "r", size: 1 }.description(),
        "resource is too big"
    );
    assert_eq!(ResourceStorageError::Missing.description(), "Missing resource / archive");
}

#[test]
fn kinds_without_fields_are_written_as_their_names() {
    assert_eq!(ResourceStorageError::MissingData.to_string(), "MissingData");
    assert_eq!(ResourceStorageError::UnexpectedDataSize.to_string(), "UnexpectedDataSize");
    assert_eq!(ResourceStorageError::Missing.to_string(), "Missing");
}

#[test]
fn kinds_with_fields_are_written_with_what_they_hold() {
    assert_eq!(
        ResourceStorageError::MissingSchema("vertices_data".to_string()).to_string(),
        "MissingSchema(\"vertices_data\")"
    );
    assert_eq!(
        ResourceStorageError::WrongSignature {
            resource_name: "vertices".to_string(),
            diff: "-name_ref +name".to_string(),
        }
        .to_string(),
        "WrongSignature { resource_name: \"vertices\", diff: \"-name_ref +name\" }"
    );
    let utf8 = std::str::from_utf8(&[0xff_u8]).unwrap_err();
    assert_eq!(
        ResourceStorageError::Utf8Error(utf8).to_string(),
        "Utf8Error(Utf8Error { valid_up_to: 0, error_len: Some(1) })"
    );
}

#[test]
fn a_line_feed_in_a_diff_is_written_escaped() {
    let text = ResourceStorageError::WrongSignature {
        resource_name: "vertices".to_string(),
        diff: "-a\n+b".to_string(),
    }
    .to_string();
    assert_eq!(text, "WrongSignature { resource_name: \"vertices\", diff: \"-a\\n+b\" }");
    assert!(!text.contains('\n'));
}

#[test]
fn sizes_are_written_in_full_in_decimal_digits() {
    assert_eq!(
        ResourceStorageError::TooBig { resource_name: "edges", size: 65536 }.to_string(),
        "TooBig { resource_name: \"edges\", size: 65536 }"
    );
    assert_eq!(
        ResourceStorageError::TooBig { resource_name: "vertices_data", size: 4294967296 }
            .to_string(),
        "TooBig { resource_name: \"vertices_data\", size: 4294967296 }"
    );
    assert_eq!(
        ResourceStorageError::TooBig { resource_name: "r", size: 0 }.to_string(),
        "TooBig { resource_name: \"r\", size: 0 }"
    );
    assert_eq!(
        ResourceStorageError::TooBig { resource_name: "r", size: 109 }.to_string(),
        "TooBig { resource_name: \"r\", size: 109 }"
    );
}

#[test]
fn an_io_error_is_written_with_its_kind_and_the_name() {
    let e = ResourceStorageError::from_io_error(
        std::io::Error::new(std::io::ErrorKind::AlreadyExists, "Graph.archive"),
        "Graph.archive".to_string(),
    );
    let text = e.to_string();
    assert!(text.starts_with("Io("));
    assert!(text.contains("AlreadyExists"));
    assert!(text.ends_with(", \"Graph.archive\")"));
    assert_eq!(text, format!("{:?}", e));
}

#[test]
fn two_calls_give_the_same_text() {
    let errors = vec![
        ResourceStorageError::MissingSchema("a\"b".to_string()),
        ResourceStorageError::Utf8Error(std::str::from_utf8(&[b'a', 0xe2, 0x82]).unwrap_err()),
        ResourceStorageError::TooBig { resource_name: "data", size: 7 },
        ResourceStorageError::Missing,
    ];
    for e in errors.iter() {
        assert_eq!(e.to_string(), e.to_string());
        assert_eq!(e.to_string(), format!("{:?}", e));
    }
}
