use yaak_grpc::compile::build_protoc_args;
use yaak_grpc::compile::CandidatePath;
use yaak_grpc::route::method_desc_to_path;
use yaak_grpc::transport::classify_transport_error;
use yaak_grpc::transport::TransportCode;

#[test]
fn method_route_from_fully_qualified_name() {
    let r = method_desc_to_path("pkg.sub.Service.Method").unwrap();
    assert_eq!(r, "/pkg.sub.Service/Method");
}

#[test]
fn method_route_without_separator_is_malformed() {
    assert!(method_desc_to_path("NoSeparator").is_err());
    assert!(method_desc_to_path("").is_err());
}

#[test]
fn method_route_single_separator() {
    let r = method_desc_to_path("Service.Method").unwrap();
    assert_eq!(r, "/Service/Method");
}

#[test]
fn missing_input_path_is_skipped_silently() {
    let candidates = vec![
        CandidatePath {
            path: "x.proto".to_string(),
            exists: true,
            include_dirs: Some(("dir".to_string(), ".".to_string())),
        },
        CandidatePath {
            path: "missing.proto".to_string(),
            exists: false,
            include_dirs: None,
        },
    ];
    let args = build_protoc_args(
        &"include".to_string(),
        &"out.desc".to_string(),
        &candidates,
    );
    assert_eq!(
        args,
        vec![
            "--include_imports".to_string(),
            "--include_source_info".to_string(),
            "-I".to_string(),
            "include".to_string(),
            "-o".to_string(),
            "out.desc".to_string(),
            "x.proto".to_string(),
            "-I".to_string(),
            "dir".to_string(),
            "-I".to_string(),
            ".".to_string(),
        ]
    );
    assert!(!args.contains(&"missing.proto".to_string()));
}

#[test]
fn transport_errors_are_classified() {
    assert_eq!(
        classify_transport_error(TransportCode::Unavailable, "raw".to_string()),
        "Failed to connect to endpoint"
    );
    assert_eq!(
        classify_transport_error(TransportCode::Unauthenticated, "raw".to_string()),
        "Authentication failed"
    );
    assert_eq!(
        classify_transport_error(TransportCode::DeadlineExceeded, "raw".to_string()),
        "Deadline exceeded"
    );
    assert_eq!(
        classify_transport_error(TransportCode::Other, "status: internal".to_string()),
        "status: internal"
    );
}
