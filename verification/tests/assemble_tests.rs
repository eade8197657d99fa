use prost::Message;
use yaak_grpc::assemble::assemble_registry;
use yaak_grpc::assemble::registry_from_descriptor_set;
use yaak_grpc::assemble::AssemblyStep;
use yaak_grpc::assemble::PoolAssembler;
use yaak_grpc::errors::ResolveError;
use yaak_grpc::registry::FileSchemaUnit;
use yaak_grpc::transport::FetchAction;
use yaak_grpc::transport::FetchEvent;

fn unit(name: &str, deps: &[&str]) -> FileSchemaUnit {
    FileSchemaUnit {
        name: name.to_string(),
        dependency: deps.iter().map(|d| d.to_string()).collect(),
        content: name.as_bytes().to_vec(),
    }
}

fn fdp(name: &str, deps: &[&str]) -> prost_types::FileDescriptorProto {
    prost_types::FileDescriptorProto {
        name: Some(name.to_string()),
        dependency: deps.iter().map(|d| d.to_string()).collect(),
        ..Default::default()
    }
}

fn blob(name: &str, deps: &[&str]) -> Vec<u8> {
    fdp(name, deps).encode_to_vec()
}

#[test]
fn batch_is_registered_in_dependency_order() {
    // handed in reverse dependency order on purpose
    let units = vec![
        unit("top.proto", &["mid.proto"]),
        unit("mid.proto", &["base.proto"]),
        unit("base.proto", &[]),
    ];
    let reg = assemble_registry(units).expect("complete acyclic batch must assemble");
    assert_eq!(reg.len(), 3);
    assert!(reg.contains_name(&"top.proto".to_string()));
    assert!(reg.contains_name(&"mid.proto".to_string()));
    assert!(reg.contains_name(&"base.proto".to_string()));
}

#[test]
fn batch_with_cycle_is_a_typed_error() {
    let units = vec![
        unit("a.proto", &["b.proto"]),
        unit("b.proto", &["a.proto"]),
    ];
    match assemble_registry(units) {
        Err(ResolveError::Cycle(n)) => assert!(n == "a.proto" || n == "b.proto"),
        _ => panic!("expected a cycle error"),
    }
}

#[test]
fn batch_with_dangling_dependency_is_a_typed_error() {
    let units = vec![unit("a.proto", &["gone.proto"])];
    match assemble_registry(units) {
        Err(ResolveError::MissingDependency(d)) => assert_eq!(d, "gone.proto"),
        _ => panic!("expected a missing-dependency error"),
    }
}

#[test]
fn descriptor_set_round_trip() {
    let fds = prost_types::FileDescriptorSet {
        file: vec![fdp("dep.proto", &[]), fdp("main.proto", &["dep.proto"])],
    };
    let bytes = fds.encode_to_vec();
    let reg = registry_from_descriptor_set(&bytes).expect("valid set must decode");
    assert_eq!(reg.len(), 2);
    let main = reg.get(&"main.proto".to_string()).unwrap();
    assert_eq!(main.dependency, vec!["dep.proto".to_string()]);
    // the unit's content re-serializes the decoded file descriptor
    let decoded = prost_types::FileDescriptorProto::decode(main.content.as_slice()).unwrap();
    assert_eq!(decoded.name(), "main.proto");
}

#[test]
fn malformed_descriptor_set_is_a_decode_error() {
    let bytes = vec![0xffu8, 0xff, 0xff, 0xff];
    match registry_from_descriptor_set(&bytes) {
        Err(ResolveError::Decode(_)) => {}
        _ => panic!("expected a decode error"),
    }
}

#[test]
fn failed_service_is_skipped_not_fatal() {
    let (a, act) = PoolAssembler::begin();
    assert!(matches!(act, FetchAction::ListServices));
    let step = a
        .on_event(FetchEvent::Services(vec![
            "a.Foo".to_string(),
            "b.Bar".to_string(),
        ]))
        .unwrap();
    let a = match step {
        AssemblyStep::Continue(a, FetchAction::FileContainingSymbol(s)) => {
            assert_eq!(s, "a.Foo");
            a
        }
        _ => panic!("expected a per-service fetch"),
    };
    // a.Foo is unreachable: the assembler moves on to b.Bar
    let step = a
        .on_event(FetchEvent::FetchFailed(
            "Failed to connect to endpoint".to_string(),
        ))
        .unwrap();
    let a = match step {
        AssemblyStep::Continue(a, FetchAction::FileContainingSymbol(s)) => {
            assert_eq!(s, "b.Bar");
            a
        }
        _ => panic!("expected the next service"),
    };
    let step = a
        .on_event(FetchEvent::Descriptors(vec![blob("bar.proto", &[])]))
        .unwrap();
    match step {
        AssemblyStep::Complete(reg) => {
            assert_eq!(reg.len(), 1);
            assert!(reg.contains_name(&"bar.proto".to_string()));
        }
        _ => panic!("expected completion"),
    }
}

#[test]
fn reflection_service_names_are_discarded() {
    let (a, _) = PoolAssembler::begin();
    let step = a
        .on_event(FetchEvent::Services(vec![
            "grpc.reflection.v1alpha.ServerReflection".to_string(),
            "grpc.reflection.v1.ServerReflection".to_string(),
        ]))
        .unwrap();
    match step {
        AssemblyStep::Complete(reg) => assert_eq!(reg.len(), 0),
        _ => panic!("only reflection services listed: assembly is already complete"),
    }
}

#[test]
fn diamond_dependency_is_fetched_once() {
    let (a, act) = PoolAssembler::begin();
    assert!(matches!(act, FetchAction::ListServices));
    let mut step = a
        .on_event(FetchEvent::Services(vec!["root.Svc".to_string()]))
        .unwrap();
    let mut c_fetches = 0;
    loop {
        match step {
            AssemblyStep::Complete(reg) => {
                assert_eq!(reg.len(), 4);
                assert!(reg.contains_name(&"root.proto".to_string()));
                assert!(reg.contains_name(&"a.proto".to_string()));
                assert!(reg.contains_name(&"b.proto".to_string()));
                assert!(reg.contains_name(&"c.proto".to_string()));
                break;
            }
            AssemblyStep::Continue(a, act) => {
                let ev = match act {
                    FetchAction::FileContainingSymbol(s) => {
                        assert_eq!(s, "root.Svc");
                        FetchEvent::Descriptors(vec![blob(
                            "root.proto",
                            &["a.proto", "b.proto"],
                        )])
                    }
                    FetchAction::FileByFilename(f) => {
                        let deps: &[&str] = if f == "a.proto" || f == "b.proto" {
                            &["c.proto"]
                        } else {
                            assert_eq!(f, "c.proto");
                            c_fetches += 1;
                            &[]
                        };
                        FetchEvent::Descriptors(vec![blob(&f, deps)])
                    }
                    FetchAction::ListServices => unreachable!(),
                };
                step = a.on_event(ev).unwrap();
            }
        }
    }
    assert_eq!(c_fetches, 1);
}

#[test]
fn named_file_fetch_failure_aborts_with_transport_error() {
    let (a, _) = PoolAssembler::begin();
    let step = a
        .on_event(FetchEvent::Services(vec!["x.Svc".to_string()]))
        .unwrap();
    let a = match step {
        AssemblyStep::Continue(a, FetchAction::FileContainingSymbol(_)) => a,
        _ => panic!("expected a per-service fetch"),
    };
    let step = a
        .on_event(FetchEvent::Descriptors(vec![blob("x.proto", &["dep.proto"])]))
        .unwrap();
    let a = match step {
        AssemblyStep::Continue(a, FetchAction::FileByFilename(f)) => {
            assert_eq!(f, "dep.proto");
            a
        }
        _ => panic!("expected a by-filename fetch"),
    };
    // a transport failure outside enumeration aborts with the surfaced error
    match a.on_event(FetchEvent::FetchFailed("Deadline exceeded".to_string())) {
        Err(ResolveError::Transport(msg)) => assert_eq!(msg, "Deadline exceeded"),
        _ => panic!("expected a transport error"),
    }
}

#[test]
fn unknown_response_shape_is_a_protocol_violation() {
    let (a, _) = PoolAssembler::begin();
    let step = a
        .on_event(FetchEvent::Services(vec!["x.Svc".to_string()]))
        .unwrap();
    let a = match step {
        AssemblyStep::Continue(a, FetchAction::FileContainingSymbol(_)) => a,
        _ => panic!("expected a per-service fetch"),
    };
    match a.on_event(FetchEvent::UnexpectedResponse) {
        Err(ResolveError::ProtocolViolation) => {}
        _ => panic!("expected a protocol violation"),
    }
}

#[test]
fn undecodable_blob_in_batch_is_a_decode_error() {
    let (a, _) = PoolAssembler::begin();
    let step = a
        .on_event(FetchEvent::Services(vec!["x.Svc".to_string()]))
        .unwrap();
    let a = match step {
        AssemblyStep::Continue(a, FetchAction::FileContainingSymbol(_)) => a,
        _ => panic!("expected a per-service fetch"),
    };
    let bad = vec![0xffu8, 0xff, 0xff, 0xff];
    match a.on_event(FetchEvent::Descriptors(vec![bad])) {
        Err(ResolveError::Decode(_)) => {}
        _ => panic!("expected a decode error"),
    }
}

#[test]
fn wrong_response_shape_is_a_protocol_violation() {
    let (a, _) = PoolAssembler::begin();
    match a.on_event(FetchEvent::Descriptors(vec![])) {
        Err(ResolveError::ProtocolViolation) => {}
        _ => panic!("expected a protocol violation"),
    }
}

#[test]
fn enumeration_failure_aborts_with_transport_error() {
    let (a, _) = PoolAssembler::begin();
    match a.on_event(FetchEvent::FetchFailed("Deadline exceeded".to_string())) {
        Err(ResolveError::Transport(msg)) => assert_eq!(msg, "Deadline exceeded"),
        _ => panic!("expected a transport error"),
    }
}

#[test]
fn remote_cycle_aborts_with_typed_error() {
    let (a, _) = PoolAssembler::begin();
    let step = a
        .on_event(FetchEvent::Services(vec!["x.Svc".to_string()]))
        .unwrap();
    let a = match step {
        AssemblyStep::Continue(a, FetchAction::FileContainingSymbol(_)) => a,
        _ => panic!("expected a per-service fetch"),
    };
    let r = a.on_event(FetchEvent::Descriptors(vec![
        blob("x.proto", &["y.proto"]),
        blob("y.proto", &["x.proto"]),
    ]));
    match r {
        Err(ResolveError::Cycle(n)) => assert!(n == "x.proto" || n == "y.proto"),
        _ => panic!("expected a cycle error"),
    }
}
