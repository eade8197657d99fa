use yaak_grpc::errors::ResolveError;
use yaak_grpc::registry::FileSchemaUnit;
use yaak_grpc::registry::SchemaRegistry;

fn unit(name: &str, deps: &[&str]) -> FileSchemaUnit {
    FileSchemaUnit {
        name: name.to_string(),
        dependency: deps.iter().map(|d| d.to_string()).collect(),
        content: name.as_bytes().to_vec(),
    }
}

#[test]
fn insert_is_idempotent() {
    let mut reg = SchemaRegistry::new();
    reg.insert(unit("a.proto", &[])).unwrap();
    assert_eq!(reg.len(), 1);
    let before = reg.get(&"a.proto".to_string()).unwrap().content.clone();
    // a second insertion under the same name is a no-op, never an error
    let mut other = unit("a.proto", &[]);
    other.content = vec![9, 9, 9];
    reg.insert(other).unwrap();
    assert_eq!(reg.len(), 1);
    let after = reg.get(&"a.proto".to_string()).unwrap().content.clone();
    assert_eq!(before, after);
}

#[test]
fn insert_with_absent_dependency_is_rejected() {
    let mut reg = SchemaRegistry::new();
    let r = reg.insert(unit("a.proto", &["missing.proto"]));
    match r {
        Err(ResolveError::MissingDependency(d)) => assert_eq!(d, "missing.proto"),
        _ => panic!("expected a missing-dependency rejection"),
    }
    assert_eq!(reg.len(), 0);
    assert!(!reg.contains_name(&"a.proto".to_string()));
}

#[test]
fn insert_accepts_unit_once_dependencies_present() {
    let mut reg = SchemaRegistry::new();
    reg.insert(unit("base.proto", &[])).unwrap();
    reg.insert(unit("mid.proto", &["base.proto"])).unwrap();
    reg.insert(unit("top.proto", &["mid.proto", "base.proto"]))
        .unwrap();
    assert_eq!(reg.len(), 3);
    assert!(reg.contains_name(&"top.proto".to_string()));
    assert_eq!(reg.units().len(), 3);
}
