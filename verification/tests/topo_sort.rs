use yaak_grpc::topo::SimpleTopoSort;
use yaak_grpc::topo::SimpleTopoSortIter;

#[test]
fn test_sort() {
    {
        let mut topo_sort = SimpleTopoSort::new();
        topo_sort.insert("a".to_string(), vec![]);

        let mut iter = SimpleTopoSortIter::new(topo_sort);
        while let Some(node) = iter.next() {
            match node {
                Ok(n) => assert_eq!(n, "a"),
                Err(e) => panic!("err {}", e.node),
            }
        }
    }

    {
        let mut topo_sort = SimpleTopoSort::new();
        topo_sort.insert("a".to_string(), vec!["b".to_string()]);
        topo_sort.insert("b".to_string(), vec![]);

        let mut iter = SimpleTopoSortIter::new(topo_sort);
        match iter.next() {
            Some(Ok(n)) => assert_eq!(n, "b"),
            _ => panic!("err"),
        }
        match iter.next() {
            Some(Ok(n)) => assert_eq!(n, "a"),
            _ => panic!("err"),
        }
        assert_eq!(iter.next(), None);
    }
}

#[test]
fn dependencies_yielded_before_dependents() {
    let mut ts = SimpleTopoSort::new();
    ts.insert(
        "root".to_string(),
        vec!["left".to_string(), "right".to_string()],
    );
    ts.insert("left".to_string(), vec!["base".to_string()]);
    ts.insert("right".to_string(), vec!["base".to_string()]);
    ts.insert("base".to_string(), vec![]);
    let order = ts.drain().expect("acyclic graph must drain");
    assert_eq!(order.len(), 4);
    let pos = |n: &str| order.iter().position(|x| x == n).unwrap();
    assert!(pos("base") < pos("left"));
    assert!(pos("base") < pos("right"));
    assert!(pos("left") < pos("root"));
    assert!(pos("right") < pos("root"));
}

#[test]
fn dangling_dependency_yielded_first() {
    let mut ts = SimpleTopoSort::new();
    ts.insert("a".to_string(), vec!["outside".to_string()]);
    let order = ts.drain().expect("acyclic graph must drain");
    assert_eq!(order, vec!["outside".to_string(), "a".to_string()]);
}

#[test]
fn cycle_is_reported_not_looped_on() {
    let mut ts = SimpleTopoSort::new();
    ts.insert("a".to_string(), vec!["b".to_string()]);
    ts.insert("b".to_string(), vec!["a".to_string()]);
    let r = ts.drain();
    let e = r.expect_err("cycle must be reported");
    assert!(e.node == "a" || e.node == "b");
}

#[test]
fn self_dependency_is_a_cycle() {
    let mut ts = SimpleTopoSort::new();
    ts.insert("a".to_string(), vec!["a".to_string()]);
    assert!(ts.drain().is_err());
}

#[test]
fn iterator_reports_cycle_after_ready_names() {
    let mut ts = SimpleTopoSort::new();
    ts.insert("ok".to_string(), vec![]);
    ts.insert("x".to_string(), vec!["y".to_string()]);
    ts.insert("y".to_string(), vec!["x".to_string()]);
    let mut iter = SimpleTopoSortIter::new(ts);
    match iter.next() {
        Some(Ok(n)) => assert_eq!(n, "ok"),
        _ => panic!("expected the dependency-free node first"),
    }
    match iter.next() {
        Some(Err(e)) => assert!(e.node == "x" || e.node == "y"),
        _ => panic!("expected a cycle signal"),
    }
}

#[test]
fn empty_graph_drains_to_nothing() {
    let ts = SimpleTopoSort::new();
    assert_eq!(ts.drain().unwrap(), Vec::<String>::new());
}

#[test]
fn repeated_insert_merges_dependencies() {
    let mut ts = SimpleTopoSort::new();
    ts.insert("a".to_string(), vec!["b".to_string()]);
    ts.insert("a".to_string(), vec!["c".to_string()]);
    ts.insert("b".to_string(), vec![]);
    ts.insert("c".to_string(), vec![]);
    let order = ts.drain().expect("acyclic graph must drain");
    let pos = |n: &str| order.iter().position(|x| x == n).unwrap();
    assert_eq!(order.len(), 3);
    assert!(pos("b") < pos("a"));
    assert!(pos("c") < pos("a"));
}
