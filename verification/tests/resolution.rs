use nary_lib::{Dependency, Progress, ResolveError, Resolver};

fn dep(name: &str, version: &str) -> Dependency {
    Dependency::new(name, version)
}

fn deps(list: &[(&str, &str)]) -> Vec<Dependency> {
    list.iter().map(|(name, version)| dep(name, version)).collect()
}

/// What the package chosen for `wanted` declares, by a table of
/// (name, constraint, declared).
fn declared_for(wanted: &Dependency, table: &[(&str, &str, Vec<(&str, &str)>)]) -> Vec<Dependency> {
    for (name, version, declared) in table {
        if wanted.name == *name && wanted.version == *version {
            return deps(declared);
        }
    }
    panic!("the table has no entry for {:?}", wanted);
}

/// Runs a resolution against a table, and returns the result with the
/// dependencies that were asked for, in the order of asking.
fn resolve(
    root: &Dependency,
    declared: &Vec<Dependency>,
    table: &[(&str, &str, Vec<(&str, &str)>)],
) -> (Result<Vec<Dependency>, ResolveError>, Vec<Dependency>) {
    let mut resolver = Resolver::new(root, declared);
    let mut asked = Vec::new();
    loop {
        assert!(!resolver.is_awaiting());
        match resolver.step() {
            Progress::Request(wanted) => {
                assert!(resolver.is_awaiting());
                let declared = declared_for(&wanted, table);
                asked.push(wanted);
                resolver.supply(declared);
            }
            Progress::Linked(known) => {
                assert!(known == *root || asked.contains(&known));
            }
            Progress::Unwound => {}
            Progress::Finished => break,
        }
    }
    assert!(resolver.is_complete());
    (resolver.finish(), asked)
}

fn place(list: &[Dependency], name: &str, version: &str) -> usize {
    list.iter()
        .position(|d| d.name == name && d.version == version)
        .unwrap()
}

#[test]
fn root_without_dependencies_is_the_whole_order() {
    let root = dep("root", "1.0.0");
    let (result, asked) = resolve(&root, &vec![], &[]);
    assert_eq!(result.unwrap(), vec![dep("root", "1.0.0")]);
    assert!(asked.is_empty());
}

#[test]
fn chain_is_ordered_dependency_first() {
    let root = dep("root", "1.0.0");
    let table = [
        ("A", "^1.0.0", vec![("B", "^1.0.0")]),
        ("B", "^1.0.0", vec![]),
    ];
    let (result, asked) = resolve(&root, &deps(&[("A", "^1.0.0")]), &table);
    assert_eq!(
        result.unwrap(),
        vec![dep("B", "^1.0.0"), dep("A", "^1.0.0"), dep("root", "1.0.0")]
    );
    assert_eq!(asked, vec![dep("A", "^1.0.0"), dep("B", "^1.0.0")]);
}

#[test]
fn diamond_asks_for_the_shared_dependency_once() {
    let root = dep("root", "1.0.0");
    let table = [
        ("A", "1.0.0", vec![("C", "^1.0.0")]),
        ("B", "1.0.0", vec![("C", "^1.0.0")]),
        ("C", "^1.0.0", vec![]),
    ];
    let (result, asked) = resolve(&root, &deps(&[("A", "1.0.0"), ("B", "1.0.0")]), &table);
    let order = result.unwrap();
    assert_eq!(order.len(), 4);
    assert!(place(&order, "C", "^1.0.0") < place(&order, "A", "1.0.0"));
    assert!(place(&order, "C", "^1.0.0") < place(&order, "B", "1.0.0"));
    assert_eq!(order[3], dep("root", "1.0.0"));
    assert_eq!(
        order,
        vec![dep("C", "^1.0.0"), dep("A", "1.0.0"), dep("B", "1.0.0"), dep("root", "1.0.0")]
    );
    let for_c = asked.iter().filter(|d| d.name == "C").count();
    assert_eq!(for_c, 1);
}

#[test]
fn declared_dependencies_are_visited_last_first() {
    let root = dep("root", "1.0.0");
    let table = [
        ("A", "1.0.0", vec![]),
        ("B", "1.0.0", vec![]),
        ("C", "1.0.0", vec![]),
    ];
    let declared = deps(&[("A", "1.0.0"), ("B", "1.0.0"), ("C", "1.0.0")]);
    let (_, asked) = resolve(&root, &declared, &table);
    assert_eq!(asked, vec![dep("C", "1.0.0"), dep("B", "1.0.0"), dep("A", "1.0.0")]);
}

#[test]
fn same_pair_in_two_branches_is_asked_for_once() {
    let root = dep("root", "1.0.0");
    let table = [
        ("A", "1.0.0", vec![("S", "~2.1.0"), ("T", "*")]),
        ("B", "1.0.0", vec![("S", "~2.1.0")]),
        ("S", "~2.1.0", vec![("T", "*")]),
        ("T", "*", vec![]),
    ];
    let (result, asked) = resolve(&root, &deps(&[("A", "1.0.0"), ("B", "1.0.0")]), &table);
    assert_eq!(result.unwrap().len(), 5);
    assert_eq!(asked.len(), 4);
    for (i, first) in asked.iter().enumerate() {
        for second in &asked[i + 1..] {
            assert_ne!(first, second);
        }
    }
}

#[test]
fn cycle_back_to_the_root_fails() {
    let root = dep("x", "1.0.0");
    let table = [("A", "^1.0.0", vec![("x", "1.0.0")])];
    let (result, asked) = resolve(&root, &deps(&[("A", "^1.0.0")]), &table);
    assert_eq!(asked, vec![dep("A", "^1.0.0")]);
    match result {
        Err(ResolveError::CyclicDependency { dependency }) => {
            assert!(dependency == dep("x", "1.0.0") || dependency == dep("A", "^1.0.0"));
        }
        other => panic!("expected a cycle, got {:?}", other),
    }
}

#[test]
fn cycle_below_the_root_fails() {
    let root = dep("root", "1.0.0");
    let table = [
        ("A", "^1.0.0", vec![("B", "^1.0.0")]),
        ("B", "^1.0.0", vec![("C", "^1.0.0")]),
        ("C", "^1.0.0", vec![("A", "^1.0.0")]),
    ];
    let (result, _) = resolve(&root, &deps(&[("A", "^1.0.0")]), &table);
    match result {
        Err(ResolveError::CyclicDependency { dependency }) => {
            assert!(["A", "B", "C"].contains(&dependency.name.as_str()));
        }
        other => panic!("expected a cycle, got {:?}", other),
    }
}

#[test]
fn package_that_declares_itself_fails() {
    let root = dep("root", "1.0.0");
    let table = [("A", "^1.0.0", vec![("A", "^1.0.0")])];
    let (result, _) = resolve(&root, &deps(&[("A", "^1.0.0")]), &table);
    match result {
        Err(ResolveError::CyclicDependency { dependency }) => {
            assert_eq!(dependency, dep("A", "^1.0.0"));
        }
        other => panic!("expected a cycle, got {:?}", other),
    }
}

#[test]
fn same_name_under_another_constraint_is_another_node() {
    let root = dep("root", "1.0.0");
    let table = [
        ("left-pad", "^1.0.0", vec![]),
        ("left-pad", "^2.0.0", vec![]),
    ];
    let declared = deps(&[("left-pad", "^1.0.0"), ("left-pad", "^2.0.0")]);
    let (result, asked) = resolve(&root, &declared, &table);
    assert_eq!(asked, vec![dep("left-pad", "^2.0.0"), dep("left-pad", "^1.0.0")]);
    let order = result.unwrap();
    assert_eq!(order.len(), 3);
    assert!(order.contains(&dep("left-pad", "^1.0.0")));
    assert!(order.contains(&dep("left-pad", "^2.0.0")));
    assert_eq!(order[2], dep("root", "1.0.0"));
}

#[test]
fn a_cycle_through_the_name_under_another_constraint_is_none() {
    let root = dep("x", "1.0.0");
    let table = [
        ("A", "^1.0.0", vec![("x", "^1.0.0")]),
        ("x", "^1.0.0", vec![]),
    ];
    let (result, asked) = resolve(&root, &deps(&[("A", "^1.0.0")]), &table);
    assert_eq!(asked.len(), 2);
    assert_eq!(
        result.unwrap(),
        vec![dep("x", "^1.0.0"), dep("A", "^1.0.0"), dep("x", "1.0.0")]
    );
}

#[test]
fn same_inputs_give_the_same_order() {
    let root = dep("root", "1.0.0");
    let table = [
        ("A", "1.0.0", vec![("C", "^1.0.0"), ("D", "^1.0.0")]),
        ("B", "1.0.0", vec![("D", "^1.0.0"), ("C", "^1.0.0")]),
        ("C", "^1.0.0", vec![("E", "1")]),
        ("D", "^1.0.0", vec![("E", "1")]),
        ("E", "1", vec![]),
    ];
    let declared = deps(&[("A", "1.0.0"), ("B", "1.0.0")]);
    let (first, asked_first) = resolve(&root, &declared, &table);
    let (second, asked_second) = resolve(&root, &declared, &table);
    assert_eq!(first.unwrap(), second.unwrap());
    assert_eq!(asked_first, asked_second);
}

#[test]
fn every_declaration_is_respected_by_the_order() {
    let root = dep("root", "1.0.0");
    let table: [(&str, &str, Vec<(&str, &str)>); 5] = [
        ("A", "1.0.0", vec![("C", "^1.0.0"), ("D", "^1.0.0")]),
        ("B", "1.0.0", vec![("D", "^1.0.0"), ("C", "^1.0.0")]),
        ("C", "^1.0.0", vec![("E", "1")]),
        ("D", "^1.0.0", vec![("E", "1"), ("C", "^1.0.0")]),
        ("E", "1", vec![]),
    ];
    let declared = deps(&[("A", "1.0.0"), ("B", "1.0.0")]);
    let (result, _) = resolve(&root, &declared, &table);
    let order = result.unwrap();
    assert_eq!(order.len(), 6);
    for (name, version, declared) in &table {
        for (needed, constraint) in declared {
            assert!(place(&order, needed, constraint) < place(&order, name, version));
        }
    }
    for needed in &declared {
        assert!(place(&order, &needed.name, &needed.version) < place(&order, "root", "1.0.0"));
    }
    assert_eq!(order[5], dep("root", "1.0.0"));
}

#[test]
fn a_dependency_declared_twice_by_one_package_gets_one_node() {
    let root = dep("root", "1.0.0");
    let table = [("A", "1.0.0", vec![])];
    let declared = deps(&[("A", "1.0.0"), ("A", "1.0.0")]);
    let (result, asked) = resolve(&root, &declared, &table);
    assert_eq!(asked, vec![dep("A", "1.0.0")]);
    assert_eq!(result.unwrap(), vec![dep("A", "1.0.0"), dep("root", "1.0.0")]);
}

#[test]
fn step_by_step() {
    let root = dep("root", "1.0.0");
    let mut resolver = Resolver::new(&root, &deps(&[("A", "^1.0.0")]));
    assert_eq!(resolver.identities(), 1);
    assert!(!resolver.is_complete());
    match resolver.step() {
        Progress::Request(wanted) => assert_eq!(wanted, dep("A", "^1.0.0")),
        other => panic!("expected a request, got {:?}", other),
    }
    assert_eq!(resolver.identities(), 2);
    assert!(resolver.is_awaiting());
    assert!(!resolver.is_complete());
    resolver.supply(vec![]);
    assert!(!resolver.is_awaiting());
    assert!(matches!(resolver.step(), Progress::Unwound));
    assert!(!resolver.is_complete());
    assert!(matches!(resolver.step(), Progress::Unwound));
    assert!(resolver.is_complete());
    assert!(matches!(resolver.step(), Progress::Finished));
    assert_eq!(resolver.identities(), 2);
}

#[test]
fn dependency_equality_is_by_both_fields() {
    let a = dep("left-pad", "^1.0.0");
    assert!(a.same_as(&dep("left-pad", "^1.0.0")));
    assert!(!a.same_as(&dep("left-pad", "^2.0.0")));
    assert!(!a.same_as(&dep("right-pad", "^1.0.0")));
    let copy = a.clone();
    assert_eq!(copy.name, "left-pad");
    assert_eq!(copy.version, "^1.0.0");
}

#[test]
fn a_dependency_that_was_met_before_is_linked() {
    let root = dep("root", "1.0.0");
    let mut resolver = Resolver::new(&root, &deps(&[("root", "1.0.0"), ("A", "1"), ("A", "1")]));
    match resolver.step() {
        Progress::Request(wanted) => assert_eq!(wanted, dep("A", "1")),
        other => panic!("expected a request, got {:?}", other),
    }
    resolver.supply(vec![]);
    assert!(matches!(resolver.step(), Progress::Unwound));
    match resolver.step() {
        Progress::Linked(known) => assert_eq!(known, dep("A", "1")),
        other => panic!("expected a link, got {:?}", other),
    }
    match resolver.step() {
        Progress::Linked(known) => assert_eq!(known, dep("root", "1.0.0")),
        other => panic!("expected a link, got {:?}", other),
    }
    assert_eq!(resolver.identities(), 2);
    assert!(matches!(resolver.step(), Progress::Unwound));
    assert!(matches!(resolver.step(), Progress::Finished));
    match resolver.finish() {
        Err(ResolveError::CyclicDependency { dependency }) => {
            assert_eq!(dependency, dep("root", "1.0.0"))
        }
        other => panic!("expected a cycle, got {:?}", other),
    }
}
