use depresolve::package::Package;
use depresolve::registry::Registry;
use depresolve::resolver::{resolve, ResolutionError};

fn pkg(name: &str, deps: &[&str]) -> Package {
    Package::new(
        name.to_string(),
        "1.0".to_string(),
        deps.iter().map(|d| d.to_string()).collect(),
    )
}

fn registry_of(pkgs: Vec<Package>) -> Registry {
    let mut r = Registry::new();
    for p in pkgs {
        r.insert(p);
    }
    r
}

fn position(order: &[String], name: &str) -> usize {
    order.iter().position(|n| n == name).unwrap()
}

fn flask_registry() -> Registry {
    registry_of(vec![
        pkg("flask", &["werkzeug", "jinja2"]),
        pkg("werkzeug", &[]),
        pkg("jinja2", &["markupsafe"]),
        pkg("markupsafe", &[]),
    ])
}

#[test]
fn flask_resolves_in_install_order() {
    let reg = flask_registry();
    let order = resolve(&reg, &"flask".to_string()).unwrap();
    assert_eq!(order.len(), 4);
    let f = position(&order, "flask");
    let j = position(&order, "jinja2");
    let w = position(&order, "werkzeug");
    let m = position(&order, "markupsafe");
    assert!(m < j);
    assert!(j < f);
    assert!(w < f);
    assert_eq!(f, 3);
}

#[test]
fn two_package_cycle_is_reported() {
    let reg = registry_of(vec![pkg("A", &["B"]), pkg("B", &["A"])]);
    match resolve(&reg, &"A".to_string()) {
        Err(ResolutionError::CyclicDependency(path)) => {
            assert!(path.len() >= 2);
            assert_eq!(path.first(), path.last());
            assert!(path.contains(&"A".to_string()));
            assert!(path.contains(&"B".to_string()));
        }
        other => panic!("expected a cycle, got {:?}", other),
    }
}

#[test]
fn self_dependency_is_a_cycle() {
    let reg = registry_of(vec![pkg("loop", &["loop"])]);
    match resolve(&reg, &"loop".to_string()) {
        Err(ResolutionError::CyclicDependency(path)) => {
            assert_eq!(path, vec!["loop".to_string(), "loop".to_string()]);
        }
        other => panic!("expected a cycle, got {:?}", other),
    }
}

#[test]
fn cycle_below_the_root_is_reported() {
    let reg = registry_of(vec![pkg("app", &["x"]), pkg("x", &["y"]), pkg("y", &["x"])]);
    match resolve(&reg, &"app".to_string()) {
        Err(ResolutionError::CyclicDependency(path)) => {
            assert_eq!(path, vec!["x".to_string(), "y".to_string(), "x".to_string()]);
        }
        other => panic!("expected a cycle, got {:?}", other),
    }
}

#[test]
fn missing_root_in_empty_registry() {
    let reg = Registry::new();
    match resolve(&reg, &"ghost".to_string()) {
        Err(ResolutionError::PackageNotFound(name)) => assert_eq!(name, "ghost"),
        other => panic!("expected PackageNotFound, got {:?}", other),
    }
}

#[test]
fn missing_dependency_is_named() {
    let reg = registry_of(vec![pkg("a", &["b"]), pkg("b", &["c"])]);
    match resolve(&reg, &"a".to_string()) {
        Err(ResolutionError::PackageNotFound(name)) => assert_eq!(name, "c"),
        other => panic!("expected PackageNotFound, got {:?}", other),
    }
}

#[test]
fn empty_root_is_not_found() {
    let reg = registry_of(vec![pkg("", &[])]);
    match resolve(&reg, &String::new()) {
        Err(ResolutionError::PackageNotFound(name)) => assert_eq!(name, ""),
        other => panic!("expected PackageNotFound, got {:?}", other),
    }
}

#[test]
fn diamond_lists_shared_dependency_once() {
    let reg = registry_of(vec![
        pkg("top", &["left", "right"]),
        pkg("left", &["base"]),
        pkg("right", &["base"]),
        pkg("base", &[]),
    ]);
    let order = resolve(&reg, &"top".to_string()).unwrap();
    assert_eq!(order, vec!["base", "left", "right", "top"]);
}

#[test]
fn closure_leaves_out_unreachable_packages() {
    let reg = registry_of(vec![
        pkg("a", &["b"]),
        pkg("b", &[]),
        pkg("unrelated", &["a"]),
    ]);
    let order = resolve(&reg, &"a".to_string()).unwrap();
    assert_eq!(order, vec!["b", "a"]);
}

#[test]
fn leaf_resolves_to_itself() {
    let reg = registry_of(vec![pkg("solo", &[])]);
    assert_eq!(resolve(&reg, &"solo".to_string()).unwrap(), vec!["solo"]);
}

#[test]
fn repeated_dependency_names_are_listed_once() {
    let reg = registry_of(vec![pkg("a", &["b", "b"]), pkg("b", &[])]);
    assert_eq!(resolve(&reg, &"a".to_string()).unwrap(), vec!["b", "a"]);
}
