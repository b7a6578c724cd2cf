use depresolve::package::Package;
use depresolve::registry::Registry;

fn pkg(name: &str, version: &str, deps: &[&str]) -> Package {
    Package::new(
        name.to_string(),
        version.to_string(),
        deps.iter().map(|d| d.to_string()).collect(),
    )
}

fn summary(reg: &Registry) -> Vec<(String, String, Vec<String>)> {
    let mut v: Vec<(String, String, Vec<String>)> = reg
        .save()
        .into_iter()
        .map(|p| (p.name, p.version, p.dependencies))
        .collect();
    v.sort();
    v
}

#[test]
fn insert_then_lookup() {
    let mut reg = Registry::new();
    reg.insert(pkg("flask", "3.0", &["werkzeug"]));
    let p = reg.lookup(&"flask".to_string()).unwrap();
    assert_eq!(p.version, "3.0");
    assert_eq!(p.dependencies, vec!["werkzeug".to_string()]);
    assert!(reg.lookup(&"django".to_string()).is_none());
}

#[test]
fn insert_same_name_overwrites() {
    let mut reg = Registry::new();
    reg.insert(pkg("flask", "2.0", &[]));
    reg.insert(pkg("flask", "3.0", &["click"]));
    assert_eq!(reg.len(), 1);
    let p = reg.lookup(&"flask".to_string()).unwrap();
    assert_eq!(p.version, "3.0");
    assert_eq!(p.dependencies, vec!["click".to_string()]);
}

#[test]
fn save_then_load_round_trip() {
    let mut reg = Registry::new();
    reg.insert(pkg("flask", "3.0", &["werkzeug", "jinja2"]));
    reg.insert(pkg("werkzeug", "3.0.1", &[]));
    reg.insert(pkg("jinja2", "3.1", &["markupsafe"]));
    reg.insert(pkg("markupsafe", "2.1", &[]));
    let saved = reg.save();
    assert_eq!(saved.len(), 4);
    let mut fresh = Registry::new();
    fresh.load(&saved);
    assert_eq!(summary(&fresh), summary(&reg));
}

#[test]
fn load_keeps_last_record_of_a_name() {
    let mut reg = Registry::new();
    reg.load(&vec![pkg("a", "1", &[]), pkg("b", "1", &[]), pkg("a", "2", &["b"])]);
    assert_eq!(reg.len(), 2);
    assert_eq!(reg.lookup(&"a".to_string()).unwrap().version, "2");
}

#[test]
fn empty_registry_saves_nothing() {
    let reg = Registry::new();
    assert!(reg.save().is_empty());
    assert_eq!(reg.len(), 0);
}

#[test]
fn duplicate_copies_every_field() {
    let p = pkg("jinja2", "3.1", &["markupsafe"]);
    let q = p.duplicate();
    assert_eq!(q.name, "jinja2");
    assert_eq!(q.version, "3.1");
    assert_eq!(q.dependencies, vec!["markupsafe".to_string()]);
}
