use depresolve::env::{package_spec, EnvError, PythonEnvManager, ScriptLayout};

fn parts(v: &[&str]) -> Vec<String> {
    v.iter().map(|s| s.to_string()).collect()
}

#[test]
fn pip_path_on_posix() {
    let m = PythonEnvManager::new(parts(&["base"]), ScriptLayout::Posix);
    let pip = m.get_pip_path(&parts(&["base", "proj", ".venv"]));
    assert_eq!(pip, parts(&["base", "proj", ".venv", "bin", "pip"]));
}

#[test]
fn pip_path_on_windows() {
    let m = PythonEnvManager::new(parts(&["C:", "envs"]), ScriptLayout::Windows);
    let pip = m.get_pip_path(&parts(&["C:", "envs", "proj", ".venv"]));
    assert_eq!(pip, parts(&["C:", "envs", "proj", ".venv", "Scripts", "pip.exe"]));
}

#[test]
fn venv_path_under_base() {
    let m = PythonEnvManager::new(parts(&[".", "python_project"]), ScriptLayout::Posix);
    let v = m.venv_path(&"my_first_project".to_string());
    assert_eq!(v, parts(&[".", "python_project", "my_first_project", ".venv"]));
}

#[test]
fn requirements_file_beside_venv() {
    let m = PythonEnvManager::new(parts(&["base"]), ScriptLayout::Posix);
    let r = m.requirements_path(&parts(&["base", "proj", ".venv"])).unwrap();
    assert_eq!(r, parts(&["base", "proj", "requirements.txt"]));
}

#[test]
fn requirements_file_needs_a_parent() {
    let m = PythonEnvManager::new(parts(&["base"]), ScriptLayout::Posix);
    match m.requirements_path(&Vec::new()) {
        Err(e) => {
            assert!(matches!(e, EnvError::PathError(_)));
            assert_eq!(e.message(), "Error with path: Error getting the parent path");
        }
        Ok(p) => panic!("expected an error, got {:?}", p),
    }
}

#[test]
fn pinned_and_unpinned_specs() {
    let v = "2.31.0".to_string();
    assert_eq!(package_spec(&"requests".to_string(), Some(&v)), "requests==2.31.0");
    assert_eq!(package_spec(&"flask".to_string(), None), "flask");
}

#[test]
fn error_messages_carry_detail() {
    let e = EnvError::VenvCreationError("no python".to_string());
    assert_eq!(e.message(), "Error creating virtual environment: no python");
    let e = EnvError::PipInstallError("timeout".to_string());
    assert_eq!(e.message(), "Error installing package: timeout");
}

#[test]
fn recorded_packages_are_in_the_catalog() {
    let mut m = PythonEnvManager::new(parts(&["base"]), ScriptLayout::Posix);
    m.record_package(depresolve::package::Package::new(
        "flask".to_string(),
        "3.0".to_string(),
        vec![],
    ));
    assert_eq!(m.registry().lookup(&"flask".to_string()).unwrap().version, "3.0");
}

#[test]
fn install_plan_pins_versions_in_order() {
    let mut m = PythonEnvManager::new(parts(&["base"]), ScriptLayout::Posix);
    let p = |n: &str, v: &str, d: &[&str]| {
        depresolve::package::Package::new(n.to_string(), v.to_string(), parts(d))
    };
    m.record_package(p("flask", "3.0.0", &["jinja2"]));
    m.record_package(p("jinja2", "3.1.2", &["markupsafe"]));
    m.record_package(p("markupsafe", "2.1.3", &[]));
    let plan = m.install_plan(&"flask".to_string()).unwrap();
    assert_eq!(plan, parts(&["markupsafe==2.1.3", "jinja2==3.1.2", "flask==3.0.0"]));
}

#[test]
fn install_plan_reports_missing_package() {
    let mut m = PythonEnvManager::new(parts(&["base"]), ScriptLayout::Posix);
    m.record_package(depresolve::package::Package::new(
        "flask".to_string(),
        "3.0.0".to_string(),
        parts(&["click"]),
    ));
    assert!(m.install_plan(&"flask".to_string()).is_err());
}

#[test]
fn root_directory_has_no_parent() {
    let m = PythonEnvManager::new(parts(&["/"]), ScriptLayout::Posix);
    match m.requirements_path(&parts(&["/"])) {
        Err(EnvError::PathError(d)) => assert_eq!(d, "Error getting the parent path"),
        other => panic!("expected PathError, got {:?}", other),
    }
}

#[test]
fn windows_drive_root_has_no_parent() {
    let m = PythonEnvManager::new(parts(&["C:", "\\"]), ScriptLayout::Windows);
    assert!(matches!(
        m.requirements_path(&parts(&["C:", "\\"])),
        Err(EnvError::PathError(_))
    ));
    assert!(matches!(m.requirements_path(&parts(&["C:"])), Err(EnvError::PathError(_))));
}

#[test]
fn absolute_venv_keeps_its_root() {
    let m = PythonEnvManager::new(parts(&["/"]), ScriptLayout::Posix);
    let r = m.requirements_path(&parts(&["/", "proj", ".venv"])).unwrap();
    assert_eq!(r, parts(&["/", "proj", "requirements.txt"]));
}

#[test]
fn windows_venv_beside_requirements() {
    let m = PythonEnvManager::new(parts(&["C:", "\\"]), ScriptLayout::Windows);
    let r = m.requirements_path(&parts(&["C:", "\\", "proj", ".venv"])).unwrap();
    assert_eq!(r, parts(&["C:", "\\", "proj", "requirements.txt"]));
}

#[test]
fn relative_single_component_has_empty_parent() {
    let m = PythonEnvManager::new(parts(&["base"]), ScriptLayout::Posix);
    let r = m.requirements_path(&parts(&[".venv"])).unwrap();
    assert_eq!(r, parts(&["requirements.txt"]));
}
