use rtx::doctor::{Doctor, Problem};
use rtx::registry::{Capabilities, Plugin, Registry};

fn plugin(name: &str, present: bool) -> Plugin {
    Plugin {
        name: name.as_bytes().to_vec(),
        source: format!("https://example.com/{}.git", name).into_bytes(),
        capabilities: Capabilities { list_remote: true, install: true, uninstall: true },
        backend_present: present,
    }
}

#[test]
fn test_doctor() {
    let args = vec!["rtx", "doctor"]
        .into_iter()
        .map(String::from)
        .collect::<Vec<String>>();
    assert_eq!(args[1], "doctor");
    let registry = Registry::new(vec![plugin("nodejs", true)]);
    let _ = Doctor {}.run(&registry, true);
}

#[test]
fn doctor_healthy_install_has_no_problem() {
    let registry = Registry::new(vec![plugin("nodejs", true), plugin("python", true)]);
    assert_eq!(Doctor {}.run(&registry, true), Ok(()));
    assert!(Doctor {}.checks(registry.list_plugins(), true).is_empty());
}

#[test]
fn doctor_reports_missing_plugins_and_hook() {
    let registry = Registry::new(vec![
        plugin("nodejs", false),
        plugin("python", true),
        plugin("ruby", false),
    ]);
    let checks = Doctor {}.checks(registry.list_plugins(), false);
    assert_eq!(checks.len(), 3);
    assert!(matches!(&checks[0], Problem::PluginNotInstalled(n) if n == b"nodejs"));
    assert!(matches!(&checks[1], Problem::PluginNotInstalled(n) if n == b"ruby"));
    assert!(matches!(&checks[2], Problem::NotActivated));
    assert_eq!(Doctor {}.run(&registry, false), Err(3));
}

#[test]
fn doctor_reports_inactive_hook_alone() {
    let registry = Registry::new(vec![plugin("nodejs", true)]);
    assert_eq!(Doctor {}.run(&registry, false), Err(1));
}

#[test]
fn registry_is_installed_follows_backend() {
    let registry = Registry::new(vec![plugin("nodejs", false), plugin("python", true)]);
    assert!(!registry.is_installed(&b"nodejs".to_vec()));
    assert!(registry.is_installed(&b"python".to_vec()));
    assert!(!registry.is_installed(&b"ruby".to_vec()));
    assert_eq!(registry.list_plugins().len(), 2);
    assert!(!registry.list_plugins()[0].is_installed());
    assert!(registry.list_plugins()[1].is_installed());
}
