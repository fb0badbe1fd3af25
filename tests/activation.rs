use rtx::activation::{bin_dir, project};
use rtx::installer::{BackendOutcome, InstallRoot};
use rtx::pinfile::PinEntry;
use rtx::registry::{Capabilities, Plugin, Registry};
use rtx::resolve::resolve;

fn b(s: &str) -> Vec<u8> {
    s.as_bytes().to_vec()
}

fn entry(tool: &str, versions: &[&str]) -> PinEntry {
    PinEntry { tool: b(tool), versions: versions.iter().map(|v| b(v)).collect() }
}

fn plugin(name: &str, present: bool) -> Plugin {
    Plugin {
        name: b(name),
        source: b(name),
        capabilities: Capabilities { list_remote: false, install: true, uninstall: true },
        backend_present: present,
    }
}

fn installed(pairs: &[(&str, &str)]) -> InstallRoot {
    let mut root = InstallRoot::new(b("/i"));
    for (p, v) in pairs {
        root.begin_install(&b(p), &b(v), 1).unwrap();
        root.finish_install(&b(p), &b(v), 1, BackendOutcome::Succeeded, 1).unwrap();
    }
    root
}

#[test]
fn projection_prepends_bin_dirs() {
    let dirs = vec![vec![entry("nodejs", &["21", "20"])], vec![entry("python", &["3.11"])]];
    let pins = resolve(&dirs, &vec![]);
    let registry = Registry::new(vec![plugin("nodejs", true), plugin("python", true)]);
    let root = installed(&[("nodejs", "20"), ("python", "3.11")]);
    let state = project(&pins, &registry, &root, &vec![b("/usr/bin")]);
    assert_eq!(state.path, vec![b("/i/nodejs/20/bin"), b("/i/python/3.11/bin"), b("/usr/bin")]);
    assert_eq!(state.activated.len(), 2);
    assert_eq!(state.activated[0].version, b("20"));
    assert!(state.missing.is_empty());
}

#[test]
fn unresolved_tool_is_omitted() {
    let pins = resolve(&vec![vec![entry("nodejs", &["20"])]], &vec![]);
    let registry = Registry::new(vec![plugin("nodejs", true), plugin("ruby", true)]);
    let root = installed(&[("nodejs", "20"), ("ruby", "3.2")]);
    let state = project(&pins, &registry, &root, &vec![]);
    assert!(state.activated.iter().all(|a| a.tool != b("ruby")));
    assert!(state.missing.is_empty());
    assert_eq!(state.path, vec![b("/i/nodejs/20/bin")]);
}

#[test]
fn system_marker_keeps_prior_path() {
    let pins = resolve(&vec![vec![entry("python", &["system", "3.11"])]], &vec![]);
    let registry = Registry::new(vec![plugin("python", true)]);
    let root = installed(&[("python", "3.11")]);
    let state = project(&pins, &registry, &root, &vec![b("/usr/bin")]);
    assert!(state.activated.is_empty());
    assert!(state.missing.is_empty());
    assert_eq!(state.path, vec![b("/usr/bin")]);
}

#[test]
fn missing_version_is_reported() {
    let pins = resolve(&vec![vec![entry("go", &["1.22"])]], &vec![]);
    let registry = Registry::new(vec![plugin("go", true)]);
    let root = installed(&[("go", "1.21")]);
    let state = project(&pins, &registry, &root, &vec![b("/bin")]);
    assert_eq!(state.missing, vec![b("go")]);
    assert_eq!(state.path, vec![b("/bin")]);
}

#[test]
fn broken_plugin_does_not_block_others() {
    let pins = resolve(&vec![vec![entry("nodejs", &["20"]), entry("python", &["3.11"])]], &vec![]);
    let registry = Registry::new(vec![plugin("nodejs", false), plugin("python", true)]);
    let root = installed(&[("nodejs", "20"), ("python", "3.11")]);
    assert!(!registry.is_installed(&b("nodejs")));
    let state = project(&pins, &registry, &root, &vec![]);
    assert_eq!(state.missing, vec![b("nodejs")]);
    assert_eq!(state.path, vec![b("/i/python/3.11/bin")]);
}

#[test]
fn bin_dir_layout() {
    assert_eq!(bin_dir(&b("/root"), &b("ruby"), &b("3.2.0")), b("/root/ruby/3.2.0/bin"));
}
