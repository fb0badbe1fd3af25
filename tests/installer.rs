use rtx::installer::{
    install_dir, on_lock_busy, BackendOutcome, InstallError, InstallRoot, LockWait, UninstallError,
};

fn b(s: &str) -> Vec<u8> {
    s.as_bytes().to_vec()
}

#[test]
fn install_publishes_version() {
    let mut root = InstallRoot::new(b("/opt/rtx/installs"));
    assert_eq!(root.begin_install(&b("nodejs"), &b("20.1.0"), 7), Ok(()));
    assert!(!root.is_installed(&b("nodejs"), &b("20.1.0")));
    let iv = root
        .finish_install(&b("nodejs"), &b("20.1.0"), 7, BackendOutcome::Succeeded, 1700)
        .unwrap();
    assert_eq!(iv.install_dir, b("/opt/rtx/installs/nodejs/20.1.0"));
    assert_eq!(iv.plugin, b("nodejs"));
    assert_eq!(iv.version, b("20.1.0"));
    assert_eq!(iv.installed_at, 1700);
    assert!(root.is_installed(&b("nodejs"), &b("20.1.0")));
    assert_eq!(root.installed_versions(&b("nodejs")), vec![b("20.1.0")]);
}

#[test]
fn install_then_uninstall_leaves_nothing() {
    let mut root = InstallRoot::new(b("/r"));
    root.begin_install(&b("python"), &b("3.11"), 1).unwrap();
    root.finish_install(&b("python"), &b("3.11"), 1, BackendOutcome::Succeeded, 5).unwrap();
    assert_eq!(root.uninstall(&b("python"), &b("3.11")), Ok(()));
    assert!(!root.is_installed(&b("python"), &b("3.11")));
    assert!(root.slots.is_empty());
    assert!(root.installed_versions(&b("python")).is_empty());
}

#[test]
fn concurrent_installs_are_serialized() {
    let mut root = InstallRoot::new(b("/r"));
    assert_eq!(root.begin_install(&b("ruby"), &b("3.2"), 1), Ok(()));
    assert_eq!(root.begin_install(&b("ruby"), &b("3.2"), 2), Err(InstallError::AlreadyInstalling));
    assert_eq!(
        root.finish_install(&b("ruby"), &b("3.2"), 2, BackendOutcome::Succeeded, 9).err(),
        Some(InstallError::NotInstalling)
    );
    assert!(!root.is_installed(&b("ruby"), &b("3.2")));
    assert!(root.installed_versions(&b("ruby")).is_empty());
    root.finish_install(&b("ruby"), &b("3.2"), 1, BackendOutcome::Succeeded, 9).unwrap();
    assert_eq!(root.begin_install(&b("ruby"), &b("3.2"), 2), Err(InstallError::AlreadyInstalled));
    assert_eq!(root.slots.len(), 1);
}

#[test]
fn failed_install_discards_staging() {
    let cases = [
        (BackendOutcome::NotFound, InstallError::NotFound),
        (BackendOutcome::NetworkFailure, InstallError::NetworkFailure),
        (BackendOutcome::BuildFailure, InstallError::BuildFailure),
    ];
    for (outcome, error) in cases {
        let mut root = InstallRoot::new(b("/r"));
        root.begin_install(&b("go"), &b("1.21"), 3).unwrap();
        assert_eq!(root.finish_install(&b("go"), &b("1.21"), 3, outcome, 4).err(), Some(error));
        assert!(root.slots.is_empty());
        assert_eq!(root.begin_install(&b("go"), &b("1.21"), 4), Ok(()));
    }
}

#[test]
fn finish_without_begin_is_refused() {
    let mut root = InstallRoot::new(b("/r"));
    assert_eq!(
        root.finish_install(&b("go"), &b("1.21"), 3, BackendOutcome::Succeeded, 4).err(),
        Some(InstallError::NotInstalling)
    );
    assert!(root.slots.is_empty());
}

#[test]
fn uninstall_of_absent_or_staging_version_fails() {
    let mut root = InstallRoot::new(b("/r"));
    assert_eq!(root.uninstall(&b("go"), &b("1.21")), Err(UninstallError::NotInstalled));
    root.begin_install(&b("go"), &b("1.21"), 1).unwrap();
    assert_eq!(root.uninstall(&b("go"), &b("1.21")), Err(UninstallError::NotInstalled));
    assert_eq!(root.slots.len(), 1);
}

#[test]
fn installed_versions_per_plugin() {
    let mut root = InstallRoot::new(b("/r"));
    for (p, v) in [("nodejs", "18"), ("nodejs", "20"), ("python", "3.11")] {
        root.begin_install(&b(p), &b(v), 1).unwrap();
        root.finish_install(&b(p), &b(v), 1, BackendOutcome::Succeeded, 2).unwrap();
    }
    root.begin_install(&b("nodejs"), &b("21"), 1).unwrap();
    assert_eq!(root.installed_versions(&b("nodejs")), vec![b("18"), b("20")]);
    assert_eq!(root.installed_versions(&b("python")), vec![b("3.11")]);
    assert_eq!(install_dir(&b("/r"), &b("a"), &b("1")), b("/r/a/1"));
}

#[test]
fn record_published_loads_disk_state() {
    let mut root = InstallRoot::new(b("/r"));
    root.record_published(&b("nodejs"), &b("18"), 11);
    root.record_published(&b("nodejs"), &b("18"), 99);
    assert!(root.is_installed(&b("nodejs"), &b("18")));
    assert_eq!(root.slots.len(), 1);
    assert_eq!(root.slots[0].installed_at, 11);
    assert_eq!(root.begin_install(&b("nodejs"), &b("18"), 1), Err(InstallError::AlreadyInstalled));
}

#[test]
fn lock_wait_is_bounded() {
    assert_eq!(on_lock_busy(0, 1000, 250), LockWait::RetryAfter(250));
    assert_eq!(on_lock_busy(900, 1000, 250), LockWait::RetryAfter(100));
    assert_eq!(on_lock_busy(1000, 1000, 250), LockWait::GiveUp);
    assert_eq!(on_lock_busy(5, 0, 1), LockWait::GiveUp);
}
