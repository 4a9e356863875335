use nvwrap::paths::{backup_path, is_system_path, original_path, path_is_backup};

#[test]
fn backup_path_without_extension_appends_bak() {
    assert_eq!(backup_path("/tmp/app"), "/tmp/app.bak");
}

#[test]
fn backup_path_with_extension_keeps_it() {
    assert_eq!(backup_path("/tmp/archive.tar"), "/tmp/archive.tar.bak");
}

#[test]
fn backup_path_of_backup_is_itself() {
    assert_eq!(backup_path("/tmp/app.bak"), "/tmp/app.bak");
}

#[test]
fn backup_path_of_hidden_file() {
    assert_eq!(backup_path("/home/u/.bashrc"), "/home/u/.bashrc.bak");
}

#[test]
fn original_path_strips_trailing_bak_only() {
    assert_eq!(original_path("/tmp/app.bak"), "/tmp/app");
    assert_eq!(original_path("/tmp/archive.tar.bak"), "/tmp/archive.tar");
}

#[test]
fn original_path_of_plain_path_is_itself() {
    assert_eq!(original_path("/tmp/app"), "/tmp/app");
    assert_eq!(original_path("/tmp/archive.tar"), "/tmp/archive.tar");
}

#[test]
fn classifier_round_trip() {
    // original_path(backup_path(p)) == p for paths not already in backup form
    for p in ["/tmp/app", "/tmp/archive.tar", "/home/u/.bashrc", "a", "/opt/x y/z-1.2"] {
        assert_eq!(original_path(&backup_path(p)), p);
    }
}

#[test]
fn bak_named_file_is_not_a_backup() {
    // a component named exactly `.bak` has no stem, so it is not in backup form
    assert!(!path_is_backup("/tmp/.bak"));
    assert!(path_is_backup("/tmp/a.bak"));
    assert!(!path_is_backup("/tmp/bak"));
}

#[test]
fn system_paths_are_recognised() {
    assert!(is_system_path("/usr/bin/ls"));
    assert!(is_system_path("/bin/sh"));
    assert!(is_system_path("/sbin/init"));
    assert!(!is_system_path("/home/user/game"));
    assert!(!is_system_path("/opt/app"));
}
