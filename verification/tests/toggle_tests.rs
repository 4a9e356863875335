use nvwrap::fsmodel::{SimFs, SimNode};
use nvwrap::slug::generate_wrapper_name;
use nvwrap::toggle::{create_wrapper, execute, revert_changes, wrapper_script, ToggleError};

const SCRIPT_FOR_TMP_APP: &str = "#!/bin/bash\n\
export __NV_PRIME_RENDER_OFFLOAD=1\n\
export __GLX_VENDOR_LIBRARY_NAME=nvidia\n\
export __VK_LAYER_NV_optimus=NVIDIA_only\n\
exec \"/tmp/app.bak\" \"$@\"\n";

fn file(mode: u32, content: &str) -> SimNode {
    SimNode::File {
        mode,
        content: String::from(content),
    }
}

#[test]
fn wrapper_script_execs_the_backup() {
    let script = wrapper_script("/tmp/app");
    assert_eq!(script, SCRIPT_FOR_TMP_APP);
    assert!(script.ends_with("exec \"/tmp/app.bak\" \"$@\"\n"));
}

#[test]
fn end_to_end_toggle_scenario() {
    let mut fs = SimFs::new();
    fs.set_node("/wrap", SimNode::Dir);
    fs.set_node("/tmp/app", file(0o755, "X"));

    // first toggle installs: reports false
    assert_eq!(execute(&mut fs, "/wrap", "/tmp/app"), Ok(false));
    // the backup holds the original content and mode
    assert_eq!(fs.file_content("/tmp/app.bak"), Some(String::from("X")));
    assert_eq!(fs.file_mode("/tmp/app.bak"), Some(0o755));
    // the target is now a symlink into the wrapper directory
    let wrapper = "/wrap/wrapper__2ftmp_2fapp";
    assert_eq!(fs.link_dest("/tmp/app"), Some(String::from(wrapper)));
    // the wrapper script is executable and execs the backup
    assert_eq!(fs.file_mode(wrapper), Some(0o755));
    let script = fs.file_content(wrapper).unwrap();
    assert_eq!(script, SCRIPT_FOR_TMP_APP);

    // second toggle reverts: reports true
    assert_eq!(execute(&mut fs, "/wrap", "/tmp/app"), Ok(true));
    assert_eq!(fs.file_content("/tmp/app"), Some(String::from("X")));
    assert_eq!(fs.file_mode("/tmp/app"), Some(0o755));
    assert!(!fs.path_exists("/tmp/app.bak"));
    assert!(!fs.path_exists(wrapper));
}

#[test]
fn state_oracle_for_install_and_revert() {
    let mut fs = SimFs::new();
    fs.set_node("/tmp/app", file(0o700, "X"));
    let name = generate_wrapper_name("/tmp/app");

    assert_eq!(create_wrapper(&mut fs, "/tmp/app", "/wrap", &name), Ok(()));
    // after install: the backup path exists and the target is a symlink
    assert!(fs.path_exists("/tmp/app.bak"));
    assert!(fs.link_dest("/tmp/app").is_some());

    assert_eq!(revert_changes(&mut fs, "/tmp/app", "/wrap", &name), Ok(()));
    // after revert: the backup path is gone and the target is a regular
    // file with its original mode and content; the script is gone too
    assert!(!fs.path_exists("/tmp/app.bak"));
    assert_eq!(fs.file_mode("/tmp/app"), Some(0o700));
    assert_eq!(fs.file_content("/tmp/app"), Some(String::from("X")));
    assert!(!fs.path_exists(&format!("/wrap/{name}")));
}

#[test]
fn toggle_of_missing_path_reports_path_not_found() {
    let mut fs = SimFs::new();
    assert_eq!(
        execute(&mut fs, "/wrap", "/tmp/missing"),
        Err(ToggleError::PathNotFound)
    );
}

#[test]
fn toggling_a_backup_path_reverts_its_original() {
    let mut fs = SimFs::new();
    fs.set_node("/tmp/app", file(0o755, "X"));
    assert_eq!(execute(&mut fs, "/wrap", "/tmp/app"), Ok(false));
    // toggling the backup path itself reverts the wrapped original
    assert_eq!(execute(&mut fs, "/wrap", "/tmp/app.bak"), Ok(true));
    assert_eq!(fs.file_content("/tmp/app"), Some(String::from("X")));
    assert!(!fs.path_exists("/tmp/app.bak"));
}

#[test]
fn revert_without_backup_fails_and_mutates_nothing() {
    let mut fs = SimFs::new();
    fs.set_node("/tmp/app", file(0o755, "X"));
    let r = revert_changes(&mut fs, "/tmp/app", "/wrap", "wrapper__2ftmp_2fapp");
    assert_eq!(r, Err(ToggleError::NoBackupFound));
    // nothing changed
    assert_eq!(fs.file_content("/tmp/app"), Some(String::from("X")));
    assert_eq!(fs.file_mode("/tmp/app"), Some(0o755));
    assert!(!fs.path_exists("/tmp/app.bak"));
    assert!(!fs.path_exists("/wrap/wrapper__2ftmp_2fapp"));
}

#[test]
fn revert_with_backup_but_no_symlink_reports_io_failure() {
    let mut fs = SimFs::new();
    // only the backup exists; removing the symlink at the original
    // location is the first step and it fails
    fs.set_node("/tmp/app.bak", file(0o755, "X"));
    assert_eq!(
        execute(&mut fs, "/wrap", "/tmp/app.bak"),
        Err(ToggleError::IoFailure)
    );
    // the backup is untouched
    assert_eq!(fs.file_content("/tmp/app.bak"), Some(String::from("X")));
}

#[test]
fn install_refuses_a_directory_at_the_wrapper_path() {
    let mut fs = SimFs::new();
    fs.set_node("/tmp/app", file(0o755, "X"));
    fs.set_node("/wrap/wrapper__2ftmp_2fapp", SimNode::Dir);
    assert_eq!(
        execute(&mut fs, "/wrap", "/tmp/app"),
        Err(ToggleError::IoFailure)
    );
    // the failed install mutated nothing
    assert_eq!(fs.file_content("/tmp/app"), Some(String::from("X")));
    assert!(!fs.path_exists("/tmp/app.bak"));
}

#[test]
fn error_messages_name_the_failure() {
    assert_eq!(
        ToggleError::NoBackupFound.message(),
        "no backup found, cannot revert changes"
    );
    assert_eq!(ToggleError::PathNotFound.message(), "path does not exist");
}

#[test]
fn directory_toggle_wraps_every_executable() {
    let mut fs = SimFs::new();
    fs.set_node("/dir", SimNode::Dir);
    fs.set_node("/dir/a", file(0o644, "A"));
    fs.set_node("/dir/b", file(0o755, "B"));
    fs.set_node("/dir/sub/c", file(0o711, "C"));

    // the batch reports the result of the last processed entry
    assert_eq!(execute(&mut fs, "/wrap", "/dir"), Ok(false));
    // non-executable files are untouched
    assert_eq!(fs.file_content("/dir/a"), Some(String::from("A")));
    assert!(!fs.path_exists("/dir/a.bak"));
    // executables anywhere under the tree are wrapped
    assert_eq!(fs.file_content("/dir/b.bak"), Some(String::from("B")));
    assert!(fs.link_dest("/dir/b").is_some());
    assert_eq!(fs.file_content("/dir/sub/c.bak"), Some(String::from("C")));
    assert!(fs.link_dest("/dir/sub/c").is_some());

    // a second directory toggle reverts them all
    assert_eq!(execute(&mut fs, "/wrap", "/dir"), Ok(true));
    assert_eq!(fs.file_content("/dir/b"), Some(String::from("B")));
    assert_eq!(fs.file_mode("/dir/b"), Some(0o755));
    assert!(!fs.path_exists("/dir/b.bak"));
    assert_eq!(fs.file_content("/dir/sub/c"), Some(String::from("C")));
    assert!(!fs.path_exists("/dir/sub/c.bak"));
}

#[test]
fn directory_toggle_passes_over_orphaned_backup_files() {
    let mut fs = SimFs::new();
    fs.set_node("/dir", SimNode::Dir);
    fs.set_node("/dir/x.bak", file(0o755, "OLD"));
    // the only executable is a backup whose original is gone: nothing to
    // revert, so it is passed over untouched
    assert_eq!(execute(&mut fs, "/wrap", "/dir"), Ok(false));
    assert_eq!(fs.file_content("/dir/x.bak"), Some(String::from("OLD")));
}

#[test]
fn empty_directory_toggle_is_a_no_op_reporting_false() {
    let mut fs = SimFs::new();
    fs.set_node("/dir", SimNode::Dir);
    fs.set_node("/dir/notes.txt", file(0o644, "n"));
    assert_eq!(execute(&mut fs, "/wrap", "/dir"), Ok(false));
}
