use nvwrap::fsmodel::{find_executables, has_write_access, is_executable, SimFs, SimNode};
use nvwrap::procs::get_executable_paths;

fn file(mode: u32) -> SimNode {
    SimNode::File {
        mode,
        content: String::new(),
    }
}

#[test]
fn scanner_returns_exactly_the_executable_files() {
    let mut fs = SimFs::new();
    fs.set_node("/dir", SimNode::Dir);
    fs.set_node("/dir/a", file(0o644));
    fs.set_node("/dir/b", file(0o755));
    fs.set_node("/dir/c", file(0o600));
    fs.set_node("/dir/d", file(0o711));

    let mut found = find_executables(&fs, "/dir");
    found.sort();
    assert_eq!(found, vec![String::from("/dir/b"), String::from("/dir/d")]);
}

#[test]
fn scanner_recurses_and_excludes_symlinks_and_directories() {
    let mut fs = SimFs::new();
    fs.set_node("/dir", SimNode::Dir);
    fs.set_node("/dir/sub", SimNode::Dir);
    fs.set_node("/dir/sub/deep", file(0o111));
    // symlinks are excluded, even ones that reach an executable file
    fs.set_node(
        "/dir/link",
        SimNode::Link {
            dest: String::from("/dir/sub/deep"),
        },
    );
    // paths outside the directory are not scanned
    fs.set_node("/elsewhere", file(0o755));

    let found = find_executables(&fs, "/dir");
    assert_eq!(found, vec![String::from("/dir/sub/deep")]);
}

#[test]
fn executability_is_any_execute_bit_on_a_regular_file() {
    let mut fs = SimFs::new();
    fs.set_node("/a", file(0o100));
    fs.set_node("/b", file(0o010));
    fs.set_node("/c", file(0o001));
    fs.set_node("/d", file(0o666));
    fs.set_node("/e", SimNode::Dir);
    fs.set_node(
        "/f",
        SimNode::Link {
            dest: String::from("/a"),
        },
    );
    assert!(is_executable(&fs, "/a"));
    assert!(is_executable(&fs, "/b"));
    assert!(is_executable(&fs, "/c"));
    assert!(!is_executable(&fs, "/d"));
    assert!(!is_executable(&fs, "/e"));
    assert!(!is_executable(&fs, "/f"));
    assert!(!is_executable(&fs, "/missing"));
}

#[test]
fn write_access_is_the_owner_write_bit() {
    let mut fs = SimFs::new();
    fs.set_node("/w", file(0o644));
    fs.set_node("/ro", file(0o444));
    assert!(has_write_access(&fs, "/w"));
    assert!(!has_write_access(&fs, "/ro"));
    assert!(!has_write_access(&fs, "/missing"));
}

#[test]
fn process_paths_are_filtered_and_deduplicated() {
    let mut fs = SimFs::new();
    fs.set_node("/home/u/game", file(0o755));
    fs.set_node("/usr/bin/ls", file(0o755));
    fs.set_node("/home/u/readonly", file(0o555));
    let candidates = vec![
        String::from("/home/u/game"),
        String::from("/usr/bin/ls"),    // system prefix: excluded
        String::from("/home/u/readonly"), // not writable: excluded
        String::from("/home/u/gone"),   // does not exist: excluded
        String::from("/home/u/game"),   // duplicate: reported once
    ];
    let r = get_executable_paths(&fs, &candidates);
    assert_eq!(r, vec![String::from("/home/u/game")]);
}
