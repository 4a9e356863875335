use nvwrap::config::{add_config, read_config, remove_config, validate_config, write_config};
use nvwrap::fsmodel::{SimFs, SimNode};

#[test]
fn read_config_splits_lines_and_drops_empty_ones() {
    let lines = read_config("/a\n\n/b\n/c");
    assert_eq!(
        lines,
        vec![String::from("/a"), String::from("/b"), String::from("/c")]
    );
    assert_eq!(read_config(""), Vec::<String>::new());
    assert_eq!(read_config("\n\n"), Vec::<String>::new());
}

#[test]
fn read_config_keeps_the_first_of_duplicate_lines() {
    assert_eq!(
        read_config("/a\n/b\n/a\n/a"),
        vec![String::from("/a"), String::from("/b")]
    );
}

#[test]
fn write_config_joins_with_newlines() {
    let lines = vec![String::from("/a"), String::from("/b")];
    assert_eq!(write_config(&lines), "/a\n/b");
    assert_eq!(write_config(&Vec::new()), "");
}

#[test]
fn add_config_appends_only_new_entries() {
    assert_eq!(add_config("/b", "/a"), "/a\n/b");
    assert_eq!(add_config("/a", "/a\n/b"), "/a\n/b");
    assert_eq!(add_config("/a", ""), "/a");
}

#[test]
fn remove_config_removes_the_entry() {
    assert_eq!(remove_config("/a", "/a\n/b"), "/b");
    assert_eq!(remove_config("/b", "/a\n/b"), "/a");
    assert_eq!(remove_config("/c", "/a\n/b"), "/a\n/b");
}

#[test]
fn validate_config_keeps_directories_and_wrapped_entries() {
    let mut fs = SimFs::new();
    fs.set_node("/dir", SimNode::Dir);
    fs.set_node(
        "/wrapped.bak",
        SimNode::File {
            mode: 0o755,
            content: String::from("X"),
        },
    );
    fs.set_node(
        "/plain",
        SimNode::File {
            mode: 0o755,
            content: String::from("Y"),
        },
    );
    // `/dir` is a directory: kept.  `/wrapped` has a backup: kept.
    // `/plain` exists but has no backup, and `/gone` is absent: dropped.
    let cleaned = validate_config(&fs, "/dir\n/wrapped\n/plain\n/gone");
    assert_eq!(cleaned, "/dir\n/wrapped");
}
