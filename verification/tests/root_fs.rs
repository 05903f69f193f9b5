use raca_core::fs::vfs::root::{bytes_before, InodeRef, RootFS};

fn node(id: usize) -> InodeRef {
    InodeRef { id }
}

#[test]
fn new_root_is_empty() {
    let root = RootFS::new();
    assert_eq!(root.get_path(), "");
    assert_eq!(root.open("dev".to_string()), None);
    assert_eq!(root.when_umounted(), vec![]);
}

#[test]
fn mounted_nodes_are_found_by_name() {
    let mut root = RootFS::new();
    root.mount(node(1), "dev".to_string());
    root.mount(node(2), "proc".to_string());
    assert_eq!(root.open("dev".to_string()), Some(node(1)));
    assert_eq!(root.open("proc".to_string()), Some(node(2)));
    assert_eq!(root.open("de".to_string()), None);
    assert_eq!(root.open("".to_string()), None);
    assert_eq!(root.when_umounted(), vec![node(1), node(2)]);
}

#[test]
fn mounting_under_a_taken_name_replaces_the_node() {
    let mut root = RootFS::new();
    root.mount(node(1), "dev".to_string());
    root.mount(node(2), "proc".to_string());
    root.mount(node(3), "dev".to_string());
    assert_eq!(root.open("dev".to_string()), Some(node(3)));
    assert_eq!(root.open("proc".to_string()), Some(node(2)));
    assert_eq!(root.when_umounted(), vec![node(3), node(2)]);
}

#[test]
fn root_remembers_where_it_was_mounted() {
    let mut root = RootFS::new();
    root.mount(node(1), "dev".to_string());
    root.when_mounted("/".to_string(), None);
    assert_eq!(root.get_path(), "/");
    root.when_mounted("/mnt".to_string(), Some(node(9)));
    assert_eq!(root.get_path(), "/mnt");
    assert_eq!(root.open("dev".to_string()), Some(node(1)));
}

#[test]
fn nodes_are_kept_in_the_order_of_their_names() {
    let mut root = RootFS::new();
    for (id, name) in ["proc", "dev", "bin", "devfs", "", "\u{e9}t\u{e9}", "zz", "Dev"]
        .iter()
        .enumerate()
    {
        root.mount(node(id), name.to_string());
    }
    // "", "Dev", "bin", "dev", "devfs", "proc", "zz", "\u{e9}t\u{e9}"
    assert_eq!(
        root.when_umounted(),
        vec![node(4), node(7), node(2), node(1), node(3), node(0), node(6), node(5)]
    );
    assert_eq!(root.open("devfs".to_string()), Some(node(3)));
    assert_eq!(root.open("\u{e9}t\u{e9}".to_string()), Some(node(5)));
}

#[test]
fn bytes_are_ordered_as_in_a_dictionary() {
    assert!(bytes_before(b"", b"a"));
    assert!(!bytes_before(b"", b""));
    assert!(!bytes_before(b"a", b""));
    assert!(bytes_before(b"a", b"b"));
    assert!(!bytes_before(b"b", b"a"));
    assert!(bytes_before(b"ab", b"abc"));
    assert!(!bytes_before(b"abc", b"ab"));
    assert!(!bytes_before(b"abc", b"abc"));
    assert!(bytes_before(b"abc", b"abd"));
    assert!(bytes_before(b"Z", b"a"));
    assert!(bytes_before(&[0x7f], &[0x80]));
}
