use zipring::fstree::FsTreeNode;

fn dir(name: &str) -> FsTreeNode<i32> {
    FsTreeNode::Dir {
        name: name.to_string(),
        children: vec![],
        entry: None,
        is_root: false,
        index_html_index: None,
    }
}

fn file(name: &str, val: i32) -> FsTreeNode<i32> {
    FsTreeNode::File {
        name: name.to_string(),
        entry: val,
    }
}

#[test]
fn test_root_creates_empty_dir() {
    let root = FsTreeNode::<i32>::root();
    assert_eq!(root.name(), "");
    assert!(root.entry().is_none());
    match &root {
        FsTreeNode::Dir { is_root, .. } => assert!(is_root),
        _ => panic!("root should be a Dir"),
    }
}

#[test]
fn test_name_returns_name() {
    assert_eq!(dir("mydir").name(), "mydir");
    assert_eq!(file("f.txt", 42).name(), "f.txt");
}

#[test]
fn test_entry_returns_entry() {
    assert_eq!(*file("f.txt", 99).entry().unwrap(), 99);
    assert!(dir("d").entry().is_none());
    assert!(FsTreeNode::<i32>::root().entry().is_none());
}

#[test]
fn test_dir_entry_via_trailing_slash() {
    let mut root = FsTreeNode::<i32>::root();
    root.insert_at(42, "subdir/".to_string());
    let subdir = root.find("subdir").unwrap();
    assert!(matches!(subdir, FsTreeNode::Dir { .. }));
    assert_eq!(*subdir.entry().unwrap(), 42);
}

#[test]
fn test_insert_file_at_root() {
    let mut root = FsTreeNode::<i32>::root();
    root.insert_at(42, "hello.txt".to_string());
    let found = root.find("hello.txt").unwrap();
    assert_eq!(found.name(), "hello.txt");
    assert_eq!(*found.entry().unwrap(), 42);
    assert!(matches!(found, FsTreeNode::File { .. }));
}

#[test]
fn test_insert_multiple_files_at_root() {
    let mut root = FsTreeNode::<i32>::root();
    root.insert_at(1, "a.txt".to_string());
    root.insert_at(2, "b.txt".to_string());
    root.insert_at(3, "c.txt".to_string());
    assert_eq!(*root.find("a.txt").unwrap().entry().unwrap(), 1);
    assert_eq!(*root.find("b.txt").unwrap().entry().unwrap(), 2);
    assert_eq!(*root.find("c.txt").unwrap().entry().unwrap(), 3);
    match root {
        FsTreeNode::Dir { children, .. } => assert_eq!(children.len(), 3),
        FsTreeNode::File { .. } => panic!("root should be Dir"),
    }
}

#[test]
fn test_insert_nested_file_creates_intermediate_dirs() {
    let mut root = FsTreeNode::<i32>::root();
    root.insert_at(99, "a/b/c.txt".to_string());
    assert!(matches!(root.find("a").unwrap(), FsTreeNode::Dir { .. }));
    assert!(matches!(root.find("a/b").unwrap(), FsTreeNode::Dir { .. }));
    assert!(root.find("a/b/c.txt").is_some());
    assert_eq!(*root.find("a/b/c.txt").unwrap().entry().unwrap(), 99);
}

#[test]
fn test_insert_multiple_files_in_same_dir() {
    let mut root = FsTreeNode::<i32>::root();
    root.insert_at(1, "dir/x.txt".to_string());
    root.insert_at(2, "dir/y.txt".to_string());
    assert_eq!(*root.find("dir/x.txt").unwrap().entry().unwrap(), 1);
    assert_eq!(*root.find("dir/y.txt").unwrap().entry().unwrap(), 2);
}

#[test]
fn test_find_empty_path_returns_self() {
    let root = FsTreeNode::<i32>::root();
    assert!(root.find("").is_some());
    assert!(root.find("/").is_some());
}

#[test]
fn test_find_nonexistent_returns_none() {
    let mut root = FsTreeNode::<i32>::root();
    root.insert_at(1, "a/b.txt".to_string());
    assert!(root.find("nonexistent").is_none());
    assert!(root.find("a/nonexistent").is_none());
    assert!(root.find("a/b/c").is_none());
    assert!(root.find("x/y/z").is_none());
}

#[test]
fn test_find_with_leading_slash() {
    let mut root = FsTreeNode::<i32>::root();
    root.insert_at(42, "file.txt".to_string());
    assert_eq!(*root.find("/file.txt").unwrap().entry().unwrap(), 42);
}

#[test]
fn test_find_on_file_returns_none_for_subpath() {
    let mut root = FsTreeNode::<i32>::root();
    root.insert_at(1, "file.txt".to_string());
    assert!(root.find("file.txt/nested").is_none());
}

#[test]
fn test_index_html_tracked_on_insert() {
    let mut root = FsTreeNode::<i32>::root();
    root.insert_at(1, "a.txt".to_string());
    root.insert_at(2, "index.html".to_string());
    root.insert_at(3, "b.txt".to_string());
    match &root {
        FsTreeNode::Dir {
            index_html_index, ..
        } => {
            assert_eq!(*index_html_index, Some(1));
        }
        _ => panic!("root should be Dir"),
    }
}

#[test]
fn test_recursive_sort_orders_children() {
    let mut root = FsTreeNode::<i32>::root();
    root.insert_at(1, "z.txt".to_string());
    root.insert_at(2, "m.txt".to_string());
    root.insert_at(3, "a.txt".to_string());
    root.recursive_sort();
    match &root {
        FsTreeNode::Dir { children, .. } => {
            assert_eq!(children[0].name(), "a.txt");
            assert_eq!(children[1].name(), "m.txt");
            assert_eq!(children[2].name(), "z.txt");
        }
        _ => panic!("root should be Dir"),
    }
}

#[test]
fn test_recursive_sort_updates_index_html_index() {
    let mut root = FsTreeNode::<i32>::root();
    root.insert_at(1, "z.txt".to_string());
    root.insert_at(2, "index.html".to_string());
    root.insert_at(3, "a.txt".to_string());
    root.recursive_sort();
    match &root {
        FsTreeNode::Dir {
            index_html_index,
            children,
            ..
        } => {
            assert_eq!(index_html_index, &Some(1));
            assert_eq!(children[0].name(), "a.txt");
            assert_eq!(children[1].name(), "index.html");
            assert_eq!(children[2].name(), "z.txt");
        }
        _ => panic!("root should be Dir"),
    }
}

#[test]
fn test_recursive_sort_nested_dirs() {
    let mut root = FsTreeNode::<i32>::root();
    root.insert_at(1, "b/c.txt".to_string());
    root.insert_at(2, "a/d.txt".to_string());
    root.insert_at(3, "b/a.txt".to_string());
    root.recursive_sort();
    match &root {
        FsTreeNode::Dir { children, .. } => {
            assert_eq!(children[0].name(), "a");
            assert_eq!(children[1].name(), "b");
        }
        _ => panic!("root should be Dir"),
    }
    match root.find("b").unwrap() {
        FsTreeNode::Dir { children, .. } => {
            assert_eq!(children[0].name(), "a.txt");
            assert_eq!(children[1].name(), "c.txt");
        }
        _ => panic!("b should be Dir"),
    }
}

#[test]
fn test_recursive_sort_no_index_html_does_not_update() {
    let mut root = FsTreeNode::<i32>::root();
    root.insert_at(1, "b.txt".to_string());
    root.insert_at(2, "a.txt".to_string());
    root.recursive_sort();
    match &root {
        FsTreeNode::Dir {
            index_html_index, ..
        } => {
            assert_eq!(*index_html_index, None);
        }
        _ => panic!("root should be Dir"),
    }
}

#[test]
fn test_insert_below_file_of_same_name_makes_directory() {
    let mut root = FsTreeNode::<i32>::root();
    root.insert_at(1, "a".to_string());
    root.insert_at(2, "a/b".to_string());
    // The file came first, so it is what the name leads to.
    assert_eq!(*root.find("a").unwrap().entry().unwrap(), 1);
    assert!(root.find("a/b").is_none());
    match &root {
        FsTreeNode::Dir { children, .. } => assert_eq!(children.len(), 2),
        _ => panic!("root should be Dir"),
    }
}

#[test]
fn test_second_insertion_of_a_directory_replaces_its_entry() {
    let mut root = FsTreeNode::<i32>::root();
    root.insert_at(1, "d/".to_string());
    root.insert_at(2, "d/f".to_string());
    root.insert_at(3, "d/".to_string());
    assert_eq!(*root.find("d").unwrap().entry().unwrap(), 3);
    assert_eq!(*root.find("d/f").unwrap().entry().unwrap(), 2);
}

#[test]
fn test_first_of_equal_names_is_found() {
    let mut root = FsTreeNode::<i32>::root();
    root.insert_at(1, "same".to_string());
    root.insert_at(2, "same".to_string());
    assert_eq!(*root.find("same").unwrap().entry().unwrap(), 1);
    root.recursive_sort();
    assert_eq!(*root.find("same").unwrap().entry().unwrap(), 1);
}

#[test]
fn test_sort_is_stable_and_by_bytes() {
    let mut root = FsTreeNode::<i32>::root();
    for (i, name) in ["b", "a", "B", "b", "ab", "a", "\u{e9}", "z", ""].iter().enumerate() {
        if !name.is_empty() {
            root.insert_at(i as i32, name.to_string());
        }
    }
    root.recursive_sort();
    match &root {
        FsTreeNode::Dir { children, .. } => {
            let order: Vec<(String, i32)> =
                children.iter().map(|c| (c.name().to_string(), *c.entry().unwrap())).collect();
            let expected: Vec<(String, i32)> = vec![
                ("B".to_string(), 2),
                ("a".to_string(), 1),
                ("a".to_string(), 5),
                ("ab".to_string(), 4),
                ("b".to_string(), 0),
                ("b".to_string(), 3),
                ("z".to_string(), 7),
                ("\u{e9}".to_string(), 6),
            ];
            assert_eq!(order, expected);
        }
        _ => panic!("root should be Dir"),
    }
}

#[test]
fn test_sort_of_many_children() {
    let mut root = FsTreeNode::<u32>::root();
    let mut x: u32 = 12345;
    for i in 0..500 {
        x = x.wrapping_mul(1103515245).wrapping_add(12345);
        root.insert_at(i, format!("f{}", x % 97));
    }
    root.recursive_sort();
    match &root {
        FsTreeNode::Dir { children, .. } => {
            assert_eq!(children.len(), 500);
            for pair in children.windows(2) {
                assert!(pair[0].name() <= pair[1].name());
                if pair[0].name() == pair[1].name() {
                    assert!(pair[0].entry().unwrap() < pair[1].entry().unwrap());
                }
            }
        }
        _ => panic!("root should be Dir"),
    }
}

#[test]
fn test_sort_twice_changes_nothing() {
    let mut root = FsTreeNode::<i32>::root();
    root.insert_at(1, "b/z".to_string());
    root.insert_at(2, "b/a".to_string());
    root.insert_at(3, "a".to_string());
    root.recursive_sort();
    let once = format!("{}{}", root.find("b/a").unwrap().entry().unwrap(), root.find("a").unwrap().entry().unwrap());
    root.recursive_sort();
    let twice = format!("{}{}", root.find("b/a").unwrap().entry().unwrap(), root.find("a").unwrap().entry().unwrap());
    assert_eq!(once, "23");
    assert_eq!(once, twice);
}

#[test]
fn test_insertion_hides_no_file() {
    let mut root = FsTreeNode::<i32>::root();
    root.insert_at(1, "a/x".to_string());
    root.insert_at(2, "a/y".to_string());
    root.insert_at(3, "a/x/z".to_string());
    assert_eq!(*root.find("a/x").unwrap().entry().unwrap(), 1);
    assert_eq!(*root.find("a/y").unwrap().entry().unwrap(), 2);
}

#[test]
fn test_slashes_around_a_path() {
    let mut root = FsTreeNode::<i32>::root();
    root.insert_at(7, "d/f".to_string());
    assert_eq!(*root.find("//d//f").unwrap().entry().unwrap(), 7);
    assert_eq!(*root.find("d/f/").unwrap().entry().unwrap(), 7);
    assert!(root.find("d/").is_some());
}

#[test]
fn test_index_html_in_subdirectory() {
    let mut root = FsTreeNode::<i32>::root();
    root.insert_at(1, "d/z".to_string());
    root.insert_at(2, "d/index.html".to_string());
    root.insert_at(3, "d/a".to_string());
    match root.find("d").unwrap() {
        FsTreeNode::Dir { index_html_index, .. } => assert_eq!(*index_html_index, Some(1)),
        _ => panic!("d should be Dir"),
    }
    root.recursive_sort();
    match root.find("d").unwrap() {
        FsTreeNode::Dir { index_html_index, children, .. } => {
            assert_eq!(*index_html_index, Some(1));
            assert_eq!(children[1].name(), "index.html");
        }
        _ => panic!("d should be Dir"),
    }
}

#[test]
fn test_characters_before_a_slash_are_counted() {
    // Three characters stand before the slash, and three bytes take up the first two of them.
    assert!(zipring::path::can_insert("\u{e9}ab/x"));
    let mut root = FsTreeNode::<i32>::root();
    root.insert_at(1, "\u{e9}ab/x".to_string());
    match &root {
        FsTreeNode::Dir { children, .. } => assert_eq!(children[0].name(), "\u{e9}a"),
        _ => panic!("root should be Dir"),
    }
    // One character stands before the slash, and one byte is half of it.
    assert!(!zipring::path::can_insert("\u{e9}/x"));
    assert!(!root.can_find("\u{e9}/x"));
    assert!(root.can_find("a/x"));
}

#[test]
fn test_joined_paths() {
    let mut root = FsTreeNode::<i32>::root();
    root.insert_at(1, "a/b/c/d".to_string());
    root.insert_at(2, "a/b/e".to_string());
    for (first, second) in [
        ("a", "b/c/d"),
        ("a/b", "c/d"),
        ("a/b/c", "d"),
        ("a/b", "e"),
        ("/a/", "/b//e"),
        ("", "a/b/e"),
        ("a/b/e", ""),
        ("a/x", "e"),
        ("a/b", "x"),
        ("a/b/e", "x"),
    ] {
        let joined = root.find(&format!("{first}/{second}"));
        let in_turn = root.find(first).and_then(|n| n.find(second));
        assert_eq!(joined.is_some(), in_turn.is_some());
        if let (Some(x), Some(y)) = (joined, in_turn) {
            assert!(std::ptr::eq(x, y));
        }
    }
}

/// How many files there are in a tree.
fn file_count(tree: &FsTreeNode<i32>) -> usize {
    match tree {
        FsTreeNode::Dir { children, .. } => children.iter().map(file_count).sum(),
        FsTreeNode::File { .. } => 1,
    }
}

#[test]
fn test_insertions_are_counted() {
    let mut root = FsTreeNode::<i32>::root();
    let mut count = 0;
    for path in ["a", "d/", "d/f", "d/e/", "d/f", "x/y/z", "x/", "a/b", "a"] {
        root.insert_at(0, path.to_string());
        if !path.ends_with('/') {
            count += 1;
        }
        assert_eq!(file_count(&root), count);
    }
    root.recursive_sort();
    assert_eq!(file_count(&root), 6);
}

/// Checks that no directory below is a root, and that no two in one directory share a name.
fn check_dirs(tree: &FsTreeNode<i32>) {
    if let FsTreeNode::Dir { children, .. } = tree {
        let mut names: Vec<&str> = Vec::new();
        for child in children {
            if let FsTreeNode::Dir { name, is_root, .. } = child {
                assert!(!is_root);
                assert!(!names.contains(&name.as_str()));
                names.push(name);
            }
            check_dirs(child);
        }
    }
}

#[test]
fn test_directories_are_made_once() {
    let mut root = FsTreeNode::<i32>::root();
    for path in ["d", "d/a", "d/b", "e/d/", "e/d/x", "d/", "e/", "e/d/y"] {
        root.insert_at(0, path.to_string());
        check_dirs(&root);
    }
    root.recursive_sort();
    check_dirs(&root);
    match &root {
        FsTreeNode::Dir { name, entry, is_root, children, .. } => {
            assert!(name.is_empty() && entry.is_none() && *is_root);
            assert_eq!(children.len(), 3);
        }
        _ => panic!("root should be Dir"),
    }
}

#[test]
fn test_inserted_nodes_have_the_last_name() {
    let mut root = FsTreeNode::<i32>::root();
    root.insert_at(1, "a/b/c".to_string());
    root.insert_at(2, "a/d/".to_string());
    let file = root.find("a/b/c").unwrap();
    assert_eq!((file.name(), file.entry()), ("c", Some(&1)));
    assert!(matches!(file, FsTreeNode::File { .. }));
    let dir = root.find("a/d/").unwrap();
    assert_eq!((dir.name(), dir.entry()), ("d", Some(&2)));
    assert!(matches!(dir, FsTreeNode::Dir { .. }));
    for way in ["a", "a/b"] {
        let dir = root.find(way).unwrap();
        assert!(matches!(dir, FsTreeNode::Dir { entry: None, .. }));
    }
}

#[test]
fn test_recorded_index_is_that_of_a_file() {
    let index = |root: &FsTreeNode<i32>| match root {
        FsTreeNode::Dir { index_html_index, .. } => *index_html_index,
        _ => panic!("root should be Dir"),
    };
    let mut root = FsTreeNode::<i32>::root();
    root.insert_at(1, "index.html/x".to_string());
    assert_eq!(index(&root), None);
    root.insert_at(2, "index.html".to_string());
    assert_eq!(index(&root), Some(1));
    root.insert_at(3, "index.html".to_string());
    assert_eq!(index(&root), Some(2));
    root.insert_at(4, "a".to_string());
    // Once sorted, the index is that of the first of the name.
    root.recursive_sort();
    assert_eq!(index(&root), Some(1));
    assert_eq!(root.find("index.html").unwrap().entry(), None);
}
