use advent::day07::FsNode;
use advent::day07::FsNodeType;
use advent::day07::parse_node;

#[test]
fn test_parse_node_dir() {
    let line = "dir abc";
    let node = parse_node(&line, None).unwrap();

    assert!(matches!(node.kind, FsNodeType::Dir));
    assert_eq!(node.name, "abc");
    assert_eq!(node.dsize, 0);
    assert!(node.parent.is_none());
    assert!(node.contents.is_some());
    assert!(node.contents.unwrap().len() == 0);
}

#[test]
fn test_parse_node_file() {
    let line = "123 def";
    let node = parse_node(&line, None).unwrap();

    assert!(matches!(node.kind, FsNodeType::File));
    assert_eq!(node.name, "def");
    assert_eq!(node.dsize, 123);
    assert!(node.parent.is_none());
    assert!(node.contents.is_none());
}

#[test]
fn size_sums_directory_contents() {
    let f1 = FsNode {
        kind: FsNodeType::File,
        name: "file1".to_string(),
        dsize: 123,
        parent: None,
        contents: None,
    };
    let f2 = FsNode {
        kind: FsNodeType::File,
        name: "file2".to_string(),
        dsize: 456,
        parent: None,
        contents: None,
    };
    let mut test_dir = FsNode {
        kind: FsNodeType::Dir,
        name: "test_dir".to_string(),
        dsize: 0,
        parent: None,
        contents: Some(Vec::new()),
    };
    test_dir.add_child(f1);
    test_dir.add_child(f2);
    assert_eq!(test_dir.size(), 579);
}
