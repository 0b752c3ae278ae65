use advent::day7::FsNodeType;
use advent::day7::parse_node;

#[test]
fn lib_test_parse_node_dir() {
    let line = "dir abc";
    let node = parse_node(&line, None).unwrap();

    assert!(matches!(node.kind, FsNodeType::Dir));
    assert_eq!(node.name, "abc");
    assert_eq!(node.dsize, 0);
    assert!(node.parent.is_none());
    assert!(node.contents.is_some());
    assert!(node.contents.unwrap().len() == 0);
}

#[test]
fn lib_test_parse_node_file() {
    let line = "123 def";
    let node = parse_node(&line, None).unwrap();

    assert!(matches!(node.kind, FsNodeType::File));
    assert_eq!(node.name, "def");
    assert_eq!(node.dsize, 123);
    assert!(node.parent.is_none());
    assert!(node.contents.is_none());
}
