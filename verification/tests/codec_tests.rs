use arena_tree::DecodeErr;
use arena_tree::IoDecodeErr;
use arena_tree::Position;
use arena_tree::Tree;
use arena_tree::TreeIter;

fn tree_matches(tree: &Tree<i32>, expected: Vec<(i32, usize)>) -> bool {
    assert_eq!(tree.len(), expected.len());

    if let Some(root) = tree.get_root() {
        for (node_info, expected) in tree.sub_tree_info(root).unwrap().iter().zip(expected.iter()) {
            if tree.data_at(node_info.id).unwrap() != &expected.0 || node_info.child_count != expected.1 {
                return false;
            }
        }
    }

    true
}

fn filled_tree() -> Tree<i32> {
    let mut tree = Tree::new();

    tree.new_root(0);
    tree.new_node(10, Position::LastChild, 0).unwrap();

    let node2 = tree.new_node(20, Position::LastChild, 0).unwrap();
    tree.new_node(21, Position::LastChild, node2).unwrap();
    tree.new_node(22, Position::LastChild, node2).unwrap();
    tree.new_node(23, Position::LastChild, node2).unwrap();

    tree.new_node(30, Position::LastChild, 0).unwrap();

    tree
}

#[test]
fn bytes() {
    let mut tree = Tree::new();

    println!("empty tree:");
    assert!(tree_matches(&tree, vec![]));

    let encoded = tree.into_bytes();
    let new_tree = Tree::<i32>::from_bytes(&encoded).unwrap();

    println!("new empty tree:");
    assert!(tree_matches(&new_tree, vec![]));

    tree.new_root(0);
    tree.new_node(10, Position::LastChild, 0).unwrap();

    let node2 = tree.new_node(20, Position::LastChild, 0).unwrap();
    tree.new_node(21, Position::LastChild, node2).unwrap();
    tree.new_node(22, Position::LastChild, node2).unwrap();
    tree.new_node(23, Position::LastChild, node2).unwrap();

    tree.new_node(30, Position::LastChild, 0).unwrap();

    println!("filled tree:");
    assert!(tree_matches(&tree, vec![
        (0, 3),
        (10, 0),
        (20, 3),
        (21, 0),
        (22, 0),
        (23, 0),
        (30, 0),
    ]));

    let encoded = tree.into_bytes();
    let new_tree = Tree::<i32>::from_bytes(&encoded).unwrap();

    println!("new filled tree:");
    assert!(tree_matches(&new_tree, vec![
        (0, 3),
        (10, 0),
        (20, 3),
        (21, 0),
        (22, 0),
        (23, 0),
        (30, 0),
    ]));
}

#[test]
fn empty_tree_is_one_byte() {
    let tree = Tree::<i32>::new();
    assert_eq!(tree.into_bytes(), vec![0u8]);

    let decoded = Tree::<i32>::from_bytes(&vec![0u8]).unwrap();
    assert_eq!(decoded.get_root(), None);
    assert_eq!(decoded.len(), 0);
}

#[test]
fn single_node_wire_format() {
    let tree = Tree::new_with_root(5i32);
    // flag, payload (big-endian), child count (big-endian)
    assert_eq!(tree.into_bytes(), vec![1u8, 0, 0, 0, 5, 0, 0, 0, 0]);

    let tree = Tree::new_with_root(-1i32);
    assert_eq!(tree.into_bytes(), vec![1u8, 0xff, 0xff, 0xff, 0xff, 0, 0, 0, 0]);
}

#[test]
fn tree_iter_yields_the_encoding() {
    let tree = filled_tree();
    let encoded = tree.into_bytes();

    let mut it = TreeIter::new(&tree);
    let mut collected: Vec<u8> = Vec::new();
    while let Some(b) = it.next() {
        collected.push(b);
    }
    assert_eq!(collected, encoded);
    assert_eq!(it.next(), None);
}

#[test]
fn truncated_bytes_are_malformed() {
    let tree = filled_tree();
    let mut encoded = tree.into_bytes();

    assert!(matches!(Tree::<i32>::from_bytes(&Vec::new()), Err(DecodeErr::Malformed)));

    encoded.pop();
    assert!(matches!(Tree::<i32>::from_bytes(&encoded), Err(DecodeErr::Malformed)));

    assert!(matches!(Tree::<i32>::from_bytes(&vec![1u8, 0, 0]), Err(DecodeErr::Malformed)));
}

#[test]
fn trailing_bytes_are_ignored() {
    let tree = filled_tree();
    let mut encoded = tree.into_bytes();
    encoded.push(0xab);
    encoded.push(0xcd);

    let decoded = Tree::<i32>::from_bytes(&encoded).unwrap();
    assert_eq!(decoded.len(), 7);
}

#[test]
fn io_bytes_round_trip() {
    let tree = filled_tree();
    let source: Vec<Result<u8, &'static str>> = tree.into_bytes().into_iter().map(Ok).collect();

    let decoded = Tree::<i32>::from_io_bytes(source).unwrap();
    assert!(tree_matches(&decoded, vec![
        (0, 3),
        (10, 0),
        (20, 3),
        (21, 0),
        (22, 0),
        (23, 0),
        (30, 0),
    ]));
}

#[test]
fn io_failure_is_reported() {
    let tree = filled_tree();
    let mut source: Vec<Result<u8, &'static str>> = tree.into_bytes().into_iter().map(Ok).collect();
    source.truncate(6);
    source.push(Err("disk on fire"));

    match Tree::<i32>::from_io_bytes(source) {
        Err(IoDecodeErr::Io(e)) => assert_eq!(e, "disk on fire"),
        Err(IoDecodeErr::Malformed) => panic!("expected an io failure, got a malformed-data failure"),
        Ok(_) => panic!("expected an io failure, got a tree"),
    }
}

#[test]
fn io_failure_after_the_tree_is_ignored() {
    let tree = filled_tree();
    let mut source: Vec<Result<u8, &'static str>> = tree.into_bytes().into_iter().map(Ok).collect();
    source.push(Err("too late to matter"));

    let decoded = Tree::<i32>::from_io_bytes(source).unwrap();
    assert_eq!(decoded.len(), 7);
}

#[test]
fn io_truncation_without_failure_is_malformed() {
    let tree = filled_tree();
    let mut source: Vec<Result<u8, &'static str>> = tree.into_bytes().into_iter().map(Ok).collect();
    source.truncate(6);

    match Tree::<i32>::from_io_bytes(source) {
        Err(IoDecodeErr::Malformed) => {},
        Err(IoDecodeErr::Io(_)) => panic!("expected a malformed-data failure, got an io failure"),
        Ok(_) => panic!("expected a malformed-data failure, got a tree"),
    }
}
