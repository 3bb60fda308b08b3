use arena_tree::NodeInfo;
use arena_tree::Position;
use arena_tree::Tree;
use arena_tree::TreeErr;

fn print_tree<T: std::fmt::Display>(tree: &Tree<T>) {
    if let Some(root) = tree.get_root() {
        for node in tree.sub_tree_info(root).unwrap() {
            println!("\"{}\" child count: {}", tree.data_at(node.id).unwrap(), node.child_count);
        }
    } else {
        println!("Empty");
    }
    println!();
}

fn tree_matches<T: std::fmt::Display + PartialEq>(tree: &Tree<T>, expected: Vec<(T, usize)>) -> bool {
    print_tree(tree);

    assert_eq!(tree.len(), expected.len());

    if let Some(root) = tree.get_root() {
        for (node_info, expected) in tree.sub_tree_info(root).unwrap().iter().zip(expected.iter()) {
            if tree.data_at(node_info.id).unwrap() != &expected.0 || node_info.child_count != expected.1 {
                return false;
            }
        }
    }

    true
}

const ROOT_STR: &str = "root";
const ROOT_ID: usize = 0;
const FIRST_ROOT_CHILD_STR: &str = "1st root child";
const FIRST_ROOT_CHILD_ID: usize = 1;
const LAST_ROOT_CHILD_STR: &str = "2nd root child";
const LAST_ROOT_CHILD_ID: usize = 2;

fn make_tree() -> Tree<&'static str> {
    let mut tree = Tree::new_with_root(ROOT_STR);

    tree.new_node(FIRST_ROOT_CHILD_STR, Position::LastChild, ROOT_ID).unwrap();

    tree.new_node(LAST_ROOT_CHILD_STR, Position::LastChild, ROOT_ID).unwrap();

    tree
}

#[test]
fn base_tree() {
    let tree = make_tree();

    assert!(tree_matches(&tree, vec![
        (ROOT_STR, 2),
        (FIRST_ROOT_CHILD_STR, 0),
        (LAST_ROOT_CHILD_STR, 0),
    ]));
}

#[test]
fn append_child() {
    let mut tree = make_tree();

    let new1 = "append1";
    let new2 = "append2";

    let new1_id = tree.new_node(new1, Position::LastChild, FIRST_ROOT_CHILD_ID).unwrap();
    let new2_id = tree.new_node(new2, Position::LastChild, FIRST_ROOT_CHILD_ID).unwrap();

    assert!(tree_matches(&tree, vec![
        (ROOT_STR, 2),
        (FIRST_ROOT_CHILD_STR, 2),
        (new1, 0),
        (new2, 0),
        (LAST_ROOT_CHILD_STR, 0),
    ]));

    // parent links
    assert_eq!(tree.first_child_of(FIRST_ROOT_CHILD_ID).unwrap(), Some(new1_id));
    assert_eq!(tree.last_child_of(FIRST_ROOT_CHILD_ID).unwrap(), Some(new2_id));

    // child links
    assert_eq!(tree.parent_of(new1_id).unwrap(), Some(FIRST_ROOT_CHILD_ID));
    assert_eq!(tree.prev_sib_of(new1_id).unwrap(), None);
    assert_eq!(tree.next_sib_of(new1_id).unwrap(), Some(new2_id));
    assert_eq!(tree.first_child_of(new1_id).unwrap(), None);
    assert_eq!(tree.last_child_of(new1_id).unwrap(), None);

    assert_eq!(tree.prev_sib_of(new2_id).unwrap(), Some(new1_id));
    assert_eq!(tree.next_sib_of(new2_id).unwrap(), None);
}

#[test]
fn prepend_child() {
    let mut tree = make_tree();

    let new1 = "prepend1";
    let new2 = "prepend2";

    let new1_id = tree.new_node(new1, Position::FirstChild, FIRST_ROOT_CHILD_ID).unwrap();
    let new2_id = tree.new_node(new2, Position::FirstChild, FIRST_ROOT_CHILD_ID).unwrap();

    assert!(tree_matches(&tree, vec![
        (ROOT_STR, 2),
        (FIRST_ROOT_CHILD_STR, 2),
        (new2, 0),
        (new1, 0),
        (LAST_ROOT_CHILD_STR, 0),
    ]));

    // parent links
    assert_eq!(tree.first_child_of(FIRST_ROOT_CHILD_ID).unwrap(), Some(new2_id));
    assert_eq!(tree.last_child_of(FIRST_ROOT_CHILD_ID).unwrap(), Some(new1_id));

    // child links
    assert_eq!(tree.parent_of(new1_id).unwrap(), Some(FIRST_ROOT_CHILD_ID));
    assert_eq!(tree.first_child_of(new1_id).unwrap(), None);
    assert_eq!(tree.last_child_of(new1_id).unwrap(), None);

    assert_eq!(tree.prev_sib_of(new1_id).unwrap(), Some(new2_id));
    assert_eq!(tree.next_sib_of(new1_id).unwrap(), None);

    assert_eq!(tree.prev_sib_of(new2_id).unwrap(), None);
    assert_eq!(tree.next_sib_of(new2_id).unwrap(), Some(new1_id));
}

#[test]
fn sibling_before() {
    let mut tree = make_tree();

    let new1 = "sib before1";
    let new2 = "sib before2";

    let new1_id = tree.new_node(new1, Position::SiblingBefore, FIRST_ROOT_CHILD_ID).unwrap();
    let new2_id = tree.new_node(new2, Position::SiblingBefore, LAST_ROOT_CHILD_ID).unwrap();

    assert!(tree_matches(&tree, vec![
        (ROOT_STR, 4),
        (new1, 0),
        (FIRST_ROOT_CHILD_STR, 0),
        (new2, 0),
        (LAST_ROOT_CHILD_STR, 0),
    ]));

    // parent links
    assert_eq!(tree.first_child_of(ROOT_ID).unwrap(), Some(new1_id));
    assert_eq!(tree.prev_sib_of(FIRST_ROOT_CHILD_ID).unwrap(), Some(new1_id));
    assert_eq!(tree.next_sib_of(FIRST_ROOT_CHILD_ID).unwrap(), Some(new2_id));
    assert_eq!(tree.prev_sib_of(LAST_ROOT_CHILD_ID).unwrap(), Some(new2_id));

    // child links
    assert_eq!(tree.parent_of(new1_id).unwrap(), Some(ROOT_ID));
    assert_eq!(tree.first_child_of(new1_id).unwrap(), None);
    assert_eq!(tree.last_child_of(new1_id).unwrap(), None);

    assert_eq!(tree.prev_sib_of(new1_id).unwrap(), None);
    assert_eq!(tree.next_sib_of(new1_id).unwrap(), Some(FIRST_ROOT_CHILD_ID));

    assert_eq!(tree.prev_sib_of(new2_id).unwrap(), Some(FIRST_ROOT_CHILD_ID));
    assert_eq!(tree.next_sib_of(new2_id).unwrap(), Some(LAST_ROOT_CHILD_ID));
}

#[test]
fn sibling_after() {
    let mut tree = make_tree();

    let new1 = "sib after1";
    let new2 = "sib after2";

    let new1_id = tree.new_node(new1, Position::SiblingAfter, FIRST_ROOT_CHILD_ID).unwrap();
    let new2_id = tree.new_node(new2, Position::SiblingAfter, LAST_ROOT_CHILD_ID).unwrap();

    assert!(tree_matches(&tree, vec![
        (ROOT_STR, 4),
        (FIRST_ROOT_CHILD_STR, 0),
        (new1, 0),
        (LAST_ROOT_CHILD_STR, 0),
        (new2, 0),
    ]));

    // parent links
    assert_eq!(tree.last_child_of(ROOT_ID).unwrap(), Some(new2_id));
    assert_eq!(tree.next_sib_of(FIRST_ROOT_CHILD_ID).unwrap(), Some(new1_id));
    assert_eq!(tree.prev_sib_of(LAST_ROOT_CHILD_ID).unwrap(), Some(new1_id));
    assert_eq!(tree.next_sib_of(LAST_ROOT_CHILD_ID).unwrap(), Some(new2_id));

    // child links
    assert_eq!(tree.parent_of(new1_id).unwrap(), Some(ROOT_ID));
    assert_eq!(tree.first_child_of(new1_id).unwrap(), None);
    assert_eq!(tree.last_child_of(new1_id).unwrap(), None);

    assert_eq!(tree.prev_sib_of(new1_id).unwrap(), Some(FIRST_ROOT_CHILD_ID));
    assert_eq!(tree.next_sib_of(new1_id).unwrap(), Some(LAST_ROOT_CHILD_ID));

    assert_eq!(tree.prev_sib_of(new2_id).unwrap(), Some(LAST_ROOT_CHILD_ID));
    assert_eq!(tree.next_sib_of(new2_id).unwrap(), None);
}

#[test]
fn copy_node() {
    let mut tree = make_tree();

    tree.clone_to(ROOT_ID, Position::FirstChild, LAST_ROOT_CHILD_ID).unwrap();

    assert!(tree_matches(&tree, vec![
        (ROOT_STR, 2),
        (FIRST_ROOT_CHILD_STR, 0),
        (LAST_ROOT_CHILD_STR, 1),
        (ROOT_STR, 2),
        (FIRST_ROOT_CHILD_STR, 0),
        (LAST_ROOT_CHILD_STR, 0),
    ]));
}

#[test]
fn move_node() {
    let mut tree = make_tree();

    let clone_id = tree.clone_to(ROOT_ID, Position::FirstChild, LAST_ROOT_CHILD_ID).unwrap();

    assert!(tree_matches(&tree, vec![
        (ROOT_STR, 2),
        (FIRST_ROOT_CHILD_STR, 0),
        (LAST_ROOT_CHILD_STR, 1),
        (ROOT_STR, 2),
        (FIRST_ROOT_CHILD_STR, 0),
        (LAST_ROOT_CHILD_STR, 0),
    ]));

    tree.move_to(clone_id, Position::FirstChild, ROOT_ID).unwrap();

    assert!(tree_matches(&tree, vec![
        (ROOT_STR, 3),
        (ROOT_STR, 2),
        (FIRST_ROOT_CHILD_STR, 0),
        (LAST_ROOT_CHILD_STR, 0),
        (FIRST_ROOT_CHILD_STR, 0),
        (LAST_ROOT_CHILD_STR, 0),
    ]));
}

#[test]
fn remove_node() {
    let mut tree = make_tree();

    tree.clone_to(ROOT_ID, Position::FirstChild, LAST_ROOT_CHILD_ID).unwrap();

    assert!(tree_matches(&tree, vec![
        (ROOT_STR, 2),
        (FIRST_ROOT_CHILD_STR, 0),
        (LAST_ROOT_CHILD_STR, 1),
        (ROOT_STR, 2),
        (FIRST_ROOT_CHILD_STR, 0),
        (LAST_ROOT_CHILD_STR, 0),
    ]));

    tree.remove(LAST_ROOT_CHILD_ID).unwrap();

    assert!(tree_matches(&tree, vec![
        (ROOT_STR, 1),
        (FIRST_ROOT_CHILD_STR, 0),
    ]));
}

#[test]
fn new_root() {
    let mut tree = make_tree();

    let new = "new root";

    tree.new_root(new);

    assert!(tree_matches(&tree, vec![
        (new, 0),
    ]));
}

#[test]
fn change_root() {
    let mut tree = make_tree();

    tree.clone_to(ROOT_ID, Position::FirstChild, LAST_ROOT_CHILD_ID).unwrap();

    assert!(tree_matches(&tree, vec![
        (ROOT_STR, 2),
        (FIRST_ROOT_CHILD_STR, 0),
        (LAST_ROOT_CHILD_STR, 1),
        (ROOT_STR, 2),
        (FIRST_ROOT_CHILD_STR, 0),
        (LAST_ROOT_CHILD_STR, 0),
    ]));

    tree.make_root(LAST_ROOT_CHILD_ID).unwrap();

    assert!(tree_matches(&tree, vec![
        (LAST_ROOT_CHILD_STR, 1),
        (ROOT_STR, 2),
        (FIRST_ROOT_CHILD_STR, 0),
        (LAST_ROOT_CHILD_STR, 0),
    ]));
}

#[test]
fn invalid_ids_are_rejected() {
    let mut tree = make_tree();

    assert_eq!(tree.remove(99), Err(TreeErr::InvalidId));
    assert_eq!(tree.data_at(99), Err(TreeErr::InvalidId));
    assert_eq!(tree.parent_of(99), Err(TreeErr::InvalidId));
    assert_eq!(tree.descendants_of(99), Err(TreeErr::InvalidId));
    assert_eq!(tree.new_node("x", Position::LastChild, 99), Err(TreeErr::InvalidId));
    assert_eq!(tree.move_to(99, Position::LastChild, ROOT_ID), Err(TreeErr::InvalidId));
    assert_eq!(tree.move_to(FIRST_ROOT_CHILD_ID, Position::LastChild, 99), Err(TreeErr::InvalidId));
    assert_eq!(tree.clone_to(99, Position::LastChild, ROOT_ID), Err(TreeErr::InvalidId));
    assert_eq!(tree.make_root(99), Err(TreeErr::InvalidId));

    // a removed id is as invalid as one that never existed
    tree.remove(FIRST_ROOT_CHILD_ID).unwrap();
    assert_eq!(tree.data_at(FIRST_ROOT_CHILD_ID), Err(TreeErr::InvalidId));
}

#[test]
fn root_has_no_siblings() {
    let mut tree = make_tree();

    assert_eq!(tree.new_node("x", Position::SiblingBefore, ROOT_ID), Err(TreeErr::CantBeRoot));
    assert_eq!(tree.new_node("x", Position::SiblingAfter, ROOT_ID), Err(TreeErr::CantBeRoot));
    assert_eq!(tree.move_to(FIRST_ROOT_CHILD_ID, Position::SiblingBefore, ROOT_ID), Err(TreeErr::CantBeRoot));
    assert_eq!(tree.clone_to(FIRST_ROOT_CHILD_ID, Position::SiblingAfter, ROOT_ID), Err(TreeErr::CantBeRoot));
    assert_eq!(tree.len(), 3);
}

#[test]
fn move_into_own_subtree_is_rejected() {
    let mut tree = make_tree();
    let grandchild = tree.new_node("grandchild", Position::LastChild, FIRST_ROOT_CHILD_ID).unwrap();

    let before = tree.sub_tree_info(ROOT_ID).unwrap();

    assert_eq!(tree.move_to(FIRST_ROOT_CHILD_ID, Position::LastChild, FIRST_ROOT_CHILD_ID), Err(TreeErr::CantMoveIntoChild));
    assert_eq!(tree.move_to(FIRST_ROOT_CHILD_ID, Position::LastChild, grandchild), Err(TreeErr::CantMoveIntoChild));
    assert_eq!(tree.move_to(ROOT_ID, Position::SiblingAfter, grandchild), Err(TreeErr::CantMoveIntoChild));
    // a self-move is a cycle first, even as a sibling of the root
    assert_eq!(tree.move_to(ROOT_ID, Position::SiblingBefore, ROOT_ID), Err(TreeErr::CantMoveIntoChild));
    assert_eq!(tree.move_to(FIRST_ROOT_CHILD_ID, Position::SiblingAfter, FIRST_ROOT_CHILD_ID), Err(TreeErr::CantMoveIntoChild));

    // the failed moves left the tree untouched
    let after = tree.sub_tree_info(ROOT_ID).unwrap();
    assert_eq!(before, after);
}

#[test]
fn cascading_removal_counts() {
    let mut tree = make_tree();
    tree.new_node("a", Position::LastChild, FIRST_ROOT_CHILD_ID).unwrap();
    let b = tree.new_node("b", Position::LastChild, FIRST_ROOT_CHILD_ID).unwrap();
    tree.new_node("c", Position::LastChild, b).unwrap();

    assert_eq!(tree.len(), 6);
    let descendants = tree.descendants_of(FIRST_ROOT_CHILD_ID).unwrap();
    assert_eq!(descendants.len(), 3);

    tree.remove(FIRST_ROOT_CHILD_ID).unwrap();

    assert_eq!(tree.len(), 6 - 1 - 3);
    assert_eq!(tree.data_at(FIRST_ROOT_CHILD_ID), Err(TreeErr::InvalidId));
    for id in descendants {
        assert_eq!(tree.data_at(id), Err(TreeErr::InvalidId));
    }
}

#[test]
fn removing_the_root_empties_the_tree() {
    let mut tree = make_tree();
    tree.remove(ROOT_ID).unwrap();
    assert_eq!(tree.len(), 0);
    assert_eq!(tree.get_root(), None);
}

#[test]
fn make_root_keeps_the_subtree() {
    let mut tree = make_tree();
    let grandchild = tree.new_node("grandchild", Position::LastChild, LAST_ROOT_CHILD_ID).unwrap();

    tree.make_root(LAST_ROOT_CHILD_ID).unwrap();

    assert_eq!(tree.get_root(), Some(LAST_ROOT_CHILD_ID));
    assert_eq!(tree.parent_of(LAST_ROOT_CHILD_ID).unwrap(), None);
    assert_eq!(tree.len(), 2);
    assert_eq!(tree.children_of(LAST_ROOT_CHILD_ID).unwrap(), vec![grandchild]);
    assert_eq!(tree.data_at(ROOT_ID), Err(TreeErr::InvalidId));
}

#[test]
fn clone_is_independent_of_the_source() {
    let mut tree = make_tree();
    let clone_id = tree.clone_to(FIRST_ROOT_CHILD_ID, Position::LastChild, LAST_ROOT_CHILD_ID).unwrap();

    // fresh ids, same payload
    assert_ne!(clone_id, FIRST_ROOT_CHILD_ID);
    assert_eq!(tree.data_at(clone_id).unwrap(), &FIRST_ROOT_CHILD_STR);

    // changing the copy's payload leaves the source alone
    *tree.data_at_mut(clone_id) = "changed";
    assert_eq!(tree.data_at(clone_id).unwrap(), &"changed");
    assert_eq!(tree.data_at(FIRST_ROOT_CHILD_ID).unwrap(), &FIRST_ROOT_CHILD_STR);

    // removing the copy leaves the source alone
    tree.remove(clone_id).unwrap();
    assert_eq!(tree.data_at(FIRST_ROOT_CHILD_ID).unwrap(), &FIRST_ROOT_CHILD_STR);
    assert_eq!(tree.len(), 3);
}

#[test]
fn freed_slots_are_recycled() {
    let mut tree = make_tree();
    tree.remove(FIRST_ROOT_CHILD_ID).unwrap();
    let recycled = tree.new_node("recycled", Position::LastChild, ROOT_ID).unwrap();
    assert_eq!(recycled, FIRST_ROOT_CHILD_ID);
    assert_eq!(tree.len(), 3);
}

#[test]
fn depth_bounded_walks() {
    let mut tree = make_tree();
    let grandchild = tree.new_node("grandchild", Position::LastChild, FIRST_ROOT_CHILD_ID).unwrap();

    assert_eq!(tree.sub_tree_depth(ROOT_ID, 0).unwrap(), vec![ROOT_ID]);
    assert_eq!(tree.sub_tree_depth(ROOT_ID, 1).unwrap(), vec![ROOT_ID, FIRST_ROOT_CHILD_ID, LAST_ROOT_CHILD_ID]);
    assert_eq!(
        tree.sub_tree_depth(ROOT_ID, 2).unwrap(),
        vec![ROOT_ID, FIRST_ROOT_CHILD_ID, grandchild, LAST_ROOT_CHILD_ID],
    );

    let pruned = tree.sub_tree_depth_info(ROOT_ID, 1).unwrap();
    let expected = vec![
        NodeInfo { id: ROOT_ID, child_count: 2, depth: 0 },
        NodeInfo { id: FIRST_ROOT_CHILD_ID, child_count: 1, depth: 1 },
        NodeInfo { id: LAST_ROOT_CHILD_ID, child_count: 0, depth: 1 },
    ];
    assert_eq!(pruned, expected);
}

#[test]
fn children_in_sibling_order() {
    let mut tree = make_tree();
    let x = tree.new_node("x", Position::SiblingAfter, FIRST_ROOT_CHILD_ID).unwrap();

    assert_eq!(tree.children_of(ROOT_ID).unwrap(), vec![FIRST_ROOT_CHILD_ID, x, LAST_ROOT_CHILD_ID]);
    assert_eq!(tree.children_of(x).unwrap(), Vec::<usize>::new());
    assert_eq!(tree.sub_tree(ROOT_ID).unwrap(), vec![ROOT_ID, FIRST_ROOT_CHILD_ID, x, LAST_ROOT_CHILD_ID]);
    assert_eq!(tree.descendants_of(ROOT_ID).unwrap(), vec![FIRST_ROOT_CHILD_ID, x, LAST_ROOT_CHILD_ID]);
}

#[test]
fn count_matches_the_preorder_walk() {
    let mut tree = make_tree();
    let a = tree.new_node("a", Position::LastChild, FIRST_ROOT_CHILD_ID).unwrap();
    tree.new_node("b", Position::SiblingAfter, a).unwrap();
    let c = tree.clone_to(FIRST_ROOT_CHILD_ID, Position::FirstChild, LAST_ROOT_CHILD_ID).unwrap();
    tree.move_to(c, Position::SiblingBefore, FIRST_ROOT_CHILD_ID).unwrap();
    tree.remove(a).unwrap();

    let root = tree.get_root().unwrap();
    assert_eq!(tree.len(), tree.sub_tree(root).unwrap().len());

    tree.make_root(c).unwrap();
    assert_eq!(tree.len(), tree.sub_tree(c).unwrap().len());
}

#[test]
fn zero_depth_info_walk_yields_only_the_start() {
    let mut tree = make_tree();
    tree.new_node("grandchild", Position::LastChild, FIRST_ROOT_CHILD_ID).unwrap();

    let infos = tree.sub_tree_depth_info(ROOT_ID, 0).unwrap();
    assert_eq!(infos, vec![NodeInfo { id: ROOT_ID, child_count: 2, depth: 0 }]);

    let infos = tree.sub_tree_depth_info(FIRST_ROOT_CHILD_ID, 0).unwrap();
    assert_eq!(infos, vec![NodeInfo { id: FIRST_ROOT_CHILD_ID, child_count: 1, depth: 0 }]);
}

#[test]
fn new_root_discards_the_whole_tree() {
    let mut tree = make_tree();
    let id = tree.new_root("fresh");

    assert_eq!(tree.len(), 1);
    assert_eq!(tree.get_root(), Some(id));
    assert_eq!(tree.parent_of(id).unwrap(), None);
    assert_eq!(tree.children_of(id).unwrap(), Vec::<usize>::new());
    // the freed slots are recycled, so the new root takes the last slot freed
    assert_eq!(id, ROOT_ID);
    assert_eq!(tree.data_at(FIRST_ROOT_CHILD_ID), Err(TreeErr::InvalidId));
    assert_eq!(tree.data_at(LAST_ROOT_CHILD_ID), Err(TreeErr::InvalidId));
}
