use std::any::Any;

use tree::{Tree, TreeError, ALLOW_CHILDREN, ALLOW_DATA};

fn chain() -> Tree<u32> {
    // root 0 -> 1 -> 2 -> 3, and a second child 4 of the root
    let mut tree: Tree<u32> = Tree::new();
    assert_eq!(tree.insert(99, ALLOW_CHILDREN, None, None), Ok(0));
    assert_eq!(tree.insert(0, ALLOW_CHILDREN, None, None), Ok(1));
    assert_eq!(tree.insert(1, ALLOW_CHILDREN, None, None), Ok(2));
    assert_eq!(tree.insert(2, ALLOW_CHILDREN, None, None), Ok(3));
    assert_eq!(tree.insert(0, ALLOW_CHILDREN, None, None), Ok(4));
    tree
}

#[test]
fn count_never_exceeds_len() {
    let mut tree = chain();
    assert!(tree.count() <= tree.len());
    assert_eq!(tree.count(), 5);
    tree.delete(3).unwrap();
    assert_eq!(tree.count(), 4);
    assert_eq!(tree.len(), 5);
    assert!(tree.count() <= tree.len());
}

#[test]
fn slot_reuse_takes_freed_index() {
    let mut tree = chain();
    tree.delete(4).unwrap();
    assert_eq!(tree.len(), 5);
    assert_eq!(tree.count(), 4);
    assert_eq!(tree.insert(3, ALLOW_DATA, None, None), Ok(4));
    assert_eq!(tree.len(), 5);
    assert_eq!(tree.count(), 5);
    assert_eq!(tree.parent(4), Ok(3));
}

#[test]
fn slot_reuse_takes_lowest_vacant() {
    let mut tree = chain();
    tree.delete(4).unwrap();
    tree.delete(3).unwrap();
    assert_eq!(tree.insert(0, ALLOW_DATA, None, None), Ok(3));
    assert_eq!(tree.insert(0, ALLOW_DATA, None, None), Ok(4));
    assert_eq!(tree.insert(0, ALLOW_DATA, None, None), Ok(5));
    assert_eq!(tree.len(), 6);
}

#[test]
fn deleting_root_clears_everything() {
    let mut tree: Tree<u32> = Tree::new();
    tree.insert(0, ALLOW_CHILDREN | ALLOW_DATA, None, None).unwrap();
    tree.delete(0).unwrap();
    assert_eq!(tree.count(), 0);
    assert_eq!(tree.len(), 0);
    assert!(!tree.node_exists(0));
    assert_eq!(tree.insert(17, ALLOW_CHILDREN, None, None), Ok(0));
}

#[test]
fn taking_root_clears_everything() {
    let mut tree: Tree<u32> = Tree::new();
    tree.insert(0, ALLOW_DATA, Some(5), Some(6)).unwrap();
    tree.data_mut(0).unwrap().push(41);
    assert_eq!(tree.take(0), Ok(Some(vec![41])));
    assert_eq!(tree.count(), 0);
    assert_eq!(tree.len(), 0);
    assert!(!tree.node_exists(0));
}

#[test]
fn take_without_data_gives_none() {
    let mut tree: Tree<u32> = Tree::new();
    tree.insert(0, ALLOW_CHILDREN, None, None).unwrap();
    tree.insert(0, ALLOW_CHILDREN, None, None).unwrap();
    assert_eq!(tree.take(1), Ok(None));
    assert_eq!(tree.count(), 1);
    assert_eq!(tree.children(0).unwrap().len(), 0);
}

#[test]
fn delete_with_children_fails() {
    let mut tree = chain();
    assert_eq!(tree.delete(1), Err(TreeError::HasChildren(1)));
    assert_eq!(tree.take(0), Err(TreeError::HasChildren(0)));
    assert_eq!(tree.delete(9), Err(TreeError::RetrievingNode(9)));
    assert_eq!(tree.count(), 5);
}

#[test]
fn children_not_allowed_blocks_insert() {
    let mut tree: Tree<u32> = Tree::new();
    tree.insert(0, ALLOW_CHILDREN, None, None).unwrap();
    tree.insert(0, ALLOW_DATA, None, None).unwrap();
    assert_eq!(tree.insert(1, ALLOW_DATA, None, None), Err(TreeError::NoChildrenAllowed(1)));
    assert_eq!(tree.insert_at(1, 0, ALLOW_DATA, None, None), Err(TreeError::NoChildrenAllowed(1)));
    assert_eq!(tree.children(1), Err(TreeError::NoChildrenAllowed(1)));
    assert_eq!(tree.insert(7, ALLOW_DATA, None, None), Err(TreeError::RetrievingNode(7)));
    assert_eq!(tree.count(), 2);
}

#[test]
fn data_not_allowed_blocks_data_access() {
    let mut tree: Tree<u32> = Tree::new();
    tree.insert(0, ALLOW_CHILDREN, None, None).unwrap();
    assert_eq!(tree.data_ref(0), Err(TreeError::NoDataAllowed(0)));
    assert_eq!(tree.data_mut(0), Err(TreeError::NoDataAllowed(0)));
    assert_eq!(tree.data_ref(3), Err(TreeError::RetrievingNode(3)));
}

#[test]
fn parent_and_children_agree() {
    let tree = chain();
    for i in 1..5 {
        let p = tree.parent(i).unwrap();
        let listed = tree.children(p).unwrap();
        assert_eq!(listed.iter().filter(|&&c| c == i).count(), 1);
    }
    assert_eq!(tree.children(0).unwrap(), &vec![1, 4]);
    assert_eq!(tree.parent(0), Err(TreeError::RootHasNoParent(0)));
    assert_eq!(tree.parent(8), Err(TreeError::RetrievingNode(8)));
}

#[test]
fn ancestry_of_a_chain() {
    let tree = chain();
    assert_eq!(tree.is_ancestor_of(3, 0), Ok(true));
    assert_eq!(tree.is_ancestor_of(3, 1), Ok(true));
    assert_eq!(tree.is_ancestor_of(1, 3), Ok(false));
    assert_eq!(tree.is_ancestor_of(3, 3), Ok(false));
    assert_eq!(tree.is_ancestor_of(3, 4), Ok(false));
    assert_eq!(tree.is_ancestor_of(0, 0), Ok(false));
    assert_eq!(tree.is_ancestor_of(6, 0), Err(TreeError::RetrievingNode(6)));
}

#[test]
fn cyclic_move_is_rejected() {
    let mut tree = chain();
    assert_eq!(tree.move_nodes(1, 3, None), Err(TreeError::IsAncestorOf(1, 3)));
    assert_eq!(tree.move_nodes(0, 2, None), Err(TreeError::IsAncestorOf(0, 2)));
    assert_eq!(tree.parent(1), Ok(0));
    assert_eq!(tree.children(3).unwrap().len(), 0);
    assert_eq!(tree.children(0).unwrap(), &vec![1, 4]);
}

#[test]
fn move_errors() {
    let mut tree = chain();
    tree.insert(0, ALLOW_DATA, None, None).unwrap();
    assert_eq!(tree.move_nodes(2, 5, None), Err(TreeError::NoChildrenAllowed(5)));
    assert_eq!(tree.move_nodes(2, 9, None), Err(TreeError::RetrievingNode(9)));
    assert_eq!(tree.move_nodes(9, 4, None), Err(TreeError::RetrievingNode(9)));
    assert_eq!(tree.move_nodes(2, 4, Some(1)), Err(TreeError::ExceedsChildren(1, 4)));
    assert_eq!(tree.move_nodes(0, 0, None), Ok(()));
    assert_eq!(tree.move_nodes(2, 2, None), Ok(()));
    assert_eq!(tree.parent(2), Ok(1));
}

#[test]
fn move_carries_subtree() {
    let mut tree = chain();
    assert_eq!(tree.depth(2), Ok(2));
    assert_eq!(tree.depth(3), Ok(3));
    assert_eq!(tree.move_nodes(2, 4, None), Ok(()));
    assert_eq!(tree.parent(2), Ok(4));
    assert_eq!(tree.parent(3), Ok(2));
    assert_eq!(tree.depth(2), Ok(2));
    assert_eq!(tree.depth(3), Ok(3));
    assert_eq!(tree.is_ancestor_of(3, 2), Ok(true));
    assert_eq!(tree.is_ancestor_of(3, 4), Ok(true));
    assert_eq!(tree.is_ancestor_of(3, 1), Ok(false));
    assert_eq!(tree.children(1).unwrap().len(), 0);
    assert_eq!(tree.children(4).unwrap(), &vec![2]);
    // Hanging it higher makes the whole subtree rise by one.
    assert_eq!(tree.move_nodes(2, 0, Some(0)), Ok(()));
    assert_eq!(tree.depth(2), Ok(1));
    assert_eq!(tree.depth(3), Ok(2));
    assert_eq!(tree.children(0).unwrap(), &vec![2, 1, 4]);
}

#[test]
fn move_within_same_parent_reorders() {
    let mut tree: Tree<u32> = Tree::new();
    tree.insert(0, ALLOW_CHILDREN, None, None).unwrap();
    for _ in 0..3 {
        tree.insert(0, ALLOW_DATA, None, None).unwrap();
    }
    assert_eq!(tree.children(0).unwrap(), &vec![1, 2, 3]);
    assert_eq!(tree.move_nodes(1, 0, None), Ok(()));
    assert_eq!(tree.children(0).unwrap(), &vec![2, 3, 1]);
    assert_eq!(tree.move_nodes(1, 0, Some(0)), Ok(()));
    assert_eq!(tree.children(0).unwrap(), &vec![1, 2, 3]);
    assert_eq!(tree.move_nodes(1, 0, Some(2)), Ok(()));
    assert_eq!(tree.children(0).unwrap(), &vec![2, 3, 1]);
    assert_eq!(tree.move_nodes(2, 0, Some(3)), Err(TreeError::ExceedsChildren(3, 0)));
    assert_eq!(tree.children(0).unwrap(), &vec![2, 3, 1]);
}

#[test]
fn insert_at_position_bounds() {
    let mut tree: Tree<u32> = Tree::new();
    tree.insert(0, ALLOW_CHILDREN, None, None).unwrap();
    tree.insert(0, ALLOW_DATA, None, None).unwrap();
    assert_eq!(tree.insert_at(0, 1, ALLOW_DATA, None, None), Ok(2));
    assert_eq!(tree.insert_at(0, 0, ALLOW_DATA, None, None), Ok(3));
    assert_eq!(tree.children(0).unwrap(), &vec![3, 1, 2]);
    assert_eq!(tree.insert_at(0, 4, ALLOW_DATA, None, None), Err(TreeError::ExceedsChildren(4, 0)));
    assert_eq!(tree.count(), 4);
    assert_eq!(tree.first(0), Ok(3));
    assert_eq!(tree.last(0), Ok(2));
    assert_eq!(tree.child(0, 1), Ok(1));
    assert_eq!(tree.child(0, 3), Err(TreeError::NoChildrenFound(0)));
}

#[test]
fn insert_at_ignores_position_on_empty_tree() {
    let mut tree: Tree<u32> = Tree::new();
    assert_eq!(tree.insert_at(5, 9, ALLOW_CHILDREN, None, None), Ok(0));
    assert_eq!(tree.first(0), Err(TreeError::NoChildrenFound(0)));
}

#[test]
fn scenario_from_empty() {
    let mut tree: Tree<Box<dyn Any>> = Tree::new();
    assert_eq!(tree.insert(12, ALLOW_CHILDREN, None, None), Ok(0));
    assert_eq!(tree.parent(0), Err(TreeError::RootHasNoParent(0)));
    assert_eq!(tree.insert(0, ALLOW_CHILDREN, None, None), Ok(1));
    assert_eq!(tree.parent(1), Ok(0));
    assert_eq!(tree.children(0).unwrap(), &vec![1]);
    assert_eq!(tree.depth(1), Ok(1));
    assert_eq!(tree.depth(0), Ok(0));
    assert_eq!(tree.delete(1), Ok(()));
    assert_eq!(tree.count(), 1);
}

#[test]
fn payloads_are_kept() {
    let mut tree: Tree<String> = Tree::new();
    tree.insert(0, ALLOW_DATA, Some("kind".to_string()), Some("text".to_string())).unwrap();
    assert_eq!(tree.node_type(0), Ok(&Some("kind".to_string())));
    assert_eq!(tree.data_type(0), Ok(&Some("text".to_string())));
    assert_eq!(*tree.features(0).unwrap(), ALLOW_DATA);
    assert_eq!(tree.node_type(1), Err(TreeError::RetrievingNode(1)));
    tree.data_mut(0).unwrap().push("a".to_string());
    tree.data_mut(0).unwrap().push("b".to_string());
    assert_eq!(tree.data_ref(0).unwrap(), &vec!["a".to_string(), "b".to_string()]);
}

#[test]
fn clear_empties_tree() {
    let mut tree = chain();
    tree.clear();
    assert_eq!(tree.count(), 0);
    assert_eq!(tree.len(), 0);
    assert_eq!(tree.insert(3, ALLOW_CHILDREN, None, None), Ok(0));
}
