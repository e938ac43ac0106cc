use tt::focus::{Focus, Jump};
use tt::tree::Tree;

fn labels_of(focus: &Focus<i32>) -> Vec<i32> {
    focus.labels().into_iter().copied().collect()
}

#[test]
fn focus_builds_and_navigates() {
    let mut focus = Focus::new(0);
    assert_eq!(focus.focused().label(), &0);

    focus.create_subtree(1);
    assert_eq!(focus.focused().label(), &1);
    assert_eq!(focus.path(), &vec![0]);

    focus.jump(Jump::Up);
    assert_eq!(focus.focused().label(), &0);
    assert!(focus.path().is_empty());

    focus.create_subtree(2);
    assert_eq!(focus.focused().label(), &2);
    assert_eq!(focus.path(), &vec![1]);

    focus.jump(Jump::Lateral(-1));
    assert_eq!(focus.focused().label(), &1);
    assert_eq!(focus.path(), &vec![0]);

    focus.create_subtree(3);
    assert_eq!(focus.labels(), vec![&0, &1, &3]);
    assert_eq!(focus.path(), &vec![0, 0]);
}

#[test]
fn from_rejects_invalid_path() {
    let mut tree = Tree::new(0);
    tree.create_subtree(1);
    assert!(Focus::from(tree, Some(vec![0, 1])).is_none());
}

#[test]
fn from_accepts_valid_path() {
    let mut tree = Tree::new(0);
    tree.create_subtree(1);
    let focus = Focus::from(tree, Some(vec![0]));
    assert!(focus.is_some());
    assert_eq!(focus.unwrap().focused().label(), &1);
}

#[test]
fn from_without_path_focuses_root() {
    let mut tree = Tree::new(7);
    tree.create_subtree(8);
    let focus = Focus::from(tree, None).unwrap();
    assert!(focus.path().is_empty());
    assert_eq!(focus.focused().label(), &7);
    assert_eq!(focus.focused().children(), 1);
}

#[test]
fn from_rejects_index_past_root_children() {
    let tree = Tree::new(0);
    assert!(Focus::from(tree, Some(vec![0])).is_none());
}

#[test]
fn tree_new_and_create_subtree() {
    let mut tree = Tree::new(0);
    assert_eq!(tree.label(), &0);
    assert_eq!(tree.children(), 0);
    tree.create_subtree(1);
    assert_eq!(tree.children(), 1);
    tree.create_subtree(2);
    assert_eq!(tree.children(), 2);
    let last = tree.child_at(1).unwrap();
    assert_eq!(last.label(), &2);
    assert_eq!(last.children(), 0);
    assert_eq!(tree.child_at(0).unwrap().label(), &1);
}

#[test]
fn child_at_present_only_in_range() {
    let mut tree = Tree::new(0);
    assert!(tree.child_at(0).is_none());
    tree.create_subtree(1);
    tree.create_subtree(2);
    assert!(tree.child_at(0).is_some());
    assert!(tree.child_at(1).is_some());
    assert!(tree.child_at(2).is_none());
    assert!(tree.child_at(usize::MAX).is_none());
}

#[test]
fn child_at_mut_changes_only_that_child() {
    let mut tree = Tree::new(0);
    tree.create_subtree(1);
    tree.create_subtree(2);
    assert!(tree.child_at_mut(2).is_none());
    tree.child_at_mut(1).unwrap().create_subtree(5);
    assert_eq!(tree.children(), 2);
    assert_eq!(tree.child_at(0).unwrap().children(), 0);
    let second = tree.child_at(1).unwrap();
    assert_eq!(second.children(), 1);
    assert_eq!(second.child_at(0).unwrap().label(), &5);
}

#[test]
fn tree_parts_round_trip() {
    let mut tree = Tree::new(0);
    tree.create_subtree(1);
    tree.create_subtree(2);
    let (label, children) = tree.into_parts();
    assert_eq!(label, 0);
    assert_eq!(children.len(), 2);
    let rebuilt = Tree::from_parts(label, children);
    assert_eq!(rebuilt.label(), &0);
    assert_eq!(rebuilt.children(), 2);
    assert_eq!(rebuilt.child_at(1).unwrap().label(), &2);
}

#[test]
fn focus_parts_round_trip() {
    let mut focus = Focus::new(0);
    focus.create_subtree(1);
    focus.create_subtree(2);
    let (tree, path) = focus.into_parts();
    assert_eq!(path, vec![0, 0]);
    let again = Focus::from(tree, Some(path)).unwrap();
    assert_eq!(again.path(), &vec![0, 0]);
    assert_eq!(labels_of(&again), vec![0, 1, 2]);
}

#[test]
fn up_at_root_is_no_op() {
    let mut focus = Focus::new(0);
    focus.jump(Jump::Up);
    assert!(focus.path().is_empty());
    assert_eq!(focus.focused().label(), &0);
}

#[test]
fn down_on_leaf_is_no_op() {
    let mut focus = Focus::new(0);
    focus.jump(Jump::Down);
    assert!(focus.path().is_empty());
    focus.create_subtree(1);
    focus.jump(Jump::Down);
    assert_eq!(focus.path(), &vec![0]);
}

#[test]
fn down_moves_to_first_child() {
    let mut focus = Focus::new(0);
    focus.create_subtree(1);
    focus.jump(Jump::Up);
    focus.create_subtree(2);
    focus.jump(Jump::Up);
    focus.jump(Jump::Down);
    assert_eq!(focus.path(), &vec![0]);
    assert_eq!(focus.focused().label(), &1);
}

#[test]
fn lateral_at_root_is_no_op() {
    let mut focus = Focus::new(0);
    focus.create_subtree(1);
    focus.jump(Jump::Up);
    focus.jump(Jump::Lateral(1));
    assert!(focus.path().is_empty());
    focus.jump(Jump::Lateral(-3));
    assert!(focus.path().is_empty());
}

fn root_with_children(k: i32) -> Focus<i32> {
    let mut focus = Focus::new(0);
    let mut i: i32 = 1;
    while i <= k {
        focus.create_subtree(i);
        focus.jump(Jump::Up);
        i += 1;
    }
    focus.jump(Jump::Down);
    focus
}

#[test]
fn lateral_moves_within_range() {
    let mut focus = root_with_children(5);
    focus.jump(Jump::Lateral(2));
    assert_eq!(focus.path(), &vec![2]);
    focus.jump(Jump::Lateral(-1));
    assert_eq!(focus.path(), &vec![1]);
    assert_eq!(focus.focused().label(), &2);
    focus.jump(Jump::Lateral(0));
    assert_eq!(focus.path(), &vec![1]);
}

#[test]
fn lateral_clamps_at_both_ends() {
    let mut focus = root_with_children(4);
    focus.jump(Jump::Lateral(100));
    assert_eq!(focus.path(), &vec![3]);
    focus.jump(Jump::Lateral(i32::MAX));
    assert_eq!(focus.path(), &vec![3]);
    focus.jump(Jump::Lateral(-2));
    assert_eq!(focus.path(), &vec![1]);
    focus.jump(Jump::Lateral(-100));
    assert_eq!(focus.path(), &vec![0]);
    focus.jump(Jump::Lateral(i32::MIN));
    assert_eq!(focus.path(), &vec![0]);
}

#[test]
fn lateral_with_single_sibling_stays() {
    let mut focus = Focus::new(0);
    focus.create_subtree(1);
    focus.jump(Jump::Lateral(1));
    assert_eq!(focus.path(), &vec![0]);
    focus.jump(Jump::Lateral(-1));
    assert_eq!(focus.path(), &vec![0]);
}

#[test]
fn labels_length_follows_path() {
    let mut focus = Focus::new(0);
    assert_eq!(labels_of(&focus), vec![0]);
    focus.create_subtree(1);
    focus.create_subtree(2);
    focus.create_subtree(3);
    assert_eq!(focus.labels().len(), focus.path().len() + 1);
    assert_eq!(labels_of(&focus), vec![0, 1, 2, 3]);
    focus.jump(Jump::Up);
    assert_eq!(labels_of(&focus), vec![0, 1, 2]);
    assert_eq!(focus.labels().len(), focus.path().len() + 1);
}

#[test]
fn create_subtree_grows_focused_node() {
    let mut focus = Focus::new(0);
    focus.create_subtree(1);
    focus.jump(Jump::Up);
    assert_eq!(focus.focused().children(), 1);
    focus.create_subtree(2);
    assert_eq!(focus.path(), &vec![1]);
    assert_eq!(focus.focused().label(), &2);
    assert_eq!(focus.focused().children(), 0);
    focus.jump(Jump::Up);
    assert_eq!(focus.focused().children(), 2);
    assert_eq!(focus.focused().child_at(1).unwrap().label(), &2);
}

#[test]
fn path_stays_valid_after_mixed_moves() {
    let mut focus = Focus::new(0);
    let moves = [Jump::Down, Jump::Up, Jump::Lateral(3), Jump::Up, Jump::Down];
    for step in moves {
        focus.create_subtree(1);
        focus.jump(step);
        let path = focus.path().clone();
        let (tree, _) = focus.into_parts();
        focus = Focus::from(tree, Some(path)).unwrap();
    }
    assert_eq!(focus.labels().len(), focus.path().len() + 1);
}
