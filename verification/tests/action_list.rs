use wysiwyg::action_list::{DomAction, DomActionList};
use wysiwyg::handle::DomHandle;
use wysiwyg::text::chars_of;
use wysiwyg::tree::DomNode;

fn default_actions() -> Vec<DomAction> {
    vec![
        DomAction::add_node(DomHandle::new_unset(), 0, DomNode::new_empty_text()),
        DomAction::move_node(DomHandle::new_unset(), DomHandle::new_unset()),
        DomAction::remove_node(DomHandle::new_unset()),
    ]
}

fn sample_actions() -> Vec<DomAction> {
    vec![
        DomAction::add_node(DomHandle::from_raw(vec![0]), 0, DomNode::new_text(chars_of("a"))),
        DomAction::remove_node(DomHandle::from_raw(vec![1])),
        DomAction::move_node(DomHandle::from_raw(vec![2]), DomHandle::from_raw(vec![3])),
    ]
}

#[test]
fn default_creates_empty_action_list() {
    let list = DomActionList::default();
    assert!(list.actions().is_empty());
}

#[test]
fn new_can_create_empty_list_too() {
    let list = DomActionList::new(Vec::new());
    assert!(list.actions().is_empty());
}

#[test]
fn additions_removals_and_moves_are_picked_out() {
    let list = DomActionList::new(sample_actions());
    assert_eq!(list.actions().len(), 3);
    assert_eq!(list.additions().len(), 1);
    assert_eq!(list.additions()[0].index, 0);
    assert_eq!(list.removals().len(), 1);
    assert_eq!(list.removals()[0].handle.raw(), &vec![1]);
    assert_eq!(list.moves().len(), 1);
    assert_eq!(list.moves()[0].to_handle.raw(), &vec![3]);
}

#[test]
fn grouped_splits_the_list_in_order() {
    let mut list = DomActionList::new(sample_actions());
    list.push(DomAction::remove_node(DomHandle::from_raw(vec![4])));
    let (adds, removes, moves) = list.grouped();
    assert_eq!(adds.len() + removes.len() + moves.len(), 4);
    assert_eq!(removes[0].handle.raw(), &vec![1]);
    assert_eq!(removes[1].handle.raw(), &vec![4]);
    assert_eq!(moves[0].from_handle.raw(), &vec![2]);
}

#[test]
fn remove_takes_out_the_action_at_the_index() {
    let mut list = DomActionList::new(sample_actions());
    let removed = list.remove(1);
    assert!(matches!(removed, DomAction::Remove(_)));
    assert_eq!(list.actions().len(), 2);
    list.replace_actions(Vec::new());
    assert!(list.actions().is_empty());
}

#[test]
fn new_creates_action_list_with_passed_actions() {
    let actions = default_actions();
    let list = DomActionList::new(actions.clone());
    assert_eq!(&actions, list.actions());
}

#[test]
fn actions_fn_returns_all_actions() {
    let actions = default_actions();
    let list = DomActionList::new(actions.clone());
    assert_eq!(list.actions()[0], actions[0]);
    assert_eq!(list.actions()[1], actions[1]);
    assert_eq!(list.actions()[2], actions[2]);
}

#[test]
fn additions_returns_only_add_actions() {
    let actions = default_actions();
    let list = DomActionList::new(actions.clone());
    assert_eq!(1, list.additions().len());
    assert_eq!(DomAction::Add(list.additions()[0].clone()), actions[0]);
}

#[test]
fn removals_returns_only_remove_actions() {
    let actions = default_actions();
    let list = DomActionList::new(actions.clone());
    assert_eq!(1, list.removals().len());
    assert_eq!(DomAction::Remove(list.removals()[0].clone()), actions[2]);
}

#[test]
fn moves_returns_only_move_actions() {
    let actions = default_actions();
    let list = DomActionList::new(actions.clone());
    assert_eq!(1, list.moves().len());
    assert_eq!(DomAction::Move(list.moves()[0].clone()), actions[1]);
}

#[test]
fn push_adds_new_action_at_the_end_of_the_list() {
    let actions = default_actions();
    let mut list = DomActionList::new(actions);
    let new_action = DomAction::remove_node(DomHandle::new_unset());
    list.push(new_action.clone());
    assert_eq!(list.actions()[3].clone(), new_action);
}

#[test]
fn replace_actions_replaces_all_actions_with_new_ones() {
    let actions = default_actions();
    let mut list = DomActionList::new(actions.clone());
    list.replace_actions(Vec::new());
    assert!(list.actions().is_empty());
    list.replace_actions(actions.clone());
    assert_eq!(list.actions(), &actions);
}

#[test]
fn find_moved_parent_or_self_looks_for_it_in_move_actions() {
    let actions = vec![DomAction::move_node(
        DomHandle::from_raw(vec![1, 0]),
        DomHandle::from_raw(vec![0, 0]),
    )];
    let list = DomActionList::new(actions);
    let found_parent = list.find_moved_parent_or_self(&DomHandle::from_raw(vec![1, 0, 0]));
    assert_eq!(found_parent.unwrap().0, DomHandle::from_raw(vec![1, 0]));
    let found_self = list.find_moved_parent_or_self(&DomHandle::from_raw(vec![1, 0]));
    assert_eq!(found_self.unwrap().0, DomHandle::from_raw(vec![1, 0]));
    let not_found = list.find_moved_parent_or_self(&DomHandle::from_raw(vec![1]));
    assert!(not_found.is_none());
}
