use wysiwyg::handle::DomHandle;

#[test]
fn creating_root_handle() {
    let root = DomHandle::root();
    assert!(root.is_root());
    assert!(!root.is_ancestor_of(&DomHandle::root()));
    assert!(root.is_ancestor_of(&DomHandle::from_raw(vec![0, 1, 2])));
}

#[test]
fn computing_handle_depth() {
    assert_eq!(DomHandle::root().depth(), 0);
    assert_eq!(DomHandle::from_raw(vec![0]).depth(), 1);
    assert_eq!(DomHandle::from_raw(vec![0, 1, 2]).depth(), 3);
}

#[test]
fn computing_parent_handle() {
    let handle = DomHandle::from_raw(vec![0, 1, 2]);
    assert!(handle.has_parent());
    assert_eq!(handle.index_in_parent(), 2);
    assert_eq!(handle.parent_handle().index_in_parent(), 1);
    assert_eq!(handle.parent_handle().raw(), &vec![0, 1]);
    assert_eq!(
        &handle.parent_handle().parent_handle().parent_handle(),
        &DomHandle::root(),
    );
}

#[test]
fn sub_handle_up_to_depth() {
    let handle = DomHandle::from_raw(vec![0, 1, 2, 1, 2]);
    assert_eq!(handle.sub_handle_up_to(3).raw(), &vec![0, 1, 2]);
    assert_eq!(handle.sub_handle_up_to(handle.depth()), handle)
}

#[test]
fn computing_siblings_handle() {
    let handle = DomHandle::from_raw(vec![0, 2, 1]);
    assert_eq!(handle.prev_sibling().raw(), &vec![0, 2, 0]);
    assert_eq!(handle.next_sibling().raw(), &vec![0, 2, 2]);
}

#[test]
fn replacing_handle_ancestor() {
    let mut handle = DomHandle::from_raw(vec![0, 1, 2, 4, 5]);
    let parent = DomHandle::from_raw(vec![0, 1, 2]);
    let new_parent = DomHandle::from_raw(vec![7, 8]);
    handle.replace_ancestor(parent, new_parent);
    assert_eq!(handle.raw(), &vec![7, 8, 4, 5],)
}

#[test]
fn replacing_handle_ancestor_using_self() {
    let mut handle = DomHandle::from_raw(vec![0, 1, 2, 4, 5]);
    let new_parent = DomHandle::from_raw(vec![7, 8]);
    handle.replace_ancestor(handle.clone(), new_parent.clone());
    assert_eq!(handle.raw(), new_parent.raw());
}
