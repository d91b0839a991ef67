use link_crawler::link_tree::{IdCounter, LinkTreeNode};

fn node(link: &str, ids: &mut IdCounter) -> LinkTreeNode {
    LinkTreeNode::create(&link.to_string(), ids)
}

#[test]
fn create_takes_consecutive_ids() {
    let mut ids = IdCounter::new();
    assert_eq!(ids.peek(), 0);
    let a = node("https://a.example", &mut ids);
    let b = node("https://b.example", &mut ids);
    assert_eq!(a.get_id(), 0);
    assert_eq!(b.get_id(), 1);
    assert_eq!(ids.peek(), 2);
    assert_eq!(a.link_ref(), "https://a.example");
    assert_eq!(a.child_count(), 0);
}

#[test]
fn add_child_sets_parent_and_keeps_order() {
    let mut ids = IdCounter::new();
    let mut root = node("root", &mut ids);
    let c1 = node("one", &mut ids);
    let c2 = node("two", &mut ids);
    root.add_child(c1);
    root.add_child(c2);
    let children = root.node_list_immutable();
    assert_eq!(children.len(), 2);
    assert_eq!(children[0].link_ref(), "one");
    assert_eq!(children[1].link_ref(), "two");
    assert_eq!(root.render(0), " root; id:0; parent_id:0;\n          one; id:1; parent_id:0;\n          two; id:2; parent_id:0;\n");
}

#[test]
fn set_parent_id_changes_only_the_parent() {
    let mut ids = IdCounter::new();
    let mut n = node("x", &mut ids);
    n.set_parent_id(42);
    assert_eq!(n.render(0), " x; id:0; parent_id:42;\n");
    assert_eq!(n.get_id(), 0);
}

#[test]
fn link_returns_the_link() {
    let mut ids = IdCounter::new();
    let mut n = node("https://site.example/page", &mut ids);
    assert_eq!(n.link(), "https://site.example/page");
}

#[test]
fn node_list_can_be_changed_in_place() {
    let mut ids = IdCounter::new();
    let mut root = node("root", &mut ids);
    let c = node("child", &mut ids);
    root.add_child(c);
    let list = root.node_list();
    assert_eq!(list.len(), 1);
    list[0].set_parent_id(7);
    list.pop();
    assert_eq!(root.child_count(), 0);
    assert_eq!(root.render(0), " root; id:0; parent_id:0;\n");
}

#[test]
fn display_string_indents_each_level_by_ten() {
    let mut ids = IdCounter::new();
    let mut root = node("r", &mut ids);
    let mut a = node("a", &mut ids);
    let b = node("b", &mut ids);
    a.add_child(b);
    root.add_child(a);
    let expected = " r; id:0; parent_id:0;\n          a; id:1; parent_id:0;\n                    b; id:2; parent_id:1;\n";
    assert_eq!(root.to_display_string(), expected);
    assert_eq!(root.render(3), "   r; id:0; parent_id:0;\n             a; id:1; parent_id:0;\n                       b; id:2; parent_id:1;\n");
}

#[test]
fn breadth_first_goes_level_by_level() {
    let mut ids = IdCounter::new();
    let mut root = node("r", &mut ids);
    let mut a = node("a", &mut ids);
    let mut b = node("b", &mut ids);
    let c = node("c", &mut ids);
    let d = node("d", &mut ids);
    a.add_child(c);
    b.add_child(d);
    root.add_child(a);
    root.add_child(b);
    assert_eq!(root.breadth_first(), vec![(0, 0), (1, 1), (2, 1), (3, 2), (4, 2)]);
}

#[test]
fn add_children_at_grafts_fresh_leaves() {
    let mut ids = IdCounter::new();
    let mut root = node("r", &mut ids);
    let a = node("a", &mut ids);
    root.add_child(a);
    let links = vec!["x".to_string(), "y".to_string()];
    root.add_children_at(&vec![0], &links, &mut ids);
    assert_eq!(ids.peek(), 4);
    let a = root.node_ref_at(&vec![0]);
    assert_eq!(a.child_count(), 2);
    assert_eq!(root.node_ref_at(&vec![0, 1]).link_ref(), "y");
    assert_eq!(root.node_ref_at(&vec![0, 1]).get_id(), 3);
    assert_eq!(
        root.render(0),
        " r; id:0; parent_id:0;\n          a; id:1; parent_id:0;\n                    x; id:2; parent_id:1;\n                    y; id:3; parent_id:1;\n"
    );
}
