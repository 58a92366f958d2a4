use casein::node::{Node, Slot};

#[test]
fn cursor_reuses_and_prunes_slots() {
    let mut node = Node::new();
    let mut cur = node.edit_children();
    let mut a = cur.add();
    a.tag(100);
    cur.place(a);
    let mut b = cur.add();
    b.tag(101);
    cur.place(b);
    node.end_edit(cur);
    assert_eq!(node.children().len(), 2);
    assert_eq!(node.children()[0].tag, 100);
    assert_eq!(node.children()[1].tag, 101);

    // The next frame asks for one slot: the first retained child is
    // offered back, everything after it is pruned on release.
    let mut cur = node.edit_children();
    let mut a = cur.add();
    assert!(a.tag(100));
    cur.place(a);
    node.end_edit(cur);
    assert_eq!(node.children().len(), 1);
    assert_eq!(node.children()[0].tag, 100);
}

#[test]
fn matching_tag_keeps_the_node_whole() {
    let mut node = Node::new();
    node.tag(42);
    node.set_size(10, 20);
    node.set_state(Slot::Scroll(7));
    assert!(node.tag(42));
    assert_eq!(node.size(), (10, 20));
    assert_eq!(node.state(), Slot::Scroll(7));
}

#[test]
fn changed_tag_resets_the_node() {
    let mut node = Node::new();
    node.tag(42);
    node.set_size(10, 20);
    node.set_state(Slot::Scroll(7));
    assert!(!node.tag(43));
    assert_eq!(node.size(), (0, 0));
    assert_eq!(node.state(), Slot::Vacant);
    assert_eq!(node.tag, 43);
}

#[test]
fn children_mut_edits_in_place() {
    let mut node = Node::new();
    let mut cur = node.edit_children();
    let c = cur.add();
    cur.place(c);
    node.end_edit(cur);
    node.children_mut()[0].set_offset(3, 4);
    assert_eq!(node.children()[0].offset(), (3, 4));
}
