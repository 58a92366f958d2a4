use casein::elements::{chain, Col, Elem, Empty, Padding, Row, Text};
use casein::geom::{size_add, size_sub, Bounds, Extent};
use casein::node::Node;
use casein::shape::TextRun;

fn text(width: u32, height: u32) -> Text {
    Text::new(1, 14, TextRun { glyphs: vec![], width, height })
}

fn window(width: u32, height: u32) -> Bounds {
    Bounds::new(Extent::Finite(width), Extent::Finite(height))
}

#[test]
fn row_packs_two_texts() {
    let mut root = Node::new();
    Row::new(5, chain(text(40, 10), text(60, 14))).apply(&mut root, window(800, 600));
    assert_eq!(root.size(), (105, 14));
    assert_eq!(root.children()[0].offset(), (0, 0));
    assert_eq!(root.children()[1].offset(), (45, 0));
    assert_eq!(root.children()[0].size(), (40, 10));
    assert_eq!(root.children()[1].size(), (60, 14));
}

#[test]
fn empty_row_is_zero_sized() {
    let mut root = Node::new();
    Row::new(7, ()).apply(&mut root, window(800, 600));
    assert_eq!(root.size(), (0, 0));
    assert_eq!(root.children().len(), 0);
}

#[test]
fn single_child_row_has_no_trailing_spacing() {
    let mut root = Node::new();
    Row::new(5, text(40, 10)).apply(&mut root, window(800, 600));
    assert_eq!(root.size(), (40, 10));
}

#[test]
fn col_packs_downwards() {
    let mut root = Node::new();
    Col::new(3, chain(text(40, 10), text(60, 14))).apply(&mut root, window(800, 600));
    assert_eq!(root.size(), (60, 27));
    assert_eq!(root.children()[0].offset(), (0, 0));
    assert_eq!(root.children()[1].offset(), (0, 13));
}

#[test]
fn padding_inflates_child() {
    let mut root = Node::new();
    Padding::new(5, text(40, 10)).apply(&mut root, window(800, 600));
    assert_eq!(root.size(), (50, 20));
    assert_eq!(root.children()[0].offset(), (5, 5));
    assert_eq!(root.children()[0].size(), (40, 10));
}

fn geometry(node: &Node, out: &mut Vec<(usize, u32, u32, i64, i64)>) {
    let (w, h) = node.size();
    let (x, y) = node.offset();
    out.push((node.tag, w, h, x, y));
    for child in node.children().iter() {
        geometry(child, out);
    }
}

#[test]
fn reapplying_same_tree_is_bit_identical() {
    let mut root = Node::new();
    let bounds = window(800, 600);
    Row::new(5, chain(Padding::new(2, text(40, 10)), text(60, 14))).apply(&mut root, bounds);
    let mut first = Vec::new();
    geometry(&root, &mut first);
    Row::new(5, chain(Padding::new(2, text(40, 10)), text(60, 14))).apply(&mut root, bounds);
    let mut second = Vec::new();
    geometry(&root, &mut second);
    assert_eq!(first, second);
}

#[test]
fn pruning_drops_trailing_children() {
    let mut root = Node::new();
    let bounds = window(800, 600);
    Row::new(0, vec![text(10, 10), text(10, 10), text(10, 10)]).apply(&mut root, bounds);
    assert_eq!(root.children().len(), 3);
    Row::new(0, vec![text(10, 10)]).apply(&mut root, bounds);
    assert_eq!(root.children().len(), 1);
}

#[test]
fn empty_elements_occupy_zero_sized_slots() {
    let mut root = Node::new();
    Row::new(5, chain(Empty, text(40, 10))).apply(&mut root, window(800, 600));
    assert_eq!(root.children().len(), 2);
    assert_eq!(root.children()[0].size(), (0, 0));
    assert_eq!(root.children()[1].offset(), (5, 0));
    assert_eq!(root.size(), (45, 10));
}

#[test]
fn tuple_children_fill_slots_in_order() {
    let mut root = Node::new();
    Row::new(1, (text(10, 5), text(20, 6), text(30, 7))).apply(&mut root, window(800, 600));
    assert_eq!(root.children().len(), 3);
    assert_eq!(root.size(), (62, 7));
    assert_eq!(root.children()[0].offset(), (0, 0));
    assert_eq!(root.children()[1].offset(), (11, 0));
    assert_eq!(root.children()[2].offset(), (32, 0));
}

#[test]
fn size_arithmetic_saturates() {
    assert_eq!(size_add(u32::MAX, 5), u32::MAX);
    assert_eq!(size_add(3, 4), 7);
    assert_eq!(size_sub(3, 5), 0);
    assert_eq!(size_sub(9, 5), 4);
}
