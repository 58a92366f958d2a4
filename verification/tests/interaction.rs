use casein::elements::{chain, Button, Col, Elem, Scrollable, Text, TAG_TEXT};
use casein::geom::{Bounds, Extent};
use casein::input::{Input, InputState, Modifiers, MouseButton};
use casein::node::{Node, Slot};
use casein::shape::{Color, Shape, TextRun};

fn text(width: u32, height: u32) -> Text {
    Text::new(1, 14, TextRun { glyphs: vec![], width, height })
}

fn window(width: u32, height: u32) -> Bounds {
    Bounds::new(Extent::Finite(width), Extent::Finite(height))
}

fn pointer(x: i64, y: i64) -> InputState {
    InputState { mouse_x: x, mouse_y: y, modifiers: Modifiers::none() }
}

#[test]
fn press_drag_release_outside() {
    let mut root = Node::new();
    let bounds = window(800, 600);
    Button::new(text(40, 10)).apply(&mut root, bounds);
    // The padded, backed button is 50 by 20.
    assert_eq!(root.size(), (50, 20));

    root.input(Input::MouseMove, &pointer(10, 10));
    assert!(root.hover());
    assert!(!root.dragging());

    root.input(Input::MouseDown(MouseButton::Left), &pointer(10, 10));
    assert!(root.dragging());

    // Dragging keeps capture even though the pointer has left the node.
    root.input(Input::MouseMove, &pointer(1000, 1000));
    assert!(root.dragging());
    assert!(!root.hover());

    // A release anywhere ends the drag.
    root.input(Input::MouseUp(MouseButton::Left), &pointer(1000, 1000));
    assert!(!root.dragging());
}

#[test]
fn click_emits_message_exactly_once() {
    let mut root = Node::new();
    let bounds = window(800, 600);
    Button::new(text(40, 10)).on_click(7).apply(&mut root, bounds);

    root.input(Input::MouseMove, &pointer(10, 10));
    root.input(Input::MouseDown(MouseButton::Left), &pointer(10, 10));
    root.input(Input::MouseUp(MouseButton::Left), &pointer(10, 10));

    Button::new(text(40, 10)).on_click(7).apply(&mut root, bounds);
    assert_eq!(root.take_messages(), vec![7]);
    assert_eq!(root.take_messages(), Vec::<u64>::new());

    // After the release the button is hovered but no longer pressed.
    match root.children()[0].shape() {
        Shape::Rect { color, .. } => assert_eq!(*color, Color::rgba(138, 161, 181, 255)),
        _ => panic!("button background must be a rectangle"),
    }
}

#[test]
fn right_button_release_does_not_click() {
    let mut root = Node::new();
    let bounds = window(800, 600);
    Button::new(text(40, 10)).on_click(9).apply(&mut root, bounds);

    root.input(Input::MouseMove, &pointer(10, 10));
    root.input(Input::MouseDown(MouseButton::Right), &pointer(10, 10));
    root.input(Input::MouseUp(MouseButton::Right), &pointer(10, 10));

    Button::new(text(40, 10)).on_click(9).apply(&mut root, bounds);
    assert_eq!(root.take_messages(), Vec::<u64>::new());
}

#[test]
fn pressed_button_shows_pressed_color() {
    let mut root = Node::new();
    let bounds = window(800, 600);
    Button::new(text(40, 10)).apply(&mut root, bounds);
    root.input(Input::MouseMove, &pointer(10, 10));
    root.input(Input::MouseDown(MouseButton::Left), &pointer(10, 10));
    Button::new(text(40, 10)).apply(&mut root, bounds);
    match root.children()[0].shape() {
        Shape::Rect { color, .. } => assert_eq!(*color, Color::rgba(36, 112, 196, 255)),
        _ => panic!("button background must be a rectangle"),
    }
}

#[test]
fn scroll_offset_is_clamped_and_retained() {
    let mut root = Node::new();
    let bounds = window(200, 100);
    Scrollable::new(text(100, 1000)).apply(&mut root, bounds);
    assert_eq!(root.state(), Slot::Scroll(0));

    root.input(Input::MouseMove, &pointer(10, 10));
    root.input(Input::Scroll(0, -50), &pointer(10, 10));
    Scrollable::new(text(100, 1000)).apply(&mut root, bounds);
    assert_eq!(root.state(), Slot::Scroll(50));
    assert_eq!(root.children()[0].offset(), (0, -50));

    // Scrolling far past the end stops at the content limit.
    root.input(Input::Scroll(0, -100000), &pointer(10, 10));
    Scrollable::new(text(100, 1000)).apply(&mut root, bounds);
    assert_eq!(root.state(), Slot::Scroll(900));

    // Scrolling back past the top stops at zero.
    root.input(Input::Scroll(0, 100000), &pointer(10, 10));
    Scrollable::new(text(100, 1000)).apply(&mut root, bounds);
    assert_eq!(root.state(), Slot::Scroll(0));
}

#[test]
fn scroll_state_survives_changed_parameters() {
    let mut root = Node::new();
    let bounds = window(200, 100);
    Scrollable::new(text(100, 1000)).apply(&mut root, bounds);
    root.input(Input::MouseMove, &pointer(10, 10));
    root.input(Input::Scroll(0, -50), &pointer(10, 10));
    Scrollable::new(text(100, 1000)).apply(&mut root, bounds);
    assert_eq!(root.state(), Slot::Scroll(50));

    // Same element type with different parameters: the typed state stays.
    Scrollable::new(text(100, 2000)).apply(&mut root, bounds);
    assert_eq!(root.state(), Slot::Scroll(50));
    assert_eq!(root.children()[0].tag, TAG_TEXT);
}

#[test]
fn identity_change_resets_state_and_subtree() {
    let mut root = Node::new();
    let bounds = window(200, 100);
    Scrollable::new(text(100, 1000)).apply(&mut root, bounds);
    root.input(Input::MouseMove, &pointer(10, 10));
    root.input(Input::Scroll(0, -50), &pointer(10, 10));
    Scrollable::new(text(100, 1000)).apply(&mut root, bounds);
    assert_eq!(root.state(), Slot::Scroll(50));
    assert_eq!(root.children().len(), 1);

    // A different element type at the same position discards everything.
    text(40, 10).apply(&mut root, bounds);
    assert_eq!(root.state(), Slot::Vacant);
    assert_eq!(root.children().len(), 0);
    assert!(matches!(root.shape(), Shape::Text { .. }));
}

#[test]
fn messages_drain_in_tree_order() {
    let mut root = Node::new();
    let bounds = window(800, 600);
    let ui = || {
        Col::new(
            10,
            chain(
                Button::new(text(40, 10)).on_click(21),
                Button::new(text(40, 10)).on_click(22),
            ),
        )
    };
    ui().apply(&mut root, bounds);

    // Click the first button, then the second; both sit in one column.
    root.input(Input::MouseMove, &pointer(10, 10));
    root.input(Input::MouseDown(MouseButton::Left), &pointer(10, 10));
    root.input(Input::MouseUp(MouseButton::Left), &pointer(10, 10));
    root.input(Input::MouseMove, &pointer(10, 40));
    root.input(Input::MouseDown(MouseButton::Left), &pointer(10, 40));
    root.input(Input::MouseUp(MouseButton::Left), &pointer(10, 40));

    ui().apply(&mut root, bounds);
    assert_eq!(root.take_messages(), vec![21, 22]);
}

#[test]
fn events_do_not_reach_unhovered_nodes() {
    let mut root = Node::new();
    let bounds = window(800, 600);
    Button::new(text(40, 10)).on_click(3).apply(&mut root, bounds);

    // The pointer never enters the button: no hover, and a press and
    // release elsewhere change nothing and emit nothing.
    root.input(Input::MouseDown(MouseButton::Left), &pointer(500, 500));
    root.input(Input::MouseUp(MouseButton::Left), &pointer(500, 500));
    assert!(!root.hover());
    assert!(!root.dragging());
    Button::new(text(40, 10)).on_click(3).apply(&mut root, bounds);
    assert_eq!(root.take_messages(), Vec::<u64>::new());
}
