use casein::elements::{BackgroundColor, Elem, Padding, Text};
use casein::geom::{pos_add, Bounds, Extent};
use casein::node::Node;
use casein::shape::{Color, DrawCmd, Glyph, TextRun};

fn window(width: u32, height: u32) -> Bounds {
    Bounds::new(Extent::Finite(width), Extent::Finite(height))
}

#[test]
fn background_and_text_are_drawn_back_to_front() {
    let mut root = Node::new();
    let glyphs = vec![Glyph { id: 11, x: 0, y: 0 }, Glyph { id: 12, x: 20, y: 0 }];
    let element = BackgroundColor::new(
        Color::rgba(10, 20, 30, 255),
        Padding::new(2, Text::new(5, 14, TextRun { glyphs: glyphs.clone(), width: 40, height: 10 })),
    );
    element.apply(&mut root, window(800, 600));

    let cmds = root.render();
    assert_eq!(cmds.len(), 2);
    match &cmds[0] {
        DrawCmd::Rect { x, y, width, height, color } => {
            assert_eq!((*x, *y), (0, 0));
            assert_eq!((*width, *height), (44, 14));
            assert_eq!(*color, Color::rgba(10, 20, 30, 255));
        }
        _ => panic!("the background must be drawn first"),
    }
    match &cmds[1] {
        DrawCmd::Text { x, y, font, size, glyphs: g, color } => {
            assert_eq!((*x, *y), (2, 2));
            assert_eq!((*font, *size), (5, 14));
            assert_eq!(g, &glyphs);
            assert_eq!(*color, Color::rgba(255, 255, 255, 255));
        }
        _ => panic!("the text must be drawn above its background"),
    }
}

#[test]
fn an_empty_node_draws_nothing() {
    let root = Node::new();
    assert_eq!(root.render().len(), 0);
}

#[test]
fn position_arithmetic_saturates() {
    assert_eq!(pos_add(i64::MAX, 5), i64::MAX);
    assert_eq!(pos_add(i64::MIN, -5), i64::MIN);
    assert_eq!(pos_add(40, 2), 42);
}
