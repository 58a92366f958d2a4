//! The retained tree: nodes, their mathematical model, and the scoped
//! cursor used during reconciliation.
//!
//! A [`Node`] is the only persistent entity. Its shape and children are
//! fully determined by the declarative element that most recently applied
//! to it; interaction state, pending events and the typed state slot
//! survive from frame to frame as long as the node's identity tag is
//! unchanged.

use vstd::prelude::*;

use crate::geom::{pos_add, sat_add64};
use crate::input::{Event, Input, InputState};
use crate::shape::{DrawCmd, Glyph, Shape, Color};

verus! {

/// The identity tag of a freshly created node. Element identities are
/// always non-zero, so a fresh node never matches an element by accident.
pub const FRESH_TAG: usize = 0;

/// The typed state slot of a node: a closed sum of the pieces of private
/// state the built-in elements retain across frames.
#[derive(Copy, Clone, PartialEq, Eq, Structural, Debug)]
pub enum Slot {
    /// No element-private state.
    Vacant,
    /// A scroll offset, in pixels; the scrolling element keeps it
    /// between zero and its content limit.
    Scroll(i64),
}

/// Which input kinds a node's element wants recorded on the node. The
/// flags play the role of installed handlers: routing records an event on
/// a node only if the matching flag is set, and the element reads the
/// recorded events back on its next application.
#[derive(Copy, Clone, PartialEq, Eq, Structural, Debug)]
pub struct Interest {
    pub mouse_move: bool,
    pub mouse_down: bool,
    pub mouse_up: bool,
    pub scroll: bool,
    pub key_down: bool,
    pub key_up: bool,
    pub char_input: bool,
}

impl Interest {
    /// No input kind is recorded.
    pub open spec fn spec_none() -> Interest {
        Interest {
            mouse_move: false,
            mouse_down: false,
            mouse_up: false,
            scroll: false,
            key_down: false,
            key_up: false,
            char_input: false,
        }
    }

    /// Executable form of [`Interest::spec_none`].
    pub fn none() -> (r: Interest)
        ensures
            r == Interest::spec_none(),
    {
        Interest {
            mouse_move: false,
            mouse_down: false,
            mouse_up: false,
            scroll: false,
            key_down: false,
            key_up: false,
            char_input: false,
        }
    }
}

/// The mathematical model of a [`Shape`]: the same data with the glyph
/// list as a sequence.
#[verifier::ext_equal]
pub enum ShapeView {
    Empty,
    Rect { x: i64, y: i64, width: u32, height: u32, color: Color },
    Text { x: i64, y: i64, font: u32, size: u32, glyphs: Seq<Glyph>, color: Color },
    Path { x: i64, y: i64, path: u32, color: Color },
}

impl View for Shape {
    type V = ShapeView;

    open spec fn view(&self) -> ShapeView {
        match self {
            Shape::Empty => ShapeView::Empty,
            Shape::Rect { x, y, width, height, color } => ShapeView::Rect {
                x: *x,
                y: *y,
                width: *width,
                height: *height,
                color: *color,
            },
            Shape::Text { x, y, font, size, glyphs, color } => ShapeView::Text {
                x: *x,
                y: *y,
                font: *font,
                size: *size,
                glyphs: glyphs@,
                color: *color,
            },
            Shape::Path { x, y, path, color } => ShapeView::Path {
                x: *x,
                y: *y,
                path: *path,
                color: *color,
            },
        }
    }
}

/// The mathematical model of a [`Node`]: the same data with every vector
/// as a sequence and the children modelled recursively.
#[verifier::ext_equal]
pub struct NodeView {
    pub tag: usize,
    pub offset_x: i64,
    pub offset_y: i64,
    pub width: u32,
    pub height: u32,
    pub shape: ShapeView,
    pub children: Seq<NodeView>,
    pub hover: bool,
    pub dragging: bool,
    pub interest: Interest,
    pub pending: Seq<Event>,
    pub outbox: Seq<u64>,
    pub state: Slot,
}

impl NodeView {
    /// The model of a freshly created node with the given identity tag:
    /// empty shape, zero geometry, no children, no interaction state, no
    /// recorded events, no element-private state.
    pub open spec fn fresh(tag: usize) -> NodeView {
        NodeView {
            tag,
            offset_x: 0,
            offset_y: 0,
            width: 0,
            height: 0,
            shape: ShapeView::Empty,
            children: Seq::empty(),
            hover: false,
            dragging: false,
            interest: Interest::spec_none(),
            pending: Seq::empty(),
            outbox: Seq::empty(),
            state: Slot::Vacant,
        }
    }

    /// Identity comparison during reconciliation: a node whose stored tag
    /// matches the element's tag is kept whole; on a mismatch the node and
    /// its entire subtree are replaced by a fresh node with the new tag.
    pub open spec fn retag(self, tag: usize) -> NodeView {
        if self.tag == tag {
            self
        } else {
            NodeView::fresh(tag)
        }
    }

    /// The model with the offset replaced. Offsets are assigned by the
    /// parent and never computed by the node itself.
    pub open spec fn with_offset(self, x: i64, y: i64) -> NodeView {
        NodeView { offset_x: x, offset_y: y, ..self }
    }
}

/// A retained tree node.
pub struct Node {
    /// Identity of the declarative element type that last wrote this node.
    pub tag: usize,
    /// Horizontal offset relative to the parent, assigned by the parent.
    pub offset_x: i64,
    /// Vertical offset relative to the parent, assigned by the parent.
    pub offset_y: i64,
    /// Width computed by layout.
    pub width: u32,
    /// Height computed by layout.
    pub height: u32,
    /// Current draw instruction.
    pub shape: Shape,
    /// Ordered children; order is semantically meaningful.
    pub children: Vec<Node>,
    /// Whether the pointer is currently over this node's rectangle.
    pub hover: bool,
    /// Whether a pointer button was pressed over this node and not yet
    /// released.
    pub dragging: bool,
    /// Which input kinds routing records on this node.
    pub interest: Interest,
    /// Events recorded by routing since the element last read them.
    pub pending: Vec<Event>,
    /// Messages emitted by the element, drained by the application.
    pub outbox: Vec<u64>,
    /// Element-private state preserved across frames.
    pub state: Slot,
}

/// The model of a node, children included.
pub open spec fn node_view(n: Node) -> NodeView
    decreases n,
{
    NodeView {
        tag: n.tag,
        offset_x: n.offset_x,
        offset_y: n.offset_y,
        width: n.width,
        height: n.height,
        shape: n.shape@,
        children: children_view(n.children@),
        hover: n.hover,
        dragging: n.dragging,
        interest: n.interest,
        pending: n.pending@,
        outbox: n.outbox@,
        state: n.state,
    }
}

/// The models of a sequence of nodes.
pub open spec fn children_view(s: Seq<Node>) -> Seq<NodeView>
    decreases s,
{
    if s.len() == 0 {
        Seq::empty()
    } else {
        children_view(s.drop_last()).push(node_view(s.last()))
    }
}

/// `children_view` maps the sequence element by element.
pub proof fn lemma_children_view(s: Seq<Node>)
    ensures
        children_view(s).len() == s.len(),
        forall|i: int| 0 <= i < s.len() ==> children_view(s)[i] == node_view(s[i]),
    decreases s.len(),
{
    if s.len() > 0 {
        lemma_children_view(s.drop_last());
    }
}

/// Appending one node to a sequence appends its model.
pub proof fn lemma_children_view_push(s: Seq<Node>, n: Node)
    ensures
        children_view(s.push(n)) == children_view(s).push(node_view(n)),
{
    assert(s.push(n).drop_last() =~= s);
    assert(s.push(n).last() == n);
}

impl View for Node {
    type V = NodeView;

    open spec fn view(&self) -> NodeView {
        node_view(*self)
    }
}

impl Node {
    /// Creates an empty node carrying the sentinel identity.
    pub fn new() -> (r: Node)
        ensures
            r@ == NodeView::fresh(FRESH_TAG),
    {
        Node::with_tag(FRESH_TAG)
    }

    /// Creates an empty node carrying the given identity.
    fn with_tag(tag: usize) -> (r: Node)
        ensures
            r@ == NodeView::fresh(tag),
    {
        let r = Node {
            tag,
            offset_x: 0,
            offset_y: 0,
            width: 0,
            height: 0,
            shape: Shape::Empty,
            children: Vec::new(),
            hover: false,
            dragging: false,
            interest: Interest::none(),
            pending: Vec::new(),
            outbox: Vec::new(),
            state: Slot::Vacant,
        };
        proof {
            assert(r@ =~= NodeView::fresh(tag));
        }
        r
    }

    /// Compares the stored identity to an element's identity. On a match
    /// the node is kept whole and `true` is returned; on a mismatch the
    /// node is overwritten by a fresh node carrying the new identity —
    /// discarding shape, children, interaction state, recorded events and
    /// the typed state slot — and `false` is returned.
    pub fn tag(&mut self, tag: usize) -> (matched: bool)
        ensures
            final(self)@ == old(self)@.retag(tag),
            matched == (old(self)@.tag == tag),
    {
        if tag == self.tag {
            true
        } else {
            *self = Node::with_tag(tag);
            false
        }
    }

    /// The node's current draw instruction.
    pub fn shape(&self) -> (r: &Shape)
        ensures
            r@ == self@.shape,
    {
        &self.shape
    }

    /// Replaces the node's draw instruction.
    pub fn set_shape(&mut self, shape: Shape)
        ensures
            final(self)@ == (NodeView { shape: shape@, ..old(self)@ }),
    {
        self.shape = shape;
        proof {
            assert(self@ =~= (NodeView { shape: self.shape@, ..old(self)@ }));
        }
    }

    /// The node's size, as computed by layout.
    pub fn size(&self) -> (r: (u32, u32))
        ensures
            r.0 == self@.width,
            r.1 == self@.height,
    {
        (self.width, self.height)
    }

    /// Sets the node's size. Called by the node's own element at the end
    /// of its application, bottom-up.
    pub fn set_size(&mut self, width: u32, height: u32)
        ensures
            final(self)@ == (NodeView { width, height, ..old(self)@ }),
    {
        self.width = width;
        self.height = height;
        proof {
            assert(self@ =~= (NodeView { width, height, ..old(self)@ }));
        }
    }

    /// The node's offset relative to its parent.
    pub fn offset(&self) -> (r: (i64, i64))
        ensures
            r.0 == self@.offset_x,
            r.1 == self@.offset_y,
    {
        (self.offset_x, self.offset_y)
    }

    /// Sets the node's offset. Called by the parent during placement,
    /// never by the node's own element.
    pub fn set_offset(&mut self, x: i64, y: i64)
        ensures
            final(self)@ == old(self)@.with_offset(x, y),
    {
        self.offset_x = x;
        self.offset_y = y;
        proof {
            assert(self@ =~= old(self)@.with_offset(x, y));
        }
    }

    /// The node's children.
    pub fn children(&self) -> (r: &Vec<Node>)
        ensures
            children_view(r@) == self@.children,
    {
        &self.children
    }

    /// The node's children, open to mutation; the node's model follows
    /// whatever the caller does through the borrow.
    pub fn children_mut(&mut self) -> (r: &mut Vec<Node>)
        ensures
            *r == old(self).children,
            final(self)@ == (NodeView { children: children_view(final(r)@), ..old(self)@ }),
    {
        &mut self.children
    }

    /// The number of children.
    pub fn child_count(&self) -> (r: usize)
        ensures
            r == self@.children.len(),
    {
        proof {
            lemma_children_view(self.children@);
        }
        self.children.len()
    }

    /// The size of the `i`-th child.
    pub fn child_size(&self, i: usize) -> (r: (u32, u32))
        requires
            i < self@.children.len(),
        ensures
            r.0 == self@.children[i as int].width,
            r.1 == self@.children[i as int].height,
    {
        proof {
            lemma_children_view(self.children@);
        }
        let c = &self.children[i];
        (c.width, c.height)
    }

    /// Assigns the offset of the `i`-th child.
    pub fn set_child_offset(&mut self, i: usize, x: i64, y: i64)
        requires
            i < old(self)@.children.len(),
        ensures
            final(self)@ == (NodeView {
                children: old(self)@.children.update(
                    i as int,
                    old(self)@.children[i as int].with_offset(x, y),
                ),
                ..old(self)@
            }),
    {
        proof {
            lemma_children_view(self.children@);
        }
        let c = &mut self.children[i];
        c.offset_x = x;
        c.offset_y = y;
        proof {
            lemma_children_view_update(old(self).children@, i as int, self.children@[i as int]);
            assert(node_view(self.children@[i as int]) =~= old(self)@.children[i as int].with_offset(
                x,
                y,
            ));
            assert(self@ =~= (NodeView {
                children: old(self)@.children.update(
                    i as int,
                    old(self)@.children[i as int].with_offset(x, y),
                ),
                ..old(self)@
            }));
        }
    }

    /// Whether the pointer is currently over the node's rectangle.
    pub fn hover(&self) -> (r: bool)
        ensures
            r == self@.hover,
    {
        self.hover
    }

    /// Whether the node is currently dragging (a pointer button was
    /// pressed over it and has not been released yet).
    pub fn dragging(&self) -> (r: bool)
        ensures
            r == self@.dragging,
    {
        self.dragging
    }

    /// The node's element-private state slot.
    pub fn state(&self) -> (r: Slot)
        ensures
            r == self@.state,
    {
        self.state
    }

    /// Replaces the node's element-private state slot.
    pub fn set_state(&mut self, state: Slot)
        ensures
            final(self)@ == (NodeView { state, ..old(self)@ }),
    {
        self.state = state;
        proof {
            assert(self@ =~= (NodeView { state, ..old(self)@ }));
        }
    }

    /// Asks routing to record pointer-move events on this node.
    pub fn on_mouse_move(&mut self)
        ensures
            final(self)@ == (NodeView {
                interest: Interest { mouse_move: true, ..old(self)@.interest },
                ..old(self)@
            }),
    {
        self.interest.mouse_move = true;
        proof {
            assert(self@ =~= (NodeView { interest: self.interest, ..old(self)@ }));
        }
    }

    /// Asks routing to record button-press events on this node.
    pub fn on_mouse_down(&mut self)
        ensures
            final(self)@ == (NodeView {
                interest: Interest { mouse_down: true, ..old(self)@.interest },
                ..old(self)@
            }),
    {
        self.interest.mouse_down = true;
        proof {
            assert(self@ =~= (NodeView { interest: self.interest, ..old(self)@ }));
        }
    }

    /// Asks routing to record button-release events on this node.
    pub fn on_mouse_up(&mut self)
        ensures
            final(self)@ == (NodeView {
                interest: Interest { mouse_up: true, ..old(self)@.interest },
                ..old(self)@
            }),
    {
        self.interest.mouse_up = true;
        proof {
            assert(self@ =~= (NodeView { interest: self.interest, ..old(self)@ }));
        }
    }

    /// Asks routing to record scroll events on this node.
    pub fn on_scroll(&mut self)
        ensures
            final(self)@ == (NodeView {
                interest: Interest { scroll: true, ..old(self)@.interest },
                ..old(self)@
            }),
    {
        self.interest.scroll = true;
        proof {
            assert(self@ =~= (NodeView { interest: self.interest, ..old(self)@ }));
        }
    }

    /// Asks routing to record key-press events on this node.
    pub fn on_key_down(&mut self)
        ensures
            final(self)@ == (NodeView {
                interest: Interest { key_down: true, ..old(self)@.interest },
                ..old(self)@
            }),
    {
        self.interest.key_down = true;
        proof {
            assert(self@ =~= (NodeView { interest: self.interest, ..old(self)@ }));
        }
    }

    /// Asks routing to record key-release events on this node.
    pub fn on_key_up(&mut self)
        ensures
            final(self)@ == (NodeView {
                interest: Interest { key_up: true, ..old(self)@.interest },
                ..old(self)@
            }),
    {
        self.interest.key_up = true;
        proof {
            assert(self@ =~= (NodeView { interest: self.interest, ..old(self)@ }));
        }
    }

    /// Asks routing to record character events on this node.
    pub fn on_char(&mut self)
        ensures
            final(self)@ == (NodeView {
                interest: Interest { char_input: true, ..old(self)@.interest },
                ..old(self)@
            }),
    {
        self.interest.char_input = true;
        proof {
            assert(self@ =~= (NodeView { interest: self.interest, ..old(self)@ }));
        }
    }

    /// Hands the element the events recorded since it last looked, and
    /// clears the buffer.
    pub fn take_events(&mut self) -> (r: Vec<Event>)
        ensures
            r@ == old(self)@.pending,
            final(self)@ == (NodeView { pending: Seq::empty(), ..old(self)@ }),
    {
        let mut taken: Vec<Event> = Vec::new();
        core::mem::swap(&mut self.pending, &mut taken);
        proof {
            assert(self@ =~= (NodeView { pending: Seq::empty(), ..old(self)@ }));
        }
        taken
    }

    /// Emits a message for the application to drain.
    pub fn emit(&mut self, message: u64)
        ensures
            final(self)@ == (NodeView { outbox: old(self)@.outbox.push(message), ..old(self)@ }),
    {
        self.outbox.push(message);
        proof {
            assert(self@ =~= (NodeView { outbox: old(self)@.outbox.push(message), ..old(self)@ }));
        }
    }

    /// Opens a scoped cursor over the node's children. The children move
    /// into the cursor; [`Node::end_edit`] moves the reconciled children
    /// back and prunes everything the cursor did not keep.
    pub fn edit_children(&mut self) -> (c: Cursor)
        ensures
            c.prior@ == old(self).children@,
            c.done@ == Seq::<Node>::empty(),
            !c.mid,
            final(self)@ == (NodeView { children: Seq::empty(), ..old(self)@ }),
    {
        let mut taken: Vec<Node> = Vec::new();
        core::mem::swap(&mut self.children, &mut taken);
        proof {
            assert(self@ =~= (NodeView { children: Seq::empty(), ..old(self)@ }));
        }
        Cursor { prior: taken, done: Vec::new(), mid: false }
    }

    /// Closes a cursor: the slots it filled become the node's children, in
    /// order, and the prior children it did not consume are discarded.
    /// This is what prunes children the current frame no longer declares.
    pub fn end_edit(&mut self, c: Cursor)
        requires
            !c.mid,
        ensures
            final(self)@ == (NodeView { children: children_view(c.done@), ..old(self)@ }),
    {
        self.children = c.done;
        proof {
            assert(self@ =~= (NodeView { children: children_view(c.done@), ..old(self)@ }));
        }
    }
}

/// `children_view` respects a pointwise update.
pub proof fn lemma_children_view_update(s: Seq<Node>, i: int, n: Node)
    requires
        0 <= i < s.len(),
    ensures
        children_view(s.update(i, n)) == children_view(s).update(i, node_view(n)),
{
    lemma_children_view(s);
    lemma_children_view(s.update(i, n));
    assert(children_view(s.update(i, n)) =~= children_view(s).update(i, node_view(n)));
}

/// The height of a modelled node: one more than the greatest height among
/// its children. Used as the termination measure of the tree walks.
pub open spec fn height(n: NodeView) -> nat
    decreases n,
{
    1 + heights(n.children)
}

/// The greatest height among a sequence of modelled nodes.
pub open spec fn heights(s: Seq<NodeView>) -> nat
    decreases s,
{
    if s.len() == 0 {
        0
    } else {
        let h = height(s.last());
        let rest = heights(s.drop_last());
        if h >= rest {
            h
        } else {
            rest
        }
    }
}

/// Every element of a sequence is bounded by the sequence's height.
pub proof fn lemma_height_child(s: Seq<NodeView>, i: int)
    requires
        0 <= i < s.len(),
    ensures
        height(s[i]) <= heights(s),
    decreases s.len(),
{
    if i == s.len() - 1 {
        assert(s.last() == s[i]);
    } else {
        lemma_height_child(s.drop_last(), i);
        assert(s.drop_last()[i] == s[i]);
    }
}

/// `children_view` agrees with any sequence that matches it element by
/// element.
pub proof fn lemma_children_view_is(s: Seq<Node>, sv: Seq<NodeView>)
    requires
        sv.len() == s.len(),
        forall|i: int| 0 <= i < s.len() ==> sv[i] == node_view(s[i]),
    ensures
        children_view(s) == sv,
{
    lemma_children_view(s);
    assert(children_view(s) =~= sv);
}

/// Whether the pointer position in `st` falls inside the rectangle of
/// node `n` placed at the absolute position `(ax, ay)`.
pub open spec fn hit(n: NodeView, st: InputState, ax: int, ay: int) -> bool {
    &&& st.mouse_x >= ax
    &&& (st.mouse_x as int) < sat_add64(ax, n.width as int)
    &&& st.mouse_y >= ay
    &&& (st.mouse_y as int) < sat_add64(ay, n.height as int)
}

/// The pending buffer after an event is offered to a node: the event is
/// recorded exactly when the node's matching interest flag is set.
pub open spec fn pend(p: Seq<Event>, input: Input, st: InputState, flag: bool) -> Seq<Event> {
    if flag {
        p.push(Event { input, state: st })
    } else {
        p
    }
}

/// The retained tree after one input event is walked through a node
/// placed at absolute base position `(bx, by)`.
///
/// The event is forwarded into the children only when the node's own
/// state makes it relevant; a node that is dragging stays relevant to
/// pointer events whatever the current pointer position, which is what
/// gives implicit pointer capture.
///
/// Key and character events are not geometry-gated and are not routed
/// into the tree at all. How they should be delivered — presumably to a
/// single focused node, which would need focus tracking — is an open
/// question this design leaves unanswered on purpose.
pub open spec fn route(n: NodeView, input: Input, st: InputState, bx: int, by: int) -> NodeView
    decreases n,
{
    let ax = sat_add64(bx, n.offset_x as int);
    let ay = sat_add64(by, n.offset_y as int);
    match input {
        Input::MouseMove => {
            let hov = hit(n, st, ax, ay);
            if n.dragging || n.hover || hov {
                NodeView {
                    hover: hov,
                    pending: pend(n.pending, input, st, n.interest.mouse_move),
                    children: route_all(n.children, input, st, ax, ay),
                    ..n
                }
            } else {
                NodeView { hover: hov, ..n }
            }
        }
        Input::MouseDown(_) => {
            if n.hover {
                NodeView {
                    dragging: true,
                    pending: pend(n.pending, input, st, n.interest.mouse_down),
                    children: route_all(n.children, input, st, ax, ay),
                    ..n
                }
            } else {
                n
            }
        }
        Input::MouseUp(_) => {
            if n.hover || n.dragging {
                NodeView {
                    dragging: false,
                    pending: pend(n.pending, input, st, n.interest.mouse_up),
                    children: route_all(n.children, input, st, ax, ay),
                    ..n
                }
            } else {
                NodeView { dragging: false, ..n }
            }
        }
        Input::Scroll(_, _) => {
            if n.hover || n.dragging {
                NodeView {
                    pending: pend(n.pending, input, st, n.interest.scroll),
                    children: route_all(n.children, input, st, ax, ay),
                    ..n
                }
            } else {
                n
            }
        }
        Input::KeyDown(_) | Input::KeyUp(_) | Input::Char(_) => n,
    }
}

/// One input event walked through each node of a sequence in order.
pub open spec fn route_all(s: Seq<NodeView>, input: Input, st: InputState, bx: int, by: int) -> Seq<
    NodeView,
>
    decreases s,
{
    if s.len() == 0 {
        Seq::empty()
    } else {
        route_all(s.drop_last(), input, st, bx, by).push(route(s.last(), input, st, bx, by))
    }
}

/// `route_all` maps the sequence element by element.
pub proof fn lemma_route_all(s: Seq<NodeView>, input: Input, st: InputState, bx: int, by: int)
    ensures
        route_all(s, input, st, bx, by).len() == s.len(),
        forall|i: int|
            0 <= i < s.len() ==> route_all(s, input, st, bx, by)[i] == route(
                s[i],
                input,
                st,
                bx,
                by,
            ),
    decreases s.len(),
{
    if s.len() > 0 {
        lemma_route_all(s.drop_last(), input, st, bx, by);
    }
}

impl Node {
    /// Whether the pointer currently falls inside this node's rectangle
    /// placed at the absolute position `(ax, ay)`.
    fn hit_test(&self, state: &InputState, ax: i64, ay: i64) -> (r: bool)
        ensures
            r == hit(self@, *state, ax as int, ay as int),
    {
        state.mouse_x >= ax && state.mouse_x < pos_add(ax, self.width as i64) && state.mouse_y >= ay
            && state.mouse_y < pos_add(ay, self.height as i64)
    }

    /// Walks one input event through the retained tree rooted at this
    /// node, updating hover, capture and pending-event state throughout.
    pub fn input(&mut self, input: Input, state: &InputState)
        ensures
            final(self)@ == route(old(self)@, input, *state, 0, 0),
    {
        self.input_at(input, state, 0, 0)
    }

    /// Walks one input event through the subtree rooted at this node,
    /// whose parent sits at absolute position `(bx, by)`.
    fn input_at(&mut self, input: Input, state: &InputState, bx: i64, by: i64)
        ensures
            final(self)@ == route(old(self)@, input, *state, bx as int, by as int),
        decreases height(old(self)@),
    {
        let ax = pos_add(bx, self.offset_x);
        let ay = pos_add(by, self.offset_y);
        let hov = self.hit_test(state, ax, ay);
        let relevant: bool;
        let flag: bool;
        match input {
            Input::MouseMove => {
                relevant = self.dragging || self.hover || hov;
                flag = self.interest.mouse_move;
            }
            Input::MouseDown(_) => {
                relevant = self.hover;
                flag = self.interest.mouse_down;
            }
            Input::MouseUp(_) => {
                relevant = self.hover || self.dragging;
                flag = self.interest.mouse_up;
            }
            Input::Scroll(_, _) => {
                relevant = self.hover || self.dragging;
                flag = self.interest.scroll;
            }
            Input::KeyDown(_) | Input::KeyUp(_) | Input::Char(_) => {
                relevant = false;
                flag = false;
            }
        }
        let ghost pv = pend(old(self)@.pending, input, *state, flag);
        if relevant {
            if flag {
                self.pending.push(Event { input, state: *state });
            }
            let ghost cv = old(self)@.children;
            let n = self.children.len();
            proof {
                lemma_children_view(old(self).children@);
            }
            let mut i: usize = 0;
            while i < n
                invariant
                    i <= n,
                    n == cv.len(),
                    cv == old(self)@.children,
                    pv == pend(old(self)@.pending, input, *state, flag),
                    self.children@.len() == n,
                    self@ == (NodeView { children: self@.children, pending: pv, ..old(self)@ }),
                    forall|j: int| 0 <= j < n - i ==> node_view(self.children@[j]) == cv[i + j],
                    forall|j: int|
                        0 <= j < i ==> node_view(self.children@[n - i + j]) == route(
                            cv[j],
                            input,
                            *state,
                            ax as int,
                            ay as int,
                        ),
                decreases n - i,
            {
                let ghost before = self.children@;
                let mut c = self.children.remove(0);
                proof {
                    assert(c == before[0]);
                    assert(node_view(c) == cv[i as int]);
                    lemma_height_child(cv, i as int);
                    assert(height(old(self)@) == 1 + heights(old(self)@.children));
                    assert(heights(cv) < height(old(self)@));
                }
                c.input_at(input, state, ax, ay);
                self.children.push(c);
                proof {
                    assert(self.children@ =~= before.drop_first().push(c));
                    assert(forall|j: int|
                        0 <= j < before.len() - 1 ==> self.children@[j] == before[j + 1]);
                    assert(self@ =~= (NodeView {
                        children: self@.children,
                        pending: pv,
                        ..old(self)@
                    }));
                }
                i += 1;
            }
            proof {
                lemma_route_all(cv, input, *state, ax as int, ay as int);
                lemma_children_view_is(
                    self.children@,
                    route_all(cv, input, *state, ax as int, ay as int),
                );
            }
        }
        match input {
            Input::MouseMove => {
                self.hover = hov;
            }
            Input::MouseDown(_) => {
                if relevant {
                    self.dragging = true;
                }
            }
            Input::MouseUp(_) => {
                self.dragging = false;
            }
            Input::Scroll(_, _) | Input::KeyDown(_) | Input::KeyUp(_) | Input::Char(_) => {}
        }
        proof {
            assert(self@ =~= route(old(self)@, input, *state, bx as int, by as int));
        }
    }
}

/// The mathematical model of a [`DrawCmd`]: the same data with the glyph
/// list as a sequence.
#[verifier::ext_equal]
pub enum DrawCmdView {
    Rect { x: i64, y: i64, width: u32, height: u32, color: Color },
    Text { x: i64, y: i64, font: u32, size: u32, glyphs: Seq<Glyph>, color: Color },
    Path { x: i64, y: i64, path: u32, color: Color },
}

impl View for DrawCmd {
    type V = DrawCmdView;

    open spec fn view(&self) -> DrawCmdView {
        match self {
            DrawCmd::Rect { x, y, width, height, color } => DrawCmdView::Rect {
                x: *x,
                y: *y,
                width: *width,
                height: *height,
                color: *color,
            },
            DrawCmd::Text { x, y, font, size, glyphs, color } => DrawCmdView::Text {
                x: *x,
                y: *y,
                font: *font,
                size: *size,
                glyphs: glyphs@,
                color: *color,
            },
            DrawCmd::Path { x, y, path, color } => DrawCmdView::Path {
                x: *x,
                y: *y,
                path: *path,
                color: *color,
            },
        }
    }
}

/// The models of a sequence of draw commands.
pub open spec fn cmds_view(s: Seq<DrawCmd>) -> Seq<DrawCmdView> {
    s.map_values(|c: DrawCmd| c@)
}

/// The draw commands a shape placed at absolute position `(ax, ay)`
/// contributes: none for the empty shape, exactly one otherwise, with the
/// shape's relative position resolved against `(ax, ay)`.
pub open spec fn own_draw(s: ShapeView, ax: int, ay: int) -> Seq<DrawCmdView> {
    match s {
        ShapeView::Empty => Seq::empty(),
        ShapeView::Rect { x, y, width, height, color } => seq![
            DrawCmdView::Rect {
                x: sat_add64(ax, x as int) as i64,
                y: sat_add64(ay, y as int) as i64,
                width,
                height,
                color,
            },
        ],
        ShapeView::Text { x, y, font, size, glyphs, color } => seq![
            DrawCmdView::Text {
                x: sat_add64(ax, x as int) as i64,
                y: sat_add64(ay, y as int) as i64,
                font,
                size,
                glyphs,
                color,
            },
        ],
        ShapeView::Path { x, y, path, color } => seq![
            DrawCmdView::Path {
                x: sat_add64(ax, x as int) as i64,
                y: sat_add64(ay, y as int) as i64,
                path,
                color,
            },
        ],
    }
}

/// The draw commands emitted for a subtree whose parent sits at absolute
/// position `(bx, by)`: the node's own shape first, then its children in
/// order, depth first.
pub open spec fn draws(n: NodeView, bx: int, by: int) -> Seq<DrawCmdView>
    decreases n,
{
    let ax = sat_add64(bx, n.offset_x as int);
    let ay = sat_add64(by, n.offset_y as int);
    own_draw(n.shape, ax, ay) + draws_all(n.children, ax, ay)
}

/// The draw commands emitted for a sequence of subtrees, in order.
pub open spec fn draws_all(s: Seq<NodeView>, bx: int, by: int) -> Seq<DrawCmdView>
    decreases s,
{
    if s.len() == 0 {
        Seq::empty()
    } else {
        draws_all(s.drop_last(), bx, by) + draws(s.last(), bx, by)
    }
}

/// The messages waiting in a subtree: the node's own outbox first, then
/// its children's in order, depth first.
pub open spec fn messages(n: NodeView) -> Seq<u64>
    decreases n,
{
    n.outbox + messages_all(n.children)
}

/// The messages waiting in a sequence of subtrees, in order.
pub open spec fn messages_all(s: Seq<NodeView>) -> Seq<u64>
    decreases s,
{
    if s.len() == 0 {
        Seq::empty()
    } else {
        messages_all(s.drop_last()) + messages(s.last())
    }
}

/// A subtree with every outbox emptied and nothing else changed.
pub open spec fn drained(n: NodeView) -> NodeView
    decreases n,
{
    NodeView { outbox: Seq::empty(), children: drained_all(n.children), ..n }
}

/// A sequence of subtrees with every outbox emptied.
pub open spec fn drained_all(s: Seq<NodeView>) -> Seq<NodeView>
    decreases s,
{
    if s.len() == 0 {
        Seq::empty()
    } else {
        drained_all(s.drop_last()).push(drained(s.last()))
    }
}

/// `drained_all` maps the sequence element by element.
pub proof fn lemma_drained_all(s: Seq<NodeView>)
    ensures
        drained_all(s).len() == s.len(),
        forall|i: int| 0 <= i < s.len() ==> drained_all(s)[i] == drained(s[i]),
    decreases s.len(),
{
    if s.len() > 0 {
        lemma_drained_all(s.drop_last());
    }
}

impl Node {
    /// Walks the retained tree and returns the draw commands for the
    /// external render sink, in back-to-front order.
    pub fn render(&self) -> (r: Vec<DrawCmd>)
        ensures
            cmds_view(r@) == draws(self@, 0, 0),
    {
        let mut out: Vec<DrawCmd> = Vec::new();
        self.render_at(&mut out, 0, 0);
        proof {
            assert(cmds_view(Seq::<DrawCmd>::empty()) =~= Seq::<DrawCmdView>::empty());
            assert(cmds_view(out@) =~= draws(self@, 0, 0));
        }
        out
    }

    /// Appends the draw commands of the subtree rooted at this node,
    /// whose parent sits at absolute position `(bx, by)`.
    fn render_at(&self, out: &mut Vec<DrawCmd>, bx: i64, by: i64)
        ensures
            cmds_view(final(out)@) == cmds_view(old(out)@) + draws(self@, bx as int, by as int),
        decreases height(self@),
    {
        let ax = pos_add(bx, self.offset_x);
        let ay = pos_add(by, self.offset_y);
        let ghost mut mid = out@;
        match &self.shape {
            Shape::Empty => {}
            Shape::Rect { x, y, width, height, color } => {
                let cmd = DrawCmd::Rect {
                    x: pos_add(ax, *x),
                    y: pos_add(ay, *y),
                    width: *width,
                    height: *height,
                    color: *color,
                };
                out.push(cmd);
                proof {
                    mid = out@;
                }
            }
            Shape::Text { x, y, font, size, glyphs, color } => {
                let cmd = DrawCmd::Text {
                    x: pos_add(ax, *x),
                    y: pos_add(ay, *y),
                    font: *font,
                    size: *size,
                    glyphs: crate::shape::copy_glyphs(glyphs),
                    color: *color,
                };
                out.push(cmd);
                proof {
                    mid = out@;
                }
            }
            Shape::Path { x, y, path, color } => {
                let cmd = DrawCmd::Path {
                    x: pos_add(ax, *x),
                    y: pos_add(ay, *y),
                    path: *path,
                    color: *color,
                };
                out.push(cmd);
                proof {
                    mid = out@;
                }
            }
        }
        proof {
            assert(cmds_view(mid) =~= cmds_view(old(out)@) + own_draw(
                self@.shape,
                sat_add64(bx as int, self@.offset_x as int),
                sat_add64(by as int, self@.offset_y as int),
            ));
            lemma_children_view(self.children@);
        }
        let ghost cv = self@.children;
        let n = self.children.len();
        let mut i: usize = 0;
        while i < n
            invariant
                i <= n,
                n == cv.len(),
                cv == self@.children,
                self.children@.len() == n,
                cmds_view(mid) == cmds_view(old(out)@) + own_draw(
                    self@.shape,
                    sat_add64(bx as int, self@.offset_x as int),
                    sat_add64(by as int, self@.offset_y as int),
                ),
                cmds_view(out@) == cmds_view(mid) + draws_all(
                    cv.take(i as int),
                    ax as int,
                    ay as int,
                ),
                ax == sat_add64(bx as int, self@.offset_x as int),
                ay == sat_add64(by as int, self@.offset_y as int),
            decreases n - i,
        {
            proof {
                lemma_children_view(self.children@);
                lemma_height_child(cv, i as int);
                assert(height(self@) == 1 + heights(self@.children));
            }
            let c = &self.children[i];
            c.render_at(out, ax, ay);
            proof {
                assert(cv.take(i + 1).drop_last() =~= cv.take(i as int));
                assert(cv.take(i + 1).last() == cv[i as int]);
                assert(draws_all(cv.take(i + 1), ax as int, ay as int) =~= draws_all(
                    cv.take(i as int),
                    ax as int,
                    ay as int,
                ) + draws(cv[i as int], ax as int, ay as int));
                assert(cmds_view(out@) =~= cmds_view(mid) + draws_all(
                    cv.take(i + 1),
                    ax as int,
                    ay as int,
                ));
            }
            i += 1;
        }
        proof {
            assert(cv.take(n as int) =~= cv);
            assert(cmds_view(out@) =~= cmds_view(old(out)@) + draws(
                self@,
                bx as int,
                by as int,
            ));
        }
    }

    /// Drains every message emitted anywhere in the subtree rooted at
    /// this node, in tree order, and returns them. Afterwards every
    /// outbox in the subtree is empty.
    pub fn take_messages(&mut self) -> (r: Vec<u64>)
        ensures
            r@ == messages(old(self)@),
            final(self)@ == drained(old(self)@),
    {
        let mut out: Vec<u64> = Vec::new();
        self.take_messages_into(&mut out);
        proof {
            assert(out@ =~= messages(old(self)@));
        }
        out
    }

    /// Appends the messages of the subtree rooted at this node to `out`
    /// and empties every outbox in the subtree.
    fn take_messages_into(&mut self, out: &mut Vec<u64>)
        ensures
            final(out)@ == old(out)@ + messages(old(self)@),
            final(self)@ == drained(old(self)@),
        decreases height(old(self)@),
    {
        let mut own: Vec<u64> = Vec::new();
        core::mem::swap(&mut self.outbox, &mut own);
        out.append(&mut own);
        let ghost mid = out@;
        proof {
            assert(mid =~= old(out)@ + old(self)@.outbox);
        }
        let ghost cv = old(self)@.children;
        proof {
            lemma_children_view(old(self).children@);
        }
        let n = self.children.len();
        let mut i: usize = 0;
        while i < n
            invariant
                i <= n,
                n == cv.len(),
                cv == old(self)@.children,
                mid == old(out)@ + old(self)@.outbox,
                self.children@.len() == n,
                self@ == (NodeView {
                    children: self@.children,
                    outbox: Seq::empty(),
                    ..old(self)@
                }),
                forall|j: int| 0 <= j < n - i ==> node_view(self.children@[j]) == cv[i + j],
                forall|j: int|
                    0 <= j < i ==> node_view(self.children@[n - i + j]) == drained(cv[j]),
                out@ == mid + messages_all(cv.take(i as int)),
            decreases n - i,
        {
            let ghost before = self.children@;
            let mut c = self.children.remove(0);
            proof {
                assert(node_view(c) == cv[i as int]);
                lemma_height_child(cv, i as int);
                assert(height(old(self)@) == 1 + heights(old(self)@.children));
            }
            c.take_messages_into(out);
            self.children.push(c);
            proof {
                assert(self.children@ =~= before.drop_first().push(c));
                assert(forall|j: int|
                    0 <= j < before.len() - 1 ==> self.children@[j] == before[j + 1]);
                assert(self@ =~= (NodeView {
                    children: self@.children,
                    outbox: Seq::empty(),
                    ..old(self)@
                }));
                assert(cv.take(i + 1).drop_last() =~= cv.take(i as int));
                assert(cv.take(i + 1).last() == cv[i as int]);
                assert(messages_all(cv.take(i + 1)) =~= messages_all(cv.take(i as int)) + messages(
                    cv[i as int],
                ));
                assert(out@ =~= mid + messages_all(cv.take(i + 1)));
            }
            i += 1;
        }
        proof {
            assert(cv.take(n as int) =~= cv);
            lemma_drained_all(cv);
            lemma_children_view_is(self.children@, drained_all(cv));
            assert(self@ =~= drained(old(self)@));
            assert(out@ =~= old(out)@ + messages(old(self)@));
        }
    }
}

/// A scoped, position-tracking view over a node's children used during
/// reconciliation: slots are taken in order with [`Cursor::add`], patched,
/// and put back with [`Cursor::place`]; on release every prior child
/// beyond the slots requested this frame is discarded.
pub struct Cursor {
    /// Children inherited from the previous frame, not yet consumed.
    pub prior: Vec<Node>,
    /// Children produced this frame, in order.
    pub done: Vec<Node>,
    /// Whether a slot has been taken and not yet placed back.
    pub mid: bool,
}

impl Cursor {
    /// Takes the next child slot: the next prior child if one remains
    /// (so its retained state can be reused), a fresh empty node
    /// otherwise. The caller patches the returned node and hands it back
    /// with [`Cursor::place`].
    pub fn add(&mut self) -> (child: Node)
        requires
            !old(self).mid,
        ensures
            final(self).mid,
            final(self).done@ == old(self).done@,
            if old(self).prior@.len() > 0 {
                child == old(self).prior@[0] && final(self).prior@ == old(self).prior@.drop_first()
            } else {
                child@ == NodeView::fresh(FRESH_TAG) && final(self).prior@ == old(self).prior@
            },
    {
        self.mid = true;
        if self.prior.len() > 0 {
            self.prior.remove(0)
        } else {
            Node::new()
        }
    }

    /// Puts a patched child into the slot taken by the last
    /// [`Cursor::add`].
    pub fn place(&mut self, child: Node)
        requires
            old(self).mid,
        ensures
            !final(self).mid,
            final(self).done@ == old(self).done@.push(child),
            final(self).prior@ == old(self).prior@,
    {
        self.done.push(child);
        self.mid = false;
    }
}

} // verus!
