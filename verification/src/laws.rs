//! The load-bearing properties of reconciliation, input capture and
//! layout, stated once over the node model and proved from the element
//! and routing contracts.

use vstd::prelude::*;

use crate::elements::{Elem, ElemList, Row, Scrollable, TAG_ROW, TAG_SCROLLABLE};
use crate::geom::{sat_add64, Bounds, Extent};
use crate::input::{Input, InputState, MouseButton};
use crate::node::{hit, pend, route, route_all, NodeView, ShapeView, Slot};

verus! {

/// Identity stability: a retained node whose stored identity matches the
/// applied element's identity is kept whole — geometry, shape, children,
/// interaction state, recorded events and the typed state slot all
/// survive into the patching step. Every element's application goes
/// through [`NodeView::retag`], so none of them resets a matching node.
pub proof fn lemma_identity_stable(n: NodeView, tag: usize)
    requires
        n.tag == tag,
    ensures
        n.retag(tag) == n,
{
}

/// Identity change: applying an element of a different identity to a
/// position discards the node and its whole subtree — the replacement is
/// the fresh node: empty shape, no children, and the typed state slot
/// back to its default.
pub proof fn lemma_identity_change(n: NodeView, tag: usize)
    requires
        n.tag != tag,
    ensures
        n.retag(tag) == NodeView::fresh(tag),
        n.retag(tag).state == Slot::Vacant,
        n.retag(tag).children.len() == 0,
        n.retag(tag).shape == ShapeView::Empty,
{
}

/// Typed-state stability, concretely for the one stateful element: a
/// scrolling viewport applied to its retained node — matching identity,
/// no scroll events recorded since the last frame — keeps the scroll
/// offset in the typed state slot exactly, whatever its child now is.
pub proof fn lemma_scroll_state_stable<C: Elem>(s: Scrollable<C>, n: NodeView, bounds: Bounds)
    requires
        n.tag == TAG_SCROLLABLE,
        n.pending.len() == 0,
        n.state is Scroll,
    ensures
        s.spec_apply(n, bounds).state == n.state,
{
}

/// Pruning: after a row reconciles its declared children, the retained
/// node has exactly as many children as the declaration lists — children
/// beyond that count from any earlier frame are gone.
pub proof fn lemma_pruning<C: ElemList>(row: Row<C>, n: NodeView, bounds: Bounds)
    ensures
        row.spec_apply(n, bounds).children.len() == row.children.spec_count(),
{
    let cb = Bounds { width: Extent::Unbounded, height: bounds.height };
    row.children.lemma_count_all(n.retag(TAG_ROW).children, cb);
}

/// Capture, first step: a button press while a node is hovered starts a
/// drag on that node.
pub proof fn lemma_press_starts_drag(
    n: NodeView,
    b: MouseButton,
    st: InputState,
    bx: int,
    by: int,
)
    requires
        n.hover,
    ensures
        route(n, Input::MouseDown(b), st, bx, by).dragging,
{
}

/// Capture, second step: while a node is dragging, a pointer move with
/// coordinates outside the node's rectangle is still dispatched — the
/// move is recorded if the node listens for moves and is forwarded into
/// the children — and the node's hover flag becomes false.
pub proof fn lemma_drag_captures_moves(n: NodeView, st: InputState, bx: int, by: int)
    requires
        n.dragging,
        !hit(n, st, sat_add64(bx, n.offset_x as int), sat_add64(by, n.offset_y as int)),
    ensures
        !route(n, Input::MouseMove, st, bx, by).hover,
        route(n, Input::MouseMove, st, bx, by).pending == pend(
            n.pending,
            Input::MouseMove,
            st,
            n.interest.mouse_move,
        ),
        route(n, Input::MouseMove, st, bx, by).children == route_all(
            n.children,
            Input::MouseMove,
            st,
            sat_add64(bx, n.offset_x as int),
            sat_add64(by, n.offset_y as int),
        ),
        route(n, Input::MouseMove, st, bx, by).dragging == n.dragging,
{
}

/// Hover is recomputed from the current geometry on every pointer move,
/// whatever it was before.
pub proof fn lemma_move_recomputes_hover(n: NodeView, st: InputState, bx: int, by: int)
    ensures
        route(n, Input::MouseMove, st, bx, by).hover == hit(
            n,
            st,
            sat_add64(bx, n.offset_x as int),
            sat_add64(by, n.offset_y as int),
        ),
{
}

/// Capture, last step: a button release ends a drag wherever the pointer
/// is.
pub proof fn lemma_release_ends_drag(
    n: NodeView,
    b: MouseButton,
    st: InputState,
    bx: int,
    by: int,
)
    ensures
        !route(n, Input::MouseUp(b), st, bx, by).dragging,
{
}

/// Layout idempotence: applying any element to its own output under the
/// same constraint reproduces that output bit for bit — sizes, offsets
/// and everything else are stable from the second frame on.
pub proof fn lemma_layout_idempotent<E: Elem>(e: E, n: NodeView, bounds: Bounds)
    ensures
        e.spec_apply(e.spec_apply(n, bounds), bounds) == e.spec_apply(n, bounds),
{
    let r = e.spec_apply(n, bounds);
    e.lemma_reapply(n, r.offset_x, r.offset_y, bounds);
    assert(r.with_offset(r.offset_x, r.offset_y) =~= r);
}

} // verus!
