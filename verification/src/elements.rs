//! Declarative elements and their reconciliation contracts.
//!
//! An [`Elem`] is an immutable description of desired UI, consumed exactly
//! once to patch a retained [`Node`]. An [`ElemList`] reconciles a whole
//! sequence of child slots through a [`Cursor`]. Each element's effect is
//! stated as a spec function over the node model, and `apply` is proved to
//! realise it exactly.

use vstd::prelude::*;

use crate::geom::{
    Bounds, Extent, max32, sat_add32, sat_add64, sat_sub32, size_add, size_max, size_sub,
};
use crate::input::{Event, Input, MouseButton};
use crate::node::{
    children_view, node_view, Cursor, Interest, Node, NodeView, ShapeView, Slot, FRESH_TAG,
};
use crate::shape::{Color, Shape, TextRun};

verus! {

/// Identity tag of [`Text`] elements.
pub const TAG_TEXT: usize = 1;

/// Identity tag of [`Padding`] elements.
pub const TAG_PADDING: usize = 2;

/// Identity tag of [`BackgroundColor`] elements.
pub const TAG_BACKGROUND: usize = 3;

/// Identity tag of [`Row`] elements.
pub const TAG_ROW: usize = 4;

/// Identity tag of [`Col`] elements.
pub const TAG_COL: usize = 5;

/// Identity tag of [`Button`] elements.
pub const TAG_BUTTON: usize = 6;

/// Identity tag of [`Scrollable`] elements.
pub const TAG_SCROLLABLE: usize = 7;

/// The child slot an element at position `i` reconciles against: the
/// `i`-th retained child if one exists, a fresh empty node otherwise.
pub open spec fn slot_target(prior: Seq<NodeView>, i: int) -> NodeView {
    if 0 <= i < prior.len() {
        prior[i]
    } else {
        NodeView::fresh(FRESH_TAG)
    }
}

/// The retained children left for later elements once the first `count`
/// slots have been consumed.
pub open spec fn slots_after(prior: Seq<NodeView>, count: int) -> Seq<NodeView> {
    if count >= prior.len() {
        Seq::empty()
    } else if count >= 0 {
        prior.skip(count)
    } else {
        prior
    }
}

/// A sequence of reconciled children with the offsets a parent assigned
/// during placement.
pub open spec fn place_all(made: Seq<NodeView>, off: Seq<(i64, i64)>) -> Seq<NodeView> {
    Seq::new(made.len(), |i: int| made[i].with_offset(off[i].0, off[i].1))
}

/// An immutable declarative description of desired UI, applied onto one
/// retained node.
pub trait Elem: Sized {
    /// The model of the retained node after this element is applied to
    /// it under the given constraint.
    spec fn spec_apply(self, n: NodeView, bounds: Bounds) -> NodeView;

    /// Reconciles this description onto `node`: the node afterwards looks
    /// exactly as if built fresh from the description, except that
    /// retained state is reused wherever the stored identity matches.
    fn apply(self, node: &mut Node, bounds: Bounds)
        ensures
            final(node)@ == self.spec_apply(old(node)@, bounds),
    ;

    /// Re-applying a description to its own output — possibly moved by
    /// the parent during placement — changes nothing: reconciliation is
    /// idempotent under an unchanged description and constraint.
    proof fn lemma_reapply(self, n: NodeView, x: i64, y: i64, bounds: Bounds)
        ensures
            self.spec_apply(self.spec_apply(n, bounds).with_offset(x, y), bounds)
                == self.spec_apply(n, bounds).with_offset(x, y),
    ;
}

/// A description of a whole sequence of child slots, reconciled through a
/// cursor in positional order.
pub trait ElemList: Sized {
    /// How many child slots this list fills.
    spec fn spec_count(self) -> nat;

    /// The models of the reconciled child slots, given the retained
    /// children from the previous frame.
    spec fn spec_apply_all(self, prior: Seq<NodeView>, bounds: Bounds) -> Seq<NodeView>;

    /// Reconciles every slot of this list through the cursor, in order.
    fn apply_all(self, cursor: &mut Cursor, bounds: Bounds)
        requires
            !old(cursor).mid,
        ensures
            !final(cursor).mid,
            children_view(final(cursor).done@) == children_view(old(cursor).done@)
                + self.spec_apply_all(children_view(old(cursor).prior@), bounds),
            children_view(final(cursor).prior@) == slots_after(
                children_view(old(cursor).prior@),
                self.spec_count() as int,
            ),
    ;

    /// A list fills exactly [`ElemList::spec_count`] slots.
    proof fn lemma_count_all(self, prior: Seq<NodeView>, bounds: Bounds)
        ensures
            self.spec_apply_all(prior, bounds).len() == self.spec_count(),
    ;

    /// Re-applying a list to its own output — with any offsets a parent
    /// assigned during placement, and whatever retained children follow
    /// the list's own slots — reproduces that output exactly.
    proof fn lemma_reapply_all(
        self,
        prior: Seq<NodeView>,
        off: Seq<(i64, i64)>,
        tail: Seq<NodeView>,
        bounds: Bounds,
    )
        requires
            off.len() == self.spec_count(),
        ensures
            self.spec_apply_all(place_all(self.spec_apply_all(prior, bounds), off) + tail, bounds)
                == place_all(self.spec_apply_all(prior, bounds), off),
    ;

}

/// Two child-slot lists applied one after the other.
pub struct Chain<A: ElemList, B: ElemList> {
    pub first: A,
    pub second: B,
}

/// Chains two lists; the combined list fills the concatenation of both
/// slot sequences, in order.
pub fn chain<A: ElemList, B: ElemList>(first: A, second: B) -> (r: Chain<A, B>)
    ensures
        r == (Chain { first, second }),
{
    Chain { first, second }
}

/// The element that describes nothing: applying it leaves the retained
/// node exactly as it is.
pub struct Empty;

impl Elem for Empty {
    open spec fn spec_apply(self, n: NodeView, bounds: Bounds) -> NodeView {
        n
    }

    fn apply(self, node: &mut Node, bounds: Bounds) {
    }

    proof fn lemma_reapply(self, n: NodeView, x: i64, y: i64, bounds: Bounds) {
    }
}

/// Every single element is also the one-slot list.
impl<E: Elem> ElemList for E {
    open spec fn spec_count(self) -> nat {
        1
    }

    open spec fn spec_apply_all(self, prior: Seq<NodeView>, bounds: Bounds) -> Seq<NodeView> {
        seq![self.spec_apply(slot_target(prior, 0), bounds)]
    }

    fn apply_all(self, cursor: &mut Cursor, bounds: Bounds) {
        let ghost pv = children_view(old(cursor).prior@);
        proof {
            crate::node::lemma_children_view(old(cursor).prior@);
        }
        let mut c = cursor.add();
        self.apply(&mut c, bounds);
        cursor.place(c);
        proof {
            crate::node::lemma_children_view_push(old(cursor).done@, c);
            assert(c@ == self.spec_apply(slot_target(pv, 0), bounds));
            assert(children_view(cursor.done@) =~= children_view(old(cursor).done@)
                + self.spec_apply_all(pv, bounds));
            crate::node::lemma_children_view(cursor.prior@);
            assert(children_view(cursor.prior@) =~= slots_after(pv, 1));
        }
    }

    proof fn lemma_count_all(self, prior: Seq<NodeView>, bounds: Bounds) {
    }

    proof fn lemma_reapply_all(
        self,
        prior: Seq<NodeView>,
        off: Seq<(i64, i64)>,
        tail: Seq<NodeView>,
        bounds: Bounds,
    ) {
        let made = self.spec_apply(slot_target(prior, 0), bounds);
        let placed = place_all(self.spec_apply_all(prior, bounds), off);
        self.lemma_reapply(slot_target(prior, 0), off[0].0, off[0].1, bounds);
        assert(slot_target(placed + tail, 0) == made.with_offset(off[0].0, off[0].1));
        assert(self.spec_apply_all(placed + tail, bounds) =~= placed);
    }
}

/// The empty list: fills no slots at all.
impl ElemList for () {
    open spec fn spec_count(self) -> nat {
        0
    }

    open spec fn spec_apply_all(self, prior: Seq<NodeView>, bounds: Bounds) -> Seq<NodeView> {
        Seq::empty()
    }

    fn apply_all(self, cursor: &mut Cursor, bounds: Bounds) {
        proof {
            assert(children_view(cursor.done@) =~= children_view(cursor.done@)
                + Seq::<NodeView>::empty());
            assert(children_view(cursor.prior@) =~= slots_after(
                children_view(cursor.prior@),
                0,
            ));
        }
    }

    proof fn lemma_count_all(self, prior: Seq<NodeView>, bounds: Bounds) {
    }

    proof fn lemma_reapply_all(
        self,
        prior: Seq<NodeView>,
        off: Seq<(i64, i64)>,
        tail: Seq<NodeView>,
        bounds: Bounds,
    ) {
        assert(place_all(Seq::empty(), off) =~= Seq::<NodeView>::empty());
        assert(self.spec_apply_all(place_all(self.spec_apply_all(prior, bounds), off) + tail, bounds)
            =~= place_all(self.spec_apply_all(prior, bounds), off));
    }
}

impl<A: ElemList, B: ElemList> ElemList for Chain<A, B> {
    open spec fn spec_count(self) -> nat {
        self.first.spec_count() + self.second.spec_count()
    }

    open spec fn spec_apply_all(self, prior: Seq<NodeView>, bounds: Bounds) -> Seq<NodeView> {
        self.first.spec_apply_all(prior, bounds) + self.second.spec_apply_all(
            slots_after(prior, self.first.spec_count() as int),
            bounds,
        )
    }

    fn apply_all(self, cursor: &mut Cursor, bounds: Bounds) {
        let ghost pv = children_view(old(cursor).prior@);
        let ghost ca = self.first.spec_count() as int;
        let ghost cb = self.second.spec_count() as int;
        proof {
            self.first.lemma_count_all(pv, bounds);
            self.second.lemma_count_all(slots_after(pv, ca), bounds);
        }
        self.first.apply_all(cursor, bounds);
        self.second.apply_all(cursor, bounds);
        proof {
            assert(slots_after(slots_after(pv, ca), cb) =~= slots_after(pv, ca + cb));
            assert(children_view(cursor.done@) =~= children_view(old(cursor).done@)
                + self.spec_apply_all(pv, bounds));
        }
    }

    proof fn lemma_count_all(self, prior: Seq<NodeView>, bounds: Bounds) {
        self.first.lemma_count_all(prior, bounds);
        self.second.lemma_count_all(slots_after(prior, self.first.spec_count() as int), bounds);
    }

    proof fn lemma_reapply_all(
        self,
        prior: Seq<NodeView>,
        off: Seq<(i64, i64)>,
        tail: Seq<NodeView>,
        bounds: Bounds,
    ) {
        let ca = self.first.spec_count() as int;
        let made_a = self.first.spec_apply_all(prior, bounds);
        let made_b = self.second.spec_apply_all(slots_after(prior, ca), bounds);
        let placed = place_all(made_a + made_b, off);
        let placed_a = place_all(made_a, off.take(ca));
        let placed_b = place_all(made_b, off.skip(ca));
        self.first.lemma_count_all(prior, bounds);
        self.second.lemma_count_all(slots_after(prior, ca), bounds);
        assert(placed =~= placed_a + placed_b);
        self.first.lemma_reapply_all(prior, off.take(ca), placed_b + tail, bounds);
        assert((placed_a + placed_b) + tail =~= placed_a + (placed_b + tail));
        assert(slots_after(placed + tail, ca) =~= placed_b + tail);
        self.second.lemma_reapply_all(slots_after(prior, ca), off.skip(ca), tail, bounds);
        assert(self.spec_apply_all(placed + tail, bounds) =~= placed);
    }
}

/// A pair of elements fills two slots in positional order.
impl<A: Elem, B: Elem> ElemList for (A, B) {
    open spec fn spec_count(self) -> nat {
        Chain { first: self.0, second: self.1 }.spec_count()
    }

    open spec fn spec_apply_all(self, prior: Seq<NodeView>, bounds: Bounds) -> Seq<NodeView> {
        Chain { first: self.0, second: self.1 }.spec_apply_all(prior, bounds)
    }

    fn apply_all(self, cursor: &mut Cursor, bounds: Bounds) {
        chain(self.0, self.1).apply_all(cursor, bounds)
    }

    proof fn lemma_count_all(self, prior: Seq<NodeView>, bounds: Bounds) {
        Chain { first: self.0, second: self.1 }.lemma_count_all(prior, bounds)
    }

    proof fn lemma_reapply_all(
        self,
        prior: Seq<NodeView>,
        off: Seq<(i64, i64)>,
        tail: Seq<NodeView>,
        bounds: Bounds,
    ) {
        Chain { first: self.0, second: self.1 }.lemma_reapply_all(prior, off, tail, bounds)
    }
}

/// A triple of elements fills three slots in positional order.
impl<A: Elem, B: Elem, C: Elem> ElemList for (A, B, C) {
    open spec fn spec_count(self) -> nat {
        Chain { first: self.0, second: (self.1, self.2) }.spec_count()
    }

    open spec fn spec_apply_all(self, prior: Seq<NodeView>, bounds: Bounds) -> Seq<NodeView> {
        Chain { first: self.0, second: (self.1, self.2) }.spec_apply_all(prior, bounds)
    }

    fn apply_all(self, cursor: &mut Cursor, bounds: Bounds) {
        chain(self.0, (self.1, self.2)).apply_all(cursor, bounds)
    }

    proof fn lemma_count_all(self, prior: Seq<NodeView>, bounds: Bounds) {
        Chain { first: self.0, second: (self.1, self.2) }.lemma_count_all(prior, bounds)
    }

    proof fn lemma_reapply_all(
        self,
        prior: Seq<NodeView>,
        off: Seq<(i64, i64)>,
        tail: Seq<NodeView>,
        bounds: Bounds,
    ) {
        Chain { first: self.0, second: (self.1, self.2) }.lemma_reapply_all(
            prior,
            off,
            tail,
            bounds,
        )
    }
}

/// Four elements fill four slots in positional order.
impl<A: Elem, B: Elem, C: Elem, D: Elem> ElemList for (A, B, C, D) {
    open spec fn spec_count(self) -> nat {
        Chain { first: self.0, second: (self.1, self.2, self.3) }.spec_count()
    }

    open spec fn spec_apply_all(self, prior: Seq<NodeView>, bounds: Bounds) -> Seq<NodeView> {
        Chain { first: self.0, second: (self.1, self.2, self.3) }.spec_apply_all(prior, bounds)
    }

    fn apply_all(self, cursor: &mut Cursor, bounds: Bounds) {
        chain(self.0, (self.1, self.2, self.3)).apply_all(cursor, bounds)
    }

    proof fn lemma_count_all(self, prior: Seq<NodeView>, bounds: Bounds) {
        Chain { first: self.0, second: (self.1, self.2, self.3) }.lemma_count_all(prior, bounds)
    }

    proof fn lemma_reapply_all(
        self,
        prior: Seq<NodeView>,
        off: Seq<(i64, i64)>,
        tail: Seq<NodeView>,
        bounds: Bounds,
    ) {
        Chain { first: self.0, second: (self.1, self.2, self.3) }.lemma_reapply_all(
            prior,
            off,
            tail,
            bounds,
        )
    }
}

/// The reconciled slots of a homogeneous element sequence: the `i`-th
/// element patches the `i`-th retained child.
pub open spec fn list_apply_all<E: Elem>(
    elems: Seq<E>,
    prior: Seq<NodeView>,
    bounds: Bounds,
) -> Seq<NodeView>
    decreases elems,
{
    if elems.len() == 0 {
        Seq::empty()
    } else {
        list_apply_all(elems.drop_last(), prior, bounds).push(
            elems.last().spec_apply(slot_target(prior, elems.len() - 1), bounds),
        )
    }
}

/// `list_apply_all` maps the element sequence position by position.
pub proof fn lemma_list_apply_all<E: Elem>(elems: Seq<E>, prior: Seq<NodeView>, bounds: Bounds)
    ensures
        list_apply_all(elems, prior, bounds).len() == elems.len(),
        forall|i: int|
            0 <= i < elems.len() ==> list_apply_all(elems, prior, bounds)[i]
                == elems[i].spec_apply(slot_target(prior, i), bounds),
    decreases elems,
{
    if elems.len() > 0 {
        lemma_list_apply_all(elems.drop_last(), prior, bounds);
    }
}

/// A dynamic-length list of elements of one type, for child counts not
/// known at compile time.
impl<E: Elem> ElemList for Vec<E> {
    open spec fn spec_count(self) -> nat {
        self@.len()
    }

    open spec fn spec_apply_all(self, prior: Seq<NodeView>, bounds: Bounds) -> Seq<NodeView> {
        list_apply_all(self@, prior, bounds)
    }

    fn apply_all(self, cursor: &mut Cursor, bounds: Bounds) {
        let ghost elems = self@;
        let ghost pv = children_view(old(cursor).prior@);
        let ghost dv = children_view(old(cursor).done@);
        let count = self.len();
        let mut list = self;
        let mut i: usize = 0;
        while i < count
            invariant
                i <= count,
                count == elems.len(),
                list@ == elems.skip(i as int),
                !cursor.mid,
                pv == children_view(old(cursor).prior@),
                dv == children_view(old(cursor).done@),
                children_view(cursor.done@) == dv + list_apply_all(
                    elems.take(i as int),
                    pv,
                    bounds,
                ),
                children_view(cursor.prior@) == slots_after(pv, i as int),
            decreases count - i,
        {
            let e = list.remove(0);
            let ghost pr = cursor.prior@;
            proof {
                crate::node::lemma_children_view(pr);
            }
            let mut c = cursor.add();
            proof {
                if pr.len() > 0 {
                    assert(node_view(c) == children_view(pr)[0]);
                    assert(slots_after(pv, i as int)[0] == pv[i as int]);
                }
                assert(node_view(c) == slot_target(pv, i as int));
            }
            let ghost before_done = cursor.done@;
            e.apply(&mut c, bounds);
            cursor.place(c);
            proof {
                assert(c@ == elems[i as int].spec_apply(slot_target(pv, i as int), bounds));
                crate::node::lemma_children_view_push(before_done, c);
                assert forall|j: int| 0 <= j < cursor.prior@.len() implies node_view(
                    cursor.prior@[j],
                ) == pv[i + 1 + j] by {
                    assert(cursor.prior@[j] == pr[j + 1]);
                    assert(children_view(pr)[j + 1] == node_view(pr[j + 1]));
                    assert(slots_after(pv, i as int)[j + 1] == pv[i + 1 + j]);
                }
                assert(elems.take(i + 1).drop_last() =~= elems.take(i as int));
                assert(elems.take(i + 1).last() == elems[i as int]);
                assert(children_view(cursor.done@) =~= dv + list_apply_all(
                    elems.take(i + 1),
                    pv,
                    bounds,
                ));
                crate::node::lemma_children_view(cursor.prior@);
                assert(children_view(cursor.prior@) =~= slots_after(pv, i + 1));
                assert(list@ =~= elems.skip(i + 1));
            }
            i += 1;
        }
        proof {
            assert(elems.take(count as int) =~= elems);
        }
    }

    proof fn lemma_count_all(self, prior: Seq<NodeView>, bounds: Bounds) {
        lemma_list_apply_all(self@, prior, bounds);
    }

    proof fn lemma_reapply_all(
        self,
        prior: Seq<NodeView>,
        off: Seq<(i64, i64)>,
        tail: Seq<NodeView>,
        bounds: Bounds,
    ) {
        let made = list_apply_all(self@, prior, bounds);
        let placed = place_all(made, off);
        lemma_list_apply_all(self@, prior, bounds);
        lemma_list_apply_all(self@, placed + tail, bounds);
        assert forall|i: int| 0 <= i < self@.len() implies list_apply_all(
            self@,
            placed + tail,
            bounds,
        )[i] == placed[i] by {
            self@[i].lemma_reapply(slot_target(prior, i), off[i].0, off[i].1, bounds);
            assert(slot_target(placed + tail, i) == placed[i]);
        }
        assert(list_apply_all(self@, placed + tail, bounds) =~= placed);
    }
}

/// A text run. The external measurement service shapes and measures the
/// text; the element carries the resulting [`TextRun`] as plain data,
/// together with the font handle and size it was shaped at.
pub struct Text {
    pub font: u32,
    pub size: u32,
    pub run: TextRun,
}

/// The colour text is drawn in.
pub open spec fn text_color() -> Color {
    Color { r: 255, g: 255, b: 255, a: 255 }
}

impl Text {
    pub fn new(font: u32, size: u32, run: TextRun) -> (r: Text)
        ensures
            r == (Text { font, size, run }),
    {
        Text { font, size, run }
    }
}

impl Elem for Text {
    open spec fn spec_apply(self, n: NodeView, bounds: Bounds) -> NodeView {
        NodeView {
            shape: ShapeView::Text {
                x: 0,
                y: 0,
                font: self.font,
                size: self.size,
                glyphs: self.run.glyphs@,
                color: text_color(),
            },
            width: self.run.width,
            height: self.run.height,
            ..n.retag(TAG_TEXT)
        }
    }

    fn apply(self, node: &mut Node, bounds: Bounds) {
        node.tag(TAG_TEXT);
        let width = self.run.width;
        let height = self.run.height;
        node.set_shape(
            Shape::Text {
                x: 0,
                y: 0,
                font: self.font,
                size: self.size,
                glyphs: self.run.glyphs,
                color: Color::rgba(255, 255, 255, 255),
            },
        );
        node.set_size(width, height);
        proof {
            assert(node@ =~= self.spec_apply(old(node)@, bounds));
        }
    }

    proof fn lemma_reapply(self, n: NodeView, x: i64, y: i64, bounds: Bounds) {
        assert(self.spec_apply(self.spec_apply(n, bounds).with_offset(x, y), bounds)
            =~= self.spec_apply(n, bounds).with_offset(x, y));
    }
}

/// Uniform padding around a single child: the child is measured under a
/// constraint shrunk by the padding on each side, placed at the padding
/// offset, and the node reports the child's size inflated by the padding.
pub struct Padding<C: Elem> {
    pub padding: u32,
    pub child: C,
}

impl<C: Elem> Padding<C> {
    pub fn new(padding: u32, child: C) -> (r: Padding<C>)
        ensures
            r == (Padding { padding, child }),
    {
        Padding { padding, child }
    }
}

impl<C: Elem> Elem for Padding<C> {
    open spec fn spec_apply(self, n: NodeView, bounds: Bounds) -> NodeView {
        let n1 = n.retag(TAG_PADDING);
        let pad2 = sat_add32(self.padding as int, self.padding as int);
        let cb = Bounds {
            width: bounds.width.spec_shrink(pad2),
            height: bounds.height.spec_shrink(pad2),
        };
        let c = self.child.spec_apply(slot_target(n1.children, 0), cb);
        NodeView {
            children: seq![c.with_offset(self.padding as i64, self.padding as i64)],
            width: sat_add32(c.width as int, pad2) as u32,
            height: sat_add32(c.height as int, pad2) as u32,
            ..n1
        }
    }

    fn apply(self, node: &mut Node, bounds: Bounds) {
        node.tag(TAG_PADDING);
        let pad2 = size_add(self.padding, self.padding);
        let cb = Bounds { width: bounds.width.shrink(pad2), height: bounds.height.shrink(pad2) };
        let ghost n1 = old(node)@.retag(TAG_PADDING);
        proof {
            crate::node::lemma_children_view(node.children@);
        }
        let mut cur = node.edit_children();
        let mut c = cur.add();
        self.child.apply(&mut c, cb);
        cur.place(c);
        node.end_edit(cur);
        proof {
            crate::node::lemma_children_view_push(Seq::empty(), c);
            assert(c@ == self.child.spec_apply(slot_target(n1.children, 0), cb));
        }
        let (w, h) = node.child_size(0);
        node.set_child_offset(0, self.padding as i64, self.padding as i64);
        node.set_size(size_add(w, pad2), size_add(h, pad2));
        proof {
            assert(node@.children =~= seq![
                c@.with_offset(self.padding as i64, self.padding as i64),
            ]);
            assert(node@ =~= self.spec_apply(old(node)@, bounds));
        }
    }

    proof fn lemma_reapply(self, n: NodeView, x: i64, y: i64, bounds: Bounds) {
        let n1 = n.retag(TAG_PADDING);
        let pad2 = sat_add32(self.padding as int, self.padding as int);
        let cb = Bounds {
            width: bounds.width.spec_shrink(pad2),
            height: bounds.height.spec_shrink(pad2),
        };
        let t = slot_target(n1.children, 0);
        let c = self.child.spec_apply(t, cb);
        let c2 = c.with_offset(self.padding as i64, self.padding as i64);
        let r2 = self.spec_apply(n, bounds).with_offset(x, y);
        assert(slot_target(r2.children, 0) == c2);
        self.child.lemma_reapply(t, self.padding as i64, self.padding as i64, cb);
        assert(c2.with_offset(self.padding as i64, self.padding as i64) =~= c2);
        assert(self.spec_apply(r2, bounds) =~= r2);
    }
}

/// A filled background behind a single child: the child is reconciled
/// unmodified, and the node draws a rectangle of the child's resulting
/// size underneath it.
pub struct BackgroundColor<C: Elem> {
    pub color: Color,
    pub child: C,
}

impl<C: Elem> BackgroundColor<C> {
    pub fn new(color: Color, child: C) -> (r: BackgroundColor<C>)
        ensures
            r == (BackgroundColor { color, child }),
    {
        BackgroundColor { color, child }
    }
}

impl<C: Elem> Elem for BackgroundColor<C> {
    open spec fn spec_apply(self, n: NodeView, bounds: Bounds) -> NodeView {
        let n1 = n.retag(TAG_BACKGROUND);
        let c = self.child.spec_apply(slot_target(n1.children, 0), bounds);
        NodeView {
            children: seq![c],
            shape: ShapeView::Rect {
                x: 0,
                y: 0,
                width: c.width,
                height: c.height,
                color: self.color,
            },
            width: c.width,
            height: c.height,
            ..n1
        }
    }

    fn apply(self, node: &mut Node, bounds: Bounds) {
        node.tag(TAG_BACKGROUND);
        let ghost n1 = old(node)@.retag(TAG_BACKGROUND);
        proof {
            crate::node::lemma_children_view(node.children@);
        }
        let mut cur = node.edit_children();
        let mut c = cur.add();
        self.child.apply(&mut c, bounds);
        cur.place(c);
        node.end_edit(cur);
        proof {
            crate::node::lemma_children_view_push(Seq::empty(), c);
            assert(c@ == self.child.spec_apply(slot_target(n1.children, 0), bounds));
        }
        let (w, h) = node.child_size(0);
        node.set_shape(Shape::Rect { x: 0, y: 0, width: w, height: h, color: self.color });
        node.set_size(w, h);
        proof {
            assert(node@ =~= self.spec_apply(old(node)@, bounds));
        }
    }

    proof fn lemma_reapply(self, n: NodeView, x: i64, y: i64, bounds: Bounds) {
        let n1 = n.retag(TAG_BACKGROUND);
        let t = slot_target(n1.children, 0);
        let c = self.child.spec_apply(t, bounds);
        let r2 = self.spec_apply(n, bounds).with_offset(x, y);
        assert(slot_target(r2.children, 0) == c);
        self.child.lemma_reapply(t, c.offset_x, c.offset_y, bounds);
        assert(c.with_offset(c.offset_x, c.offset_y) =~= c);
        assert(self.spec_apply(r2, bounds) =~= r2);
    }
}

/// The running main-axis position of the `i`-th child of a row: the
/// widths of all earlier children plus one spacing after each, saturated.
pub open spec fn row_shift(made: Seq<NodeView>, spacing: u32, i: int) -> int
    decreases i,
{
    if i <= 0 {
        0
    } else {
        sat_add32(row_shift(made, spacing, i - 1), sat_add32(made[i - 1].width as int, spacing as int))
    }
}

/// The offsets a row assigns its children: left to right, separated by
/// the spacing, all on the row's top edge.
pub open spec fn row_offsets(made: Seq<NodeView>, spacing: u32) -> Seq<(i64, i64)> {
    Seq::new(made.len(), |i: int| (row_shift(made, spacing, i) as i64, 0i64))
}

/// The width a row reports: the packed extent of its children less the
/// trailing spacing, and zero when there are no children.
pub open spec fn row_main(made: Seq<NodeView>, spacing: u32) -> int {
    if made.len() == 0 {
        0
    } else {
        sat_sub32(row_shift(made, spacing, made.len() as int), spacing as int)
    }
}

/// The height a row reports: the greatest height among its first `i`
/// children.
pub open spec fn row_cross(made: Seq<NodeView>, i: int) -> int
    decreases i,
{
    if i <= 0 {
        0
    } else {
        max32(row_cross(made, i - 1), made[i - 1].height as int)
    }
}

/// `row_shift` depends only on the children's widths.
pub proof fn lemma_row_shift_same(a: Seq<NodeView>, b: Seq<NodeView>, spacing: u32, i: int)
    requires
        a.len() == b.len(),
        forall|j: int| 0 <= j < a.len() ==> a[j].width == b[j].width,
        i <= a.len(),
    ensures
        row_shift(a, spacing, i) == row_shift(b, spacing, i),
    decreases i,
{
    if i > 0 {
        lemma_row_shift_same(a, b, spacing, i - 1);
    }
}

/// `row_cross` depends only on the children's heights.
pub proof fn lemma_row_cross_same(a: Seq<NodeView>, b: Seq<NodeView>, i: int)
    requires
        a.len() == b.len(),
        forall|j: int| 0 <= j < a.len() ==> a[j].height == b[j].height,
        i <= a.len(),
    ensures
        row_cross(a, i) == row_cross(b, i),
    decreases i,
{
    if i > 0 {
        lemma_row_cross_same(a, b, i - 1);
    }
}

/// A horizontal stack: children are measured at unbounded width to learn
/// their natural widths, then placed left to right separated by a fixed
/// spacing; the row is as wide as the packed run and as tall as its
/// tallest child.
pub struct Row<C: ElemList> {
    pub spacing: u32,
    pub children: C,
}

impl<C: ElemList> Row<C> {
    pub fn new(spacing: u32, children: C) -> (r: Row<C>)
        ensures
            r == (Row { spacing, children }),
    {
        Row { spacing, children }
    }
}

impl<C: ElemList> Elem for Row<C> {
    open spec fn spec_apply(self, n: NodeView, bounds: Bounds) -> NodeView {
        let n1 = n.retag(TAG_ROW);
        let cb = Bounds { width: Extent::Unbounded, height: bounds.height };
        let made = self.children.spec_apply_all(n1.children, cb);
        NodeView {
            children: place_all(made, row_offsets(made, self.spacing)),
            width: row_main(made, self.spacing) as u32,
            height: row_cross(made, made.len() as int) as u32,
            ..n1
        }
    }

    fn apply(self, node: &mut Node, bounds: Bounds) {
        node.tag(TAG_ROW);
        let cb = Bounds::new(Extent::Unbounded, bounds.height);
        let ghost n1 = old(node)@.retag(TAG_ROW);
        let mut cur = node.edit_children();
        self.children.apply_all(&mut cur, cb);
        node.end_edit(cur);
        let ghost made = self.children.spec_apply_all(n1.children, cb);
        let spacing = self.spacing;
        proof {
            assert(node@.children =~= made);
            assert(node@ =~= (NodeView { children: made, ..n1 }));
            assert(place_all(made, row_offsets(made, spacing)).take(0) + made.skip(0) =~= made);
        }
        let count = node.child_count();
        let mut x: u32 = 0;
        let mut hmax: u32 = 0;
        let mut i: usize = 0;
        while i < count
            invariant
                i <= count,
                count == made.len(),
                x == row_shift(made, spacing, i as int),
                hmax == row_cross(made, i as int),
                node@ == (NodeView {
                    children: place_all(made, row_offsets(made, spacing)).take(i as int)
                        + made.skip(i as int),
                    ..n1
                }),
            decreases count - i,
        {
            proof {
                assert(node@.children[i as int] == made[i as int]);
            }
            let (w, h) = node.child_size(i);
            node.set_child_offset(i, x as i64, 0);
            proof {
                assert(made[i as int].with_offset(x as i64, 0) == place_all(
                    made,
                    row_offsets(made, spacing),
                )[i as int]);
                assert(node@.children =~= place_all(made, row_offsets(made, spacing)).take(
                    i + 1,
                ) + made.skip(i + 1));
                assert(node@ =~= (NodeView {
                    children: place_all(made, row_offsets(made, spacing)).take(i + 1) + made.skip(
                        i + 1,
                    ),
                    ..n1
                }));
            }
            x = size_add(x, size_add(w, spacing));
            hmax = size_max(hmax, h);
            i += 1;
        }
        let width = if count == 0 {
            0
        } else {
            size_sub(x, spacing)
        };
        node.set_size(width, hmax);
        proof {
            assert(place_all(made, row_offsets(made, spacing)).take(count as int) + made.skip(
                count as int,
            ) =~= place_all(made, row_offsets(made, spacing)));
            assert(node@ =~= self.spec_apply(old(node)@, bounds));
        }
    }

    proof fn lemma_reapply(self, n: NodeView, x: i64, y: i64, bounds: Bounds) {
        let n1 = n.retag(TAG_ROW);
        let cb = Bounds { width: Extent::Unbounded, height: bounds.height };
        let made = self.children.spec_apply_all(n1.children, cb);
        let offs = row_offsets(made, self.spacing);
        let placed = place_all(made, offs);
        let r2 = self.spec_apply(n, bounds).with_offset(x, y);
        self.children.lemma_count_all(n1.children, cb);
        self.children.lemma_reapply_all(n1.children, offs, Seq::empty(), cb);
        assert(placed + Seq::<NodeView>::empty() =~= placed);
        let made2 = self.children.spec_apply_all(r2.children, cb);
        assert(made2 == placed);
        assert(forall|j: int| 0 <= j < made.len() ==> placed[j].width == made[j].width);
        assert(forall|j: int| 0 <= j < made.len() ==> placed[j].height == made[j].height);
        lemma_row_shift_same(placed, made, self.spacing, made.len() as int);
        lemma_row_cross_same(placed, made, made.len() as int);
        assert(forall|j: int|
            0 <= j < made.len() ==> row_shift(placed, self.spacing, j) == row_shift(
                made,
                self.spacing,
                j,
            )) by {
            assert forall|j: int| 0 <= j < made.len() implies row_shift(placed, self.spacing, j)
                == row_shift(made, self.spacing, j) by {
                lemma_row_shift_same(placed, made, self.spacing, j);
            }
        }
        assert(place_all(made2, row_offsets(made2, self.spacing)) =~= placed);
        assert(self.spec_apply(r2, bounds) =~= r2);
    }
}

/// The running main-axis position of the `i`-th child of a column.
pub open spec fn col_shift(made: Seq<NodeView>, spacing: u32, i: int) -> int
    decreases i,
{
    if i <= 0 {
        0
    } else {
        sat_add32(
            col_shift(made, spacing, i - 1),
            sat_add32(made[i - 1].height as int, spacing as int),
        )
    }
}

/// The offsets a column assigns its children: top to bottom, separated
/// by the spacing, all on the column's left edge.
pub open spec fn col_offsets(made: Seq<NodeView>, spacing: u32) -> Seq<(i64, i64)> {
    Seq::new(made.len(), |i: int| (0i64, col_shift(made, spacing, i) as i64))
}

/// The height a column reports.
pub open spec fn col_main(made: Seq<NodeView>, spacing: u32) -> int {
    if made.len() == 0 {
        0
    } else {
        sat_sub32(col_shift(made, spacing, made.len() as int), spacing as int)
    }
}

/// The width a column reports: the greatest width among its first `i`
/// children.
pub open spec fn col_cross(made: Seq<NodeView>, i: int) -> int
    decreases i,
{
    if i <= 0 {
        0
    } else {
        max32(col_cross(made, i - 1), made[i - 1].width as int)
    }
}

/// `col_shift` depends only on the children's heights.
pub proof fn lemma_col_shift_same(a: Seq<NodeView>, b: Seq<NodeView>, spacing: u32, i: int)
    requires
        a.len() == b.len(),
        forall|j: int| 0 <= j < a.len() ==> a[j].height == b[j].height,
        i <= a.len(),
    ensures
        col_shift(a, spacing, i) == col_shift(b, spacing, i),
    decreases i,
{
    if i > 0 {
        lemma_col_shift_same(a, b, spacing, i - 1);
    }
}

/// `col_cross` depends only on the children's widths.
pub proof fn lemma_col_cross_same(a: Seq<NodeView>, b: Seq<NodeView>, i: int)
    requires
        a.len() == b.len(),
        forall|j: int| 0 <= j < a.len() ==> a[j].width == b[j].width,
        i <= a.len(),
    ensures
        col_cross(a, i) == col_cross(b, i),
    decreases i,
{
    if i > 0 {
        lemma_col_cross_same(a, b, i - 1);
    }
}

/// A vertical stack: children are measured at unbounded height to learn
/// their natural heights, then placed top to bottom separated by a fixed
/// spacing; the column is as tall as the packed run and as wide as its
/// widest child.
pub struct Col<C: ElemList> {
    pub spacing: u32,
    pub children: C,
}

impl<C: ElemList> Col<C> {
    pub fn new(spacing: u32, children: C) -> (r: Col<C>)
        ensures
            r == (Col { spacing, children }),
    {
        Col { spacing, children }
    }
}

impl<C: ElemList> Elem for Col<C> {
    open spec fn spec_apply(self, n: NodeView, bounds: Bounds) -> NodeView {
        let n1 = n.retag(TAG_COL);
        let cb = Bounds { width: bounds.width, height: Extent::Unbounded };
        let made = self.children.spec_apply_all(n1.children, cb);
        NodeView {
            children: place_all(made, col_offsets(made, self.spacing)),
            width: col_cross(made, made.len() as int) as u32,
            height: col_main(made, self.spacing) as u32,
            ..n1
        }
    }

    fn apply(self, node: &mut Node, bounds: Bounds) {
        node.tag(TAG_COL);
        let cb = Bounds::new(bounds.width, Extent::Unbounded);
        let ghost n1 = old(node)@.retag(TAG_COL);
        let mut cur = node.edit_children();
        self.children.apply_all(&mut cur, cb);
        node.end_edit(cur);
        let ghost made = self.children.spec_apply_all(n1.children, cb);
        let spacing = self.spacing;
        proof {
            assert(node@.children =~= made);
            assert(node@ =~= (NodeView { children: made, ..n1 }));
            assert(place_all(made, col_offsets(made, spacing)).take(0) + made.skip(0) =~= made);
        }
        let count = node.child_count();
        let mut y: u32 = 0;
        let mut wmax: u32 = 0;
        let mut i: usize = 0;
        while i < count
            invariant
                i <= count,
                count == made.len(),
                y == col_shift(made, spacing, i as int),
                wmax == col_cross(made, i as int),
                node@ == (NodeView {
                    children: place_all(made, col_offsets(made, spacing)).take(i as int)
                        + made.skip(i as int),
                    ..n1
                }),
            decreases count - i,
        {
            proof {
                assert(node@.children[i as int] == made[i as int]);
            }
            let (w, h) = node.child_size(i);
            node.set_child_offset(i, 0, y as i64);
            proof {
                assert(made[i as int].with_offset(0, y as i64) == place_all(
                    made,
                    col_offsets(made, spacing),
                )[i as int]);
                assert(node@.children =~= place_all(made, col_offsets(made, spacing)).take(
                    i + 1,
                ) + made.skip(i + 1));
                assert(node@ =~= (NodeView {
                    children: place_all(made, col_offsets(made, spacing)).take(i + 1) + made.skip(
                        i + 1,
                    ),
                    ..n1
                }));
            }
            y = size_add(y, size_add(h, spacing));
            wmax = size_max(wmax, w);
            i += 1;
        }
        let height = if count == 0 {
            0
        } else {
            size_sub(y, spacing)
        };
        node.set_size(wmax, height);
        proof {
            assert(place_all(made, col_offsets(made, spacing)).take(count as int) + made.skip(
                count as int,
            ) =~= place_all(made, col_offsets(made, spacing)));
            assert(node@ =~= self.spec_apply(old(node)@, bounds));
        }
    }

    proof fn lemma_reapply(self, n: NodeView, x: i64, y: i64, bounds: Bounds) {
        let n1 = n.retag(TAG_COL);
        let cb = Bounds { width: bounds.width, height: Extent::Unbounded };
        let made = self.children.spec_apply_all(n1.children, cb);
        let offs = col_offsets(made, self.spacing);
        let placed = place_all(made, offs);
        let r2 = self.spec_apply(n, bounds).with_offset(x, y);
        self.children.lemma_count_all(n1.children, cb);
        self.children.lemma_reapply_all(n1.children, offs, Seq::empty(), cb);
        assert(placed + Seq::<NodeView>::empty() =~= placed);
        let made2 = self.children.spec_apply_all(r2.children, cb);
        assert(made2 == placed);
        assert(forall|j: int| 0 <= j < made.len() ==> placed[j].width == made[j].width);
        assert(forall|j: int| 0 <= j < made.len() ==> placed[j].height == made[j].height);
        lemma_col_shift_same(placed, made, self.spacing, made.len() as int);
        lemma_col_cross_same(placed, made, made.len() as int);
        assert(forall|j: int|
            0 <= j < made.len() ==> col_shift(placed, self.spacing, j) == col_shift(
                made,
                self.spacing,
                j,
            )) by {
            assert forall|j: int| 0 <= j < made.len() implies col_shift(placed, self.spacing, j)
                == col_shift(made, self.spacing, j) by {
                lemma_col_shift_same(placed, made, self.spacing, j);
            }
        }
        assert(place_all(made2, col_offsets(made2, self.spacing)) =~= placed);
        assert(self.spec_apply(r2, bounds) =~= r2);
    }
}

/// The padding a button puts around its content.
pub const BUTTON_PADDING: u32 = 5;

/// A button's background while it is being pressed.
pub open spec fn button_pressed_color() -> Color {
    Color { r: 36, g: 112, b: 196, a: 255 }
}

/// A button's background while the pointer hovers over it.
pub open spec fn button_hover_color() -> Color {
    Color { r: 138, g: 161, b: 181, a: 255 }
}

/// A button's background at rest.
pub open spec fn button_idle_color() -> Color {
    Color { r: 97, g: 107, b: 122, a: 255 }
}

/// Whether a recorded event is a click for a button: a release of the
/// left pointer button.
pub open spec fn is_click(e: Event) -> bool {
    match e.input {
        Input::MouseUp(b) => b == MouseButton::Left,
        _ => false,
    }
}

/// The message copies a button emits for the clicks among the recorded
/// events, one per click, in order.
pub open spec fn clicks_of(events: Seq<Event>, message: u64) -> Seq<u64>
    decreases events,
{
    if events.len() == 0 {
        Seq::empty()
    } else if is_click(events.last()) {
        clicks_of(events.drop_last(), message).push(message)
    } else {
        clicks_of(events.drop_last(), message)
    }
}

/// What a button emits: nothing when no click message is installed.
pub open spec fn click_messages(events: Seq<Event>, message: Option<u64>) -> Seq<u64> {
    match message {
        Option::Some(m) => clicks_of(events, m),
        Option::None => Seq::empty(),
    }
}

/// A clickable button around a child: background plus padding plus the
/// child. The button reads the pointer releases recorded on its node
/// since the last frame and emits its click message once per click; its
/// background colour follows the node's current hover and drag state.
pub struct Button<C: Elem> {
    pub child: C,
    pub message: Option<u64>,
}

impl<C: Elem> Button<C> {
    /// A button with no click message installed.
    pub fn new(child: C) -> (r: Button<C>)
        ensures
            r == (Button { child, message: Option::<u64>::None }),
    {
        Button { child, message: Option::None }
    }

    /// Installs the message the button emits on each click.
    pub fn on_click(self, message: u64) -> (r: Button<C>)
        ensures
            r == (Button { message: Option::Some(message), ..self }),
    {
        Button { message: Option::Some(message), ..self }
    }
}

impl<C: Elem> Elem for Button<C> {
    open spec fn spec_apply(self, n: NodeView, bounds: Bounds) -> NodeView {
        let n1 = n.retag(TAG_BUTTON);
        let color = if n1.dragging {
            button_pressed_color()
        } else if n1.hover {
            button_hover_color()
        } else {
            button_idle_color()
        };
        let inner = BackgroundColor {
            color,
            child: Padding { padding: BUTTON_PADDING, child: self.child },
        };
        let c = inner.spec_apply(slot_target(n1.children, 0), bounds);
        NodeView {
            pending: Seq::empty(),
            outbox: n1.outbox + click_messages(n1.pending, self.message),
            interest: Interest { mouse_up: true, ..n1.interest },
            children: seq![c],
            width: c.width,
            height: c.height,
            ..n1
        }
    }

    fn apply(self, node: &mut Node, bounds: Bounds) {
        node.tag(TAG_BUTTON);
        let ghost n1 = old(node)@.retag(TAG_BUTTON);
        let events = node.take_events();
        match self.message {
            Option::Some(m) => {
                let mut i: usize = 0;
                while i < events.len()
                    invariant
                        i <= events@.len(),
                        node@ == (NodeView {
                            pending: Seq::empty(),
                            outbox: n1.outbox + clicks_of(events@.take(i as int), m),
                            ..n1
                        }),
                    decreases events@.len() - i,
                {
                    let ev = events[i];
                    let clicked = match ev.input {
                        Input::MouseUp(b) => matches!(b, MouseButton::Left),
                        _ => false,
                    };
                    if clicked {
                        node.emit(m);
                    }
                    proof {
                        assert(events@.take(i + 1).drop_last() =~= events@.take(i as int));
                        assert(events@.take(i + 1).last() == events@[i as int]);
                        assert(node@ =~= (NodeView {
                            pending: Seq::empty(),
                            outbox: n1.outbox + clicks_of(events@.take(i + 1), m),
                            ..n1
                        }));
                    }
                    i += 1;
                }
                proof {
                    assert(events@.take(events@.len() as int) =~= events@);
                }
            }
            Option::None => {
                proof {
                    assert(n1.outbox + click_messages(events@, self.message) =~= n1.outbox);
                }
            }
        }
        node.on_mouse_up();
        let color = if node.dragging() {
            Color::rgba(36, 112, 196, 255)
        } else if node.hover() {
            Color::rgba(138, 161, 181, 255)
        } else {
            Color::rgba(97, 107, 122, 255)
        };
        let inner = BackgroundColor::new(color, Padding::new(BUTTON_PADDING, self.child));
        proof {
            crate::node::lemma_children_view(node.children@);
        }
        let mut cur = node.edit_children();
        let mut c = cur.add();
        inner.apply(&mut c, bounds);
        cur.place(c);
        node.end_edit(cur);
        proof {
            crate::node::lemma_children_view_push(Seq::empty(), c);
        }
        let (w, h) = node.child_size(0);
        node.set_size(w, h);
        proof {
            assert(node@ =~= self.spec_apply(old(node)@, bounds));
        }
    }

    proof fn lemma_reapply(self, n: NodeView, x: i64, y: i64, bounds: Bounds) {
        let n1 = n.retag(TAG_BUTTON);
        let r2 = self.spec_apply(n, bounds).with_offset(x, y);
        let inner = BackgroundColor {
            color: if n1.dragging {
                button_pressed_color()
            } else if n1.hover {
                button_hover_color()
            } else {
                button_idle_color()
            },
            child: Padding { padding: BUTTON_PADDING, child: self.child },
        };
        let t = slot_target(n1.children, 0);
        let c = inner.spec_apply(t, bounds);
        assert(slot_target(r2.children, 0) == c);
        inner.lemma_reapply(t, c.offset_x, c.offset_y, bounds);
        assert(c.with_offset(c.offset_x, c.offset_y) =~= c);
        assert(click_messages(r2.pending, self.message) =~= Seq::<u64>::empty());
        assert(r2.outbox + Seq::<u64>::empty() =~= r2.outbox);
        assert(self.spec_apply(r2, bounds) =~= r2);
    }
}

/// How far a scroll offset may go: the content height that does not fit
/// in the viewport, and zero when the viewport is unbounded.
pub open spec fn scroll_limit(content: u32, viewport: Extent) -> int {
    match viewport {
        Extent::Finite(v) => sat_sub32(content as int, v as int),
        Extent::Unbounded => 0,
    }
}

/// A scroll target clamped into the valid range `[0, limit]`.
pub open spec fn clamp_scroll(t: int, limit: int) -> int {
    if t < 0 {
        0
    } else if t > limit {
        limit
    } else {
        t
    }
}

/// One recorded event folded into a scroll offset: a scroll delta moves
/// the offset against the delta and clamps it; any other event leaves it
/// alone.
pub open spec fn scroll_step(off: int, e: Event, limit: int) -> int {
    match e.input {
        Input::Scroll(dx, dy) => clamp_scroll(off - dy, limit),
        _ => off,
    }
}

/// All recorded events folded into a scroll offset, in order.
pub open spec fn scroll_fold(off: int, events: Seq<Event>, limit: int) -> int
    decreases events,
{
    if events.len() == 0 {
        off
    } else {
        scroll_step(scroll_fold(off, events.drop_last(), limit), events.last(), limit)
    }
}

/// A folded scroll offset stays within the `i64` bounds whenever the
/// starting offset does.
pub proof fn lemma_scroll_fold_in_range(off: int, events: Seq<Event>, limit: int)
    requires
        i64::MIN <= off <= i64::MAX,
        0 <= limit <= u32::MAX,
    ensures
        i64::MIN <= scroll_fold(off, events, limit) <= i64::MAX,
    decreases events,
{
    if events.len() > 0 {
        lemma_scroll_fold_in_range(off, events.drop_last(), limit);
    }
}

/// The negation of a scroll offset, saturated at the `i64` bounds.
pub open spec fn neg64(a: int) -> int {
    sat_add64(0, -a)
}

/// Executable form of [`scroll_step`] for a scroll delta.
fn scroll_step_exec(off: i64, dy: i64, limit: u32) -> (r: i64)
    ensures
        r as int == clamp_scroll(off - dy, limit as int),
{
    if dy >= 0 {
        if off <= 0 {
            0
        } else {
            let t = off - dy;
            if t < 0 {
                0
            } else if t > limit as i64 {
                limit as i64
            } else {
                t
            }
        }
    } else {
        if off > limit as i64 {
            limit as i64
        } else if off < 0 {
            let t = off - dy;
            if t < 0 {
                0
            } else if t > limit as i64 {
                limit as i64
            } else {
                t
            }
        } else {
            let d = limit as i64 - off;
            if dy < -d {
                limit as i64
            } else {
                off - dy
            }
        }
    }
}

/// Executable form of [`neg64`].
fn neg_exec(off: i64) -> (r: i64)
    ensures
        r as int == neg64(off as int),
{
    if off == i64::MIN {
        i64::MAX
    } else {
        -off
    }
}

/// A scrolling viewport around a child: the child is measured at
/// unbounded height, shifted up by the retained scroll offset, and the
/// scroll deltas recorded on the node move that offset, clamped between
/// zero and the content height that does not fit the viewport.
pub struct Scrollable<C: Elem> {
    pub child: C,
}

impl<C: Elem> Scrollable<C> {
    pub fn new(child: C) -> (r: Scrollable<C>)
        ensures
            r == (Scrollable { child }),
    {
        Scrollable { child }
    }
}

impl<C: Elem> Elem for Scrollable<C> {
    open spec fn spec_apply(self, n: NodeView, bounds: Bounds) -> NodeView {
        let n1 = n.retag(TAG_SCROLLABLE);
        let cb = Bounds { width: bounds.width, height: Extent::Unbounded };
        let c = self.child.spec_apply(slot_target(n1.children, 0), cb);
        let limit = scroll_limit(c.height, bounds.height);
        let off0: int = match n1.state {
            Slot::Scroll(o) => o as int,
            _ => 0,
        };
        let off = scroll_fold(off0, n1.pending, limit);
        NodeView {
            children: seq![c.with_offset(0, neg64(off) as i64)],
            pending: Seq::empty(),
            state: Slot::Scroll(off as i64),
            interest: Interest { scroll: true, ..n1.interest },
            width: c.width,
            height: c.height,
            ..n1
        }
    }

    #[verifier::rlimit(100)]
    fn apply(self, node: &mut Node, bounds: Bounds) {
        node.tag(TAG_SCROLLABLE);
        let ghost n1 = old(node)@.retag(TAG_SCROLLABLE);
        let cb = Bounds::new(bounds.width, Extent::Unbounded);
        proof {
            crate::node::lemma_children_view(node.children@);
        }
        let mut cur = node.edit_children();
        let mut c = cur.add();
        self.child.apply(&mut c, cb);
        cur.place(c);
        node.end_edit(cur);
        proof {
            crate::node::lemma_children_view_push(Seq::empty(), c);
        }
        let (w, h) = node.child_size(0);
        let limit: u32 = match bounds.height {
            Extent::Finite(v) => size_sub(h, v),
            Extent::Unbounded => 0,
        };
        let events = node.take_events();
        let off0: i64 = match node.state() {
            Slot::Scroll(o) => o,
            _ => 0,
        };
        let ghost limit_spec = scroll_limit(node@.children[0].height, bounds.height);
        proof {
            assert(limit as int == limit_spec);
        }
        let mut off: i64 = off0;
        let mut i: usize = 0;
        while i < events.len()
            invariant
                i <= events@.len(),
                limit <= u32::MAX,
                off as int == scroll_fold(off0 as int, events@.take(i as int), limit as int),
            decreases events@.len() - i,
        {
            let ev = events[i];
            match ev.input {
                Input::Scroll(_dx, dy) => {
                    off = scroll_step_exec(off, dy, limit);
                }
                _ => {}
            }
            proof {
                assert(events@.take(i + 1).drop_last() =~= events@.take(i as int));
                assert(events@.take(i + 1).last() == events@[i as int]);
            }
            i += 1;
        }
        proof {
            assert(events@.take(events@.len() as int) =~= events@);
        }
        node.set_state(Slot::Scroll(off));
        node.on_scroll();
        node.set_child_offset(0, 0, neg_exec(off));
        node.set_size(w, h);
        proof {
            let spec_c = self.child.spec_apply(slot_target(n1.children, 0), cb);
            let spec_off = scroll_fold(
                match n1.state {
                    Slot::Scroll(o) => o as int,
                    _ => 0,
                },
                n1.pending,
                scroll_limit(spec_c.height, bounds.height),
            );
            assert(off as int == spec_off);
            assert(c@ == spec_c);
            assert(node@.children.len() == 1);
            assert(node@.children[0] =~= spec_c.with_offset(0, neg64(spec_off) as i64));
            assert(node@.children =~= seq![spec_c.with_offset(0, neg64(spec_off) as i64)]);
            assert(node@ =~= self.spec_apply(old(node)@, bounds));
        }
    }

    proof fn lemma_reapply(self, n: NodeView, x: i64, y: i64, bounds: Bounds) {
        let n1 = n.retag(TAG_SCROLLABLE);
        let cb = Bounds { width: bounds.width, height: Extent::Unbounded };
        let t = slot_target(n1.children, 0);
        let c = self.child.spec_apply(t, cb);
        let limit = scroll_limit(c.height, bounds.height);
        let off0: int = match n1.state {
            Slot::Scroll(o) => o as int,
            _ => 0,
        };
        let off = scroll_fold(off0, n1.pending, limit);
        let r2 = self.spec_apply(n, bounds).with_offset(x, y);
        let c2 = c.with_offset(0, neg64(off) as i64);
        assert(slot_target(r2.children, 0) == c2);
        self.child.lemma_reapply(t, 0, neg64(off) as i64, cb);
        assert(c2.with_offset(0, neg64(off) as i64) =~= c2);
        lemma_scroll_fold_in_range(off0, n1.pending, limit);
        assert((off as i64) as int == off);
        assert(scroll_fold(off as i64 as int, r2.pending, scroll_limit(c2.height, bounds.height))
            == off);
        assert(self.spec_apply(r2, bounds) =~= r2);
    }
}

} // verus!
