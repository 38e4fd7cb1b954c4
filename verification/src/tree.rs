//! The quadtree itself: a node owns a rectangular region, a list of items,
//! and — once it has overflowed — exactly four children covering its four
//! quadrants. `put` inserts, `query` answers range queries.

use vstd::prelude::*;
use crate::geometry::Point;
use crate::geometry::Rectangle;
use crate::geometry::half;
use crate::geometry::half_val;
use crate::geometry::in_half_open_cell;
use crate::geometry::in_quadrant_cell;
use crate::geometry::lemma_containing_range_intersects;
use crate::geometry::lemma_quadrant_within;
use crate::geometry::lemma_quadrants_partition;
use crate::geometry::lemma_strictly_inside_lands;
use crate::geometry::strictly_inside;
use crate::geometry::quadrant_contains;
use crate::geometry::quadrant_of;
use crate::geometry::quadrant_x;
use crate::geometry::quadrant_y;
use crate::geometry::rect_contains;
use crate::geometry::rect_intersects;
use crate::geometry::split_origins_fit;
use crate::item::Position;

verus! {

/// Capacity policy of a node. `depth` is set internally on creation:
/// 0 for a root, parent depth + 1 for a child.
pub struct Options {
    pub max_items: usize,
    pub max_depth: u8,
    pub depth: u8,
}

impl Default for Options {
    fn default() -> (opts: Options)
        ensures
            opts.max_items == 20,
            opts.max_depth == 3,
            opts.depth == 0,
    {
        Options { max_items: 20, max_depth: 3, depth: 0 }
    }
}

/// The four children of a subdivided node, in the fixed quadrant order.
pub struct Children<T> {
    pub top_left: Quadtree<T>,
    pub top_right: Quadtree<T>,
    pub bottom_right: Quadtree<T>,
    pub bottom_left: Quadtree<T>,
}

/// A quadtree node: bounds, directly held items, optional children.
pub struct Quadtree<T> {
    pub x: i32,
    pub y: i32,
    pub width: i32,
    pub height: i32,
    pub items: Vec<T>,
    pub children: Option<Box<Children<T>>>,
    pub options: Options,
}

/// Filtering one more element of `p`: taking `t + 1` elements keeps the
/// filter of the first `t` and appends `p[t]` exactly when it matches.
proof fn lemma_filter_take_step<A>(p: Seq<A>, t: int, pred: spec_fn(A) -> bool)
    requires
        0 <= t < p.len(),
    ensures
        p.take(t + 1).filter(pred) == if pred(p[t]) {
            p.take(t).filter(pred).push(p[t])
        } else {
            p.take(t).filter(pred)
        },
{
    assert(p.take(t + 1) =~= p.take(t).push(p[t]));
    p.take(t).lemma_filter_push(p[t], pred);
}

/// The filter of an empty sequence is empty.
proof fn lemma_filter_of_empty<A>(pred: spec_fn(A) -> bool)
    ensures
        Seq::<A>::empty().filter(pred) == Seq::<A>::empty(),
{
    Seq::<A>::empty().lemma_filter_len(pred);
    assert(Seq::<A>::empty().filter(pred) =~= Seq::<A>::empty());
}

/// A filter whose predicate holds of every element keeps the sequence
/// unchanged.
proof fn lemma_filter_keeps_all<A>(s: Seq<A>, pred: spec_fn(A) -> bool)
    requires
        forall|i: int| 0 <= i < s.len() ==> pred(#[trigger] s[i]),
    ensures
        s.filter(pred) == s,
    decreases s.len(),
{
    if s.len() == 0 {
        lemma_filter_of_empty::<A>(pred);
        assert(s =~= Seq::<A>::empty());
    } else {
        lemma_filter_keeps_all(s.drop_last(), pred);
        s.drop_last().lemma_filter_push(s.last(), pred);
        assert(s.drop_last().push(s.last()) =~= s);
    }
}

/// An element of one of four concatenated sequences is an element of the
/// concatenation.
proof fn lemma_contains_in_concat4<A>(s0: Seq<A>, s1: Seq<A>, s2: Seq<A>, s3: Seq<A>, x: A, k: int)
    requires
        0 <= k < 4,
        k == 0 ==> s0.contains(x),
        k == 1 ==> s1.contains(x),
        k == 2 ==> s2.contains(x),
        k == 3 ==> s3.contains(x),
    ensures
        (s0 + s1 + s2 + s3).contains(x),
{
    let all = s0 + s1 + s2 + s3;
    if k == 0 {
        let i = choose|i: int| 0 <= i < s0.len() && s0[i] == x;
        assert(all[i] == x);
    } else if k == 1 {
        let i = choose|i: int| 0 <= i < s1.len() && s1[i] == x;
        assert(all[s0.len() + i] == x);
    } else if k == 2 {
        let i = choose|i: int| 0 <= i < s2.len() && s2[i] == x;
        assert(all[s0.len() + s1.len() + i] == x);
    } else {
        let i = choose|i: int| 0 <= i < s3.len() && s3[i] == x;
        assert(all[s0.len() + s1.len() + s2.len() + i] == x);
    }
}

impl<T> Children<T> {
    /// Child `k`, in the fixed order 0: top-left, 1: top-right,
    /// 2: bottom-right, 3: bottom-left.
    pub open spec fn child(self, k: int) -> Quadtree<T> {
        if k == 0 {
            self.top_left
        } else if k == 1 {
            self.top_right
        } else if k == 2 {
            self.bottom_right
        } else {
            self.bottom_left
        }
    }
}

impl<T: Position> Children<T> {
    /// The first child whose bounds contain `p`, in the fixed order.
    pub open spec fn first_child_containing(self, p: Point) -> Option<int> {
        if rect_contains(p, self.top_left.bounds_spec()) {
            Some(0int)
        } else if rect_contains(p, self.top_right.bounds_spec()) {
            Some(1int)
        } else if rect_contains(p, self.bottom_right.bounds_spec()) {
            Some(2int)
        } else if rect_contains(p, self.bottom_left.bounds_spec()) {
            Some(3int)
        } else {
            None
        }
    }
}

impl<T> Quadtree<T> {
    /// This node's bounds as one rectangle.
    pub open spec fn bounds_spec(self) -> Rectangle {
        Rectangle { x: self.x, y: self.y, width: self.width, height: self.height }
    }

    /// `p` lies in the half-open cell this node's bounds span.
    pub open spec fn in_cell(self, p: Point) -> bool {
        in_half_open_cell(p, self.x as int, self.y as int, self.width as int, self.height as int)
    }
}

impl<T: Position> Quadtree<T> {
    /// Every item held directly by this node lies in this node's bounds.
    pub open spec fn items_in_bounds(self) -> bool {
        forall|i: int|
            0 <= i < self.items@.len() ==> rect_contains(
                #[trigger] self.items@[i].spec_position(),
                self.bounds_spec(),
            )
    }

    /// `c` has the shape subdivision gives child `k` of this node:
    /// quadrant bounds, inherited policy, one level deeper, no children
    /// of its own.
    pub open spec fn child_frame_ok(self, c: Quadtree<T>, k: int) -> bool {
        &&& c.x == quadrant_x(self.bounds_spec(), k)
        &&& c.y == quadrant_y(self.bounds_spec(), k)
        &&& c.width == half_val(self.width as int)
        &&& c.height == half_val(self.height as int)
        &&& c.options.max_items == self.options.max_items
        &&& c.options.max_depth == self.options.max_depth
        &&& c.options.depth == self.options.depth + 1
        &&& c.children is None
    }

    /// Well-formedness of a tree as the constructors and `put` keep it:
    /// a node either holds items that all lie in its bounds, or holds
    /// exactly four children — each a leaf with quadrant bounds, the
    /// inherited policy, and items lying in its own bounds — and then
    /// holds no items of its own and sits strictly below `max_depth`.
    pub open spec fn wf(self) -> bool {
        match self.children {
            Some(ch) => {
                &&& self.items@.len() == 0
                &&& self.options.depth < self.options.max_depth
                &&& forall|k: int|
                    0 <= k < 4 ==> self.child_frame_ok(#[trigger] ch.child(k), k)
                &&& forall|k: int| 0 <= k < 4 ==> (#[trigger] ch.child(k)).items_in_bounds()
            },
            None => self.items_in_bounds(),
        }
    }

    /// Every item stored in the tree, in storage order: a node's own
    /// items first, then its children's in quadrant order.
    pub open spec fn all_items(self) -> Seq<T>
        decreases self,
    {
        match self.children {
            Some(ch) => self.items@ + ch.top_left.all_items() + ch.top_right.all_items()
                + ch.bottom_right.all_items() + ch.bottom_left.all_items(),
            None => self.items@,
        }
    }

    /// The predicate `query` keeps leaf items by: inclusive containment
    /// of the item's position in the queried range.
    pub open spec fn kept_by(range: Rectangle) -> spec_fn(T) -> bool {
        |it: T| rect_contains(it.spec_position(), range)
    }

    /// What `query` returns: a node with children concatenates its
    /// children's answers in quadrant order when its own bounds strictly
    /// intersect the range, and a leaf keeps exactly the items whose
    /// position the range contains, in insertion order.
    pub open spec fn query_spec(self, range: Rectangle) -> Seq<T>
        decreases self,
    {
        match self.children {
            Some(ch) => {
                if rect_intersects(range, self.bounds_spec()) {
                    ch.top_left.query_spec(range) + ch.top_right.query_spec(range)
                        + ch.bottom_right.query_spec(range) + ch.bottom_left.query_spec(range)
                } else {
                    Seq::empty()
                }
            },
            None => self.items@.filter(Self::kept_by(range)),
        }
    }

    /// Creates a leaf root over `boundary` with the default policy.
    pub fn new(boundary: Rectangle) -> (qt: Self)
        ensures
            qt.bounds_spec() == boundary,
            qt.items@ == Seq::<T>::empty(),
            qt.children is None,
            qt.options.max_items == 20,
            qt.options.max_depth == 3,
            qt.options.depth == 0,
            qt.wf(),
    {
        Self::with_options(boundary, Options { ..Default::default() })
    }

    /// Creates a leaf node over `boundary` with the given policy.
    pub fn with_options(boundary: Rectangle, options: Options) -> (qt: Self)
        ensures
            qt.bounds_spec() == boundary,
            qt.items@ == Seq::<T>::empty(),
            qt.children is None,
            qt.options == options,
            qt.wf(),
    {
        Self {
            x: boundary.x,
            y: boundary.y,
            width: boundary.width,
            height: boundary.height,
            items: Vec::new(),
            children: None,
            options,
        }
    }

    /// Whether this node's bounds contain the item's position.
    pub fn contains(&self, item: &T) -> (r: bool)
        ensures
            r == rect_contains(item.spec_position(), self.bounds_spec()),
    {
        let position = item.position();
        self._contains(&position, &self.bounds())
    }

    /// Inclusive containment of `point` in `boundary`: a pure function of
    /// its arguments, `rect_contains` computed exactly.
    pub fn _contains(&self, point: &Point, boundary: &Rectangle) -> (r: bool)
        ensures
            r == rect_contains(*point, *boundary),
    {
        (point.x as i64) >= (boundary.x as i64)
            && (point.x as i64) <= (boundary.x as i64) + (boundary.width as i64)
            && (point.y as i64) >= (boundary.y as i64)
            && (point.y as i64) <= (boundary.y as i64) + (boundary.height as i64)
    }

    /// Strict intersection of `rectangle` with `boundary`: a pure function
    /// of its arguments, `rect_intersects` computed exactly.
    pub fn intersects(&self, rectangle: &Rectangle, boundary: &Rectangle) -> (r: bool)
        ensures
            r == rect_intersects(*rectangle, *boundary),
    {
        (rectangle.x as i64) < (boundary.x as i64) + (boundary.width as i64)
            && (rectangle.x as i64) + (rectangle.width as i64) > (boundary.x as i64)
            && (rectangle.y as i64) < (boundary.y as i64) + (boundary.height as i64)
            && (rectangle.y as i64) + (rectangle.height as i64) > (boundary.y as i64)
    }

    /// This node's bounds.
    pub fn bounds(&self) -> (r: Rectangle)
        ensures
            r == self.bounds_spec(),
    {
        Rectangle::new(self.x, self.y, self.width, self.height)
    }

    /// The node is unchanged except for its item list.
    pub open spec fn same_but_items(pre: Self, post: Self) -> bool {
        &&& post.x == pre.x
        &&& post.y == pre.y
        &&& post.width == pre.width
        &&& post.height == pre.height
        &&& post.children == pre.children
        &&& post.options == pre.options
    }

    /// The predicate selecting, from a drained item list, the items that
    /// land in quadrant `k` of `b`: the first quadrant containing the
    /// item's position is quadrant `k`.
    pub open spec fn routes_to(b: Rectangle, k: int) -> spec_fn(T) -> bool {
        |it: T| quadrant_of(b, it.spec_position()) == Some(k)
    }

    /// The relation `put(item)` establishes between the tree before (`pre`)
    /// and after (`post`); it pins `post` down completely.
    ///
    /// - A position outside the bounds leaves the tree untouched.
    /// - A leaf below capacity — or at `max_depth`, which absorbs items
    ///   without bound and never subdivides — appends the item.
    /// - A node with children appends the item to the item list of the
    ///   first child whose bounds contain it, and drops it if none does.
    /// - A full leaf below `max_depth` splits: it gains four fresh
    ///   children, and its items (the new one last) are drained popping
    ///   from the end, each into the first quadrant containing it; items
    ///   no quadrant contains are dropped.
    pub open spec fn put_post(pre: Self, post: Self, item: T) -> bool {
        let b = pre.bounds_spec();
        if !rect_contains(item.spec_position(), b) {
            post == pre
        } else if pre.children is None && (pre.items@.len() < pre.options.max_items
            || pre.options.depth >= pre.options.max_depth) {
            &&& Self::same_but_items(pre, post)
            &&& post.items@ == pre.items@.push(item)
        } else if pre.children is None {
            &&& post.x == pre.x
            &&& post.y == pre.y
            &&& post.width == pre.width
            &&& post.height == pre.height
            &&& post.options == pre.options
            &&& post.items@ == Seq::<T>::empty()
            &&& match post.children {
                Some(ch) => {
                    &&& forall|k: int|
                        0 <= k < 4 ==> pre.child_frame_ok(#[trigger] ch.child(k), k)
                    &&& forall|k: int|
                        0 <= k < 4 ==> (#[trigger] ch.child(k)).items@ == pre.items@.push(
                            item,
                        ).reverse().filter(Self::routes_to(b, k))
                },
                None => false,
            }
        } else {
            &&& post.x == pre.x
            &&& post.y == pre.y
            &&& post.width == pre.width
            &&& post.height == pre.height
            &&& post.options == pre.options
            &&& post.items@ == pre.items@
            &&& match (pre.children, post.children) {
                (Some(pch), Some(qch)) => match pch.first_child_containing(
                    item.spec_position(),
                ) {
                    Some(k) => {
                        &&& Self::same_but_items(pch.child(k), qch.child(k))
                        &&& qch.child(k).items@ == pch.child(k).items@.push(item)
                        &&& forall|j: int|
                            0 <= j < 4 && j != k ==> #[trigger] qch.child(j) == pch.child(j)
                    },
                    None => *qch == *pch,
                },
                _ => false,
            }
        }
    }

    /// `put` keeps a well-formed tree well-formed.
    pub proof fn lemma_put_preserves_wf(pre: Self, post: Self, item: T)
        requires
            Self::put_post(pre, post, item),
            pre.wf(),
        ensures
            post.wf(),
    {
        let b = pre.bounds_spec();
        let p = item.spec_position();
        if !rect_contains(p, b) {
            // untouched
        } else if pre.children is None && (pre.items@.len() < pre.options.max_items
            || pre.options.depth >= pre.options.max_depth) {
            assert(post.bounds_spec() == b);
            assert forall|i: int| 0 <= i < post.items@.len() implies rect_contains(
                #[trigger] post.items@[i].spec_position(),
                post.bounds_spec(),
            ) by {
                if i < pre.items@.len() {
                    assert(rect_contains(pre.items@[i].spec_position(), b));
                } else {
                    assert(post.items@[i] == item);
                }
            }
        } else if pre.children is None {
            match post.children {
                Some(ch) => {
                    let drained = pre.items@.push(item).reverse();
                    assert forall|k: int| 0 <= k < 4 implies (#[trigger] ch.child(
                        k,
                    )).items_in_bounds() by {
                        let c = ch.child(k);
                        assert forall|i: int| 0 <= i < c.items@.len() implies rect_contains(
                            #[trigger] c.items@[i].spec_position(),
                            c.bounds_spec(),
                        ) by {
                            drained.lemma_filter_pred(Self::routes_to(b, k), i);
                            assert(quadrant_of(b, c.items@[i].spec_position()) == Some(k));
                            assert(quadrant_contains(b, k, c.items@[i].spec_position()));
                        }
                    }
                    assert forall|k: int| 0 <= k < 4 implies post.child_frame_ok(
                        #[trigger] ch.child(k),
                        k,
                    ) by {
                        assert(pre.child_frame_ok(ch.child(k), k));
                        assert(post.bounds_spec() == b);
                    }
                },
                None => {
                    assert(false);
                },
            }
        } else {
            match (pre.children, post.children) {
                (Some(pch), Some(qch)) => {
                    match pch.first_child_containing(p) {
                        Some(k) => {
                            assert(0 <= k < 4);
                            assert(rect_contains(p, pch.child(k).bounds_spec()));
                            assert forall|j: int| 0 <= j < 4 implies post.child_frame_ok(
                                #[trigger] qch.child(j),
                                j,
                            ) by {
                                assert(pre.child_frame_ok(pch.child(j), j));
                                assert(post.bounds_spec() == b);
                            }
                            assert forall|j: int| 0 <= j < 4 implies (#[trigger] qch.child(
                                j,
                            )).items_in_bounds() by {
                                if j == k {
                                    let c = qch.child(k);
                                    assert(c.bounds_spec() == pch.child(k).bounds_spec());
                                    assert forall|i: int|
                                        0 <= i < c.items@.len() implies rect_contains(
                                        #[trigger] c.items@[i].spec_position(),
                                        c.bounds_spec(),
                                    ) by {
                                        if i < pch.child(k).items@.len() {
                                            assert(pch.child(k).items_in_bounds());
                                            assert(rect_contains(
                                                pch.child(k).items@[i].spec_position(),
                                                pch.child(k).bounds_spec(),
                                            ));
                                        } else {
                                            assert(c.items@[i] == item);
                                        }
                                    }
                                } else {
                                    assert(qch.child(j) == pch.child(j));
                                    assert(pch.child(j).items_in_bounds());
                                }
                            }
                        },
                        None => {
                            assert(*qch == *pch);
                        },
                    }
                },
                _ => {
                    assert(false);
                },
            }
        }
    }

    /// Builds this node's four children, fresh and empty: each covers one
    /// quadrant of this node's bounds (halved extents, truncated toward
    /// zero), inherits `max_items` and `max_depth`, and sits one level
    /// deeper.
    pub fn subdivide(&self) -> (ch: Children<T>)
        requires
            split_origins_fit(self.bounds_spec()),
            self.options.depth < u8::MAX,
        ensures
            forall|k: int| 0 <= k < 4 ==> self.child_frame_ok(#[trigger] ch.child(k), k),
            forall|k: int| 0 <= k < 4 ==> (#[trigger] ch.child(k)).items@ == Seq::<T>::empty(),
    {
        let w = half(self.width);
        let h = half(self.height);
        let mid_x = self.x + w;
        let mid_y = self.y + h;
        Children {
            top_left: Quadtree::with_options(
                Rectangle::new(self.x, self.y, w, h),
                Options {
                    max_items: self.options.max_items,
                    max_depth: self.options.max_depth,
                    depth: self.options.depth + 1,
                },
            ),
            top_right: Quadtree::with_options(
                Rectangle::new(mid_x, self.y, w, h),
                Options {
                    max_items: self.options.max_items,
                    max_depth: self.options.max_depth,
                    depth: self.options.depth + 1,
                },
            ),
            bottom_right: Quadtree::with_options(
                Rectangle::new(mid_x, mid_y, w, h),
                Options {
                    max_items: self.options.max_items,
                    max_depth: self.options.max_depth,
                    depth: self.options.depth + 1,
                },
            ),
            bottom_left: Quadtree::with_options(
                Rectangle::new(self.x, mid_y, w, h),
                Options {
                    max_items: self.options.max_items,
                    max_depth: self.options.max_depth,
                    depth: self.options.depth + 1,
                },
            ),
        }
    }

    /// The values behind a sequence of references.
    pub open spec fn deref_seq(s: Seq<&T>) -> Seq<T> {
        s.map_values(|it: &T| *it)
    }

    /// Returns references to every stored item whose position the given
    /// range contains (inclusive edges). A node with children answers by
    /// concatenating its children's answers in quadrant order — after
    /// pruning: when the range does not strictly intersect the node's own
    /// bounds the answer is empty. A leaf scans its items in insertion
    /// order. Nothing is copied: the references borrow from the tree.
    pub fn query(&self, range: Rectangle) -> (found: Vec<&T>)
        ensures
            Self::deref_seq(found@) == self.query_spec(range),
        decreases self,
    {
        match &self.children {
            Some(ch) => {
                let mut found: Vec<&T> = Vec::new();
                if self.intersects(&range, &self.bounds()) {
                    let mut part0 = ch.top_left.query(range);
                    let mut part1 = ch.top_right.query(range);
                    let mut part2 = ch.bottom_right.query(range);
                    let mut part3 = ch.bottom_left.query(range);
                    let ghost g0 = part0@;
                    let ghost g1 = part1@;
                    let ghost g2 = part2@;
                    let ghost g3 = part3@;
                    found.append(&mut part0);
                    found.append(&mut part1);
                    found.append(&mut part2);
                    found.append(&mut part3);
                    proof {
                        assert(found@ =~= g0 + g1 + g2 + g3);
                        assert(Self::deref_seq(found@) =~= Self::deref_seq(g0)
                            + Self::deref_seq(g1) + Self::deref_seq(g2) + Self::deref_seq(g3));
                    }
                } else {
                    proof {
                        assert(Self::deref_seq(found@) =~= Seq::<T>::empty());
                    }
                }
                found
            },
            None => {
                let mut found: Vec<&T> = Vec::new();
                proof {
                    lemma_filter_of_empty::<T>(Self::kept_by(range));
                    assert(self.items@.take(0) =~= Seq::<T>::empty());
                    assert(Self::deref_seq(found@) =~= Seq::<T>::empty());
                }
                let mut i: usize = 0;
                while i < self.items.len()
                    invariant
                        i <= self.items@.len(),
                        Self::deref_seq(found@) == self.items@.take(i as int).filter(
                            Self::kept_by(range),
                        ),
                    decreases self.items@.len() - i,
                {
                    let it = &self.items[i];
                    let position = it.position();
                    proof {
                        lemma_filter_take_step(self.items@, i as int, Self::kept_by(range));
                        assert(Self::kept_by(range)(self.items@[i as int]) == rect_contains(
                            self.items@[i as int].spec_position(),
                            range,
                        ));
                    }
                    if self._contains(&position, &range) {
                        let ghost found_prev = found@;
                        found.push(it);
                        proof {
                            assert(Self::deref_seq(found@) =~= Self::deref_seq(
                                found_prev,
                            ).push(*it));
                        }
                    }
                    i = i + 1;
                }
                proof {
                    assert(self.items@.take(self.items@.len() as int) =~= self.items@);
                }
                found
            },
        }
    }

    /// Inserts `item`. An item whose position lies outside this node's
    /// bounds is silently discarded, not an error. A leaf below capacity
    /// — or at `max_depth`, which absorbs items without bound and never
    /// subdivides — appends it; a node with children appends it to the
    /// first child whose bounds contain it; a full leaf below `max_depth`
    /// splits first, draining its items into the fresh children.
    ///
    /// The one precondition is forced by the machine: when this call is
    /// the one that splits the node, the split quadrant origins must be
    /// representable as `i32`.
    pub fn put(&mut self, item: T)
        requires
            (old(self).children is None && old(self).items@.len() >= old(
                self,
            ).options.max_items && old(self).options.depth < old(self).options.max_depth
                && rect_contains(item.spec_position(), old(self).bounds_spec()))
                ==> split_origins_fit(old(self).bounds_spec()),
        ensures
            Self::put_post(*old(self), *final(self), item),
            !rect_contains(item.spec_position(), old(self).bounds_spec()) ==> *final(self)
                == *old(self),
            old(self).children is None && old(self).options.depth >= old(
                self,
            ).options.max_depth ==> final(self).children is None,
            old(self).wf() ==> final(self).wf(),
    {
        if !self.contains(&item) {
            return;
        }
        if self.children.is_none() {
            if self.items.len() < self.options.max_items || self.options.depth
                >= self.options.max_depth {
                self.items.push(item);
                proof {
                    if old(self).wf() {
                        Self::lemma_put_preserves_wf(*old(self), *self, item);
                    }
                }
                return;
            }
            // First overflow: keep the item, build the four children, then
            // drain every item, popping from the end, into the first child
            // that contains it.
            self.items.push(item);
            let ghost drained: Seq<T> = self.items@;
            let ghost popped: Seq<T> = drained.reverse();
            let ghost b = self.bounds_spec();
            let mut ch = self.subdivide();
            proof {
                assert(drained.take(drained.len() as int) =~= drained);
                lemma_filter_of_empty::<T>(Self::routes_to(b, 0));
                lemma_filter_of_empty::<T>(Self::routes_to(b, 1));
                lemma_filter_of_empty::<T>(Self::routes_to(b, 2));
                lemma_filter_of_empty::<T>(Self::routes_to(b, 3));
                assert(popped.take(0) =~= Seq::<T>::empty());
            }
            while self.items.len() > 0
                invariant
                    self.x == old(self).x,
                    self.y == old(self).y,
                    self.width == old(self).width,
                    self.height == old(self).height,
                    self.options == old(self).options,
                    self.children is None,
                    b == old(self).bounds_spec(),
                    drained == old(self).items@.push(item),
                    popped == drained.reverse(),
                    self.items@.len() <= drained.len(),
                    self.items@ == drained.take(self.items@.len() as int),
                    forall|k: int|
                        0 <= k < 4 ==> old(self).child_frame_ok(#[trigger] ch.child(k), k),
                    forall|k: int|
                        0 <= k < 4 ==> (#[trigger] ch.child(k)).items@ == popped.take(
                            popped.len() - self.items@.len(),
                        ).filter(Self::routes_to(b, k)),
                decreases self.items@.len(),
            {
                let ghost m = self.items@.len() as int;
                let ghost n = drained.len() as int;
                let it = self.items.pop().unwrap();
                proof {
                    assert(drained.take(m).subrange(0, m - 1) =~= drained.take(m - 1));
                    assert(it == drained[m - 1]);
                    assert(popped[n - m] == drained[m - 1]);
                }
                let ghost ch_before = ch;
                if ch.top_left.contains(&it) {
                    ch.top_left.items.push(it);
                } else if ch.top_right.contains(&it) {
                    ch.top_right.items.push(it);
                } else if ch.bottom_right.contains(&it) {
                    ch.bottom_right.items.push(it);
                } else if ch.bottom_left.contains(&it) {
                    ch.bottom_left.items.push(it);
                }
                proof {
                    let pos = drained[m - 1].spec_position();
                    let t = n - m;
                    assert(old(self).child_frame_ok(ch_before.child(0), 0));
                    assert(old(self).child_frame_ok(ch_before.child(1), 1));
                    assert(old(self).child_frame_ok(ch_before.child(2), 2));
                    assert(old(self).child_frame_ok(ch_before.child(3), 3));
                    assert(ch_before.child(0).items@ == popped.take(t).filter(
                        Self::routes_to(b, 0),
                    ));
                    assert(ch_before.child(1).items@ == popped.take(t).filter(
                        Self::routes_to(b, 1),
                    ));
                    assert(ch_before.child(2).items@ == popped.take(t).filter(
                        Self::routes_to(b, 2),
                    ));
                    assert(ch_before.child(3).items@ == popped.take(t).filter(
                        Self::routes_to(b, 3),
                    ));
                    lemma_filter_take_step(popped, t, Self::routes_to(b, 0));
                    lemma_filter_take_step(popped, t, Self::routes_to(b, 1));
                    lemma_filter_take_step(popped, t, Self::routes_to(b, 2));
                    lemma_filter_take_step(popped, t, Self::routes_to(b, 3));
                    assert(Self::routes_to(b, 0)(popped[t]) == (quadrant_of(b, pos) == Some(
                        0int,
                    )));
                    assert(Self::routes_to(b, 1)(popped[t]) == (quadrant_of(b, pos) == Some(
                        1int,
                    )));
                    assert(Self::routes_to(b, 2)(popped[t]) == (quadrant_of(b, pos) == Some(
                        2int,
                    )));
                    assert(Self::routes_to(b, 3)(popped[t]) == (quadrant_of(b, pos) == Some(
                        3int,
                    )));
                    assert(old(self).child_frame_ok(ch.child(0), 0));
                    assert(old(self).child_frame_ok(ch.child(1), 1));
                    assert(old(self).child_frame_ok(ch.child(2), 2));
                    assert(old(self).child_frame_ok(ch.child(3), 3));
                    assert(ch.child(0).items@ == popped.take(t + 1).filter(
                        Self::routes_to(b, 0),
                    ));
                    assert(ch.child(1).items@ == popped.take(t + 1).filter(
                        Self::routes_to(b, 1),
                    ));
                    assert(ch.child(2).items@ == popped.take(t + 1).filter(
                        Self::routes_to(b, 2),
                    ));
                    assert(ch.child(3).items@ == popped.take(t + 1).filter(
                        Self::routes_to(b, 3),
                    ));
                }
            }
            proof {
                assert(self.items@ =~= Seq::<T>::empty());
                assert(popped.take(popped.len() as int) =~= popped);
            }
            self.children = Some(Box::new(ch));
            proof {
                assert(Self::put_post(*old(self), *self, item));
                if old(self).wf() {
                    Self::lemma_put_preserves_wf(*old(self), *self, item);
                }
            }
            return;
        }
        match &mut self.children {
            Some(ch) => {
                if ch.top_left.contains(&item) {
                    ch.top_left.items.push(item);
                } else if ch.top_right.contains(&item) {
                    ch.top_right.items.push(item);
                } else if ch.bottom_right.contains(&item) {
                    ch.bottom_right.items.push(item);
                } else if ch.bottom_left.contains(&item) {
                    ch.bottom_left.items.push(item);
                }
            },
            None => {
                proof {
                    assert(false);
                }
            },
        }
        proof {
            if old(self).wf() {
                Self::lemma_put_preserves_wf(*old(self), *self, item);
            }
        }
    }

    /// Law: in a well-formed tree that has split, the children's bounds
    /// exactly partition the parent's bounds: every point of the parent's
    /// half-open area lies in some child's half-open cell (no gaps), and
    /// in no more than one (no overlaps). The extents must be even and
    /// nonnegative, since halving truncates.
    pub proof fn lemma_children_partition_bounds(self, p: Point)
        requires
            self.wf(),
            self.children is Some,
            self.width >= 0,
            self.height >= 0,
            self.width % 2 == 0,
            self.height % 2 == 0,
        ensures
            match self.children {
                Some(ch) => {
                    &&& (self.in_cell(p) <==> exists|k: int|
                        0 <= k < 4 && (#[trigger] ch.child(k)).in_cell(p))
                    &&& forall|k1: int, k2: int|
                        0 <= k1 < 4 && 0 <= k2 < 4 && ch.child(k1).in_cell(p) && ch.child(
                            k2,
                        ).in_cell(p) ==> k1 == k2
                },
                None => true,
            },
    {
        let b = self.bounds_spec();
        lemma_quadrants_partition(b, p);
        match self.children {
            Some(ch) => {
                assert forall|k: int| 0 <= k < 4 implies ((#[trigger] ch.child(k)).in_cell(p)
                    == in_quadrant_cell(b, k, p)) by {
                    assert(self.child_frame_ok(ch.child(k), k));
                }
                if self.in_cell(p) {
                    let k = choose|k: int| 0 <= k < 4 && in_quadrant_cell(b, k, p);
                    assert(ch.child(k).in_cell(p));
                }
                if exists|k: int| 0 <= k < 4 && (#[trigger] ch.child(k)).in_cell(p) {
                    let k = choose|k: int| 0 <= k < 4 && (#[trigger] ch.child(k)).in_cell(p);
                    assert(in_quadrant_cell(b, k, p));
                }
            },
            None => {},
        }
    }

    /// Query over the parent's bounds keeps everything a well-formed leaf
    /// child holds: the child's items lie in its quadrant, which lies in
    /// the parent's bounds.
    proof fn lemma_leaf_child_full_query(parent: Self, c: Self, k: int)
        requires
            0 <= k < 4,
            parent.child_frame_ok(c, k),
            c.items_in_bounds(),
            parent.width >= 0,
            parent.height >= 0,
        ensures
            c.query_spec(parent.bounds_spec()) == c.items@,
            c.all_items() == c.items@,
    {
        let b = parent.bounds_spec();
        assert forall|i: int| 0 <= i < c.items@.len() implies Self::kept_by(b)(
            #[trigger] c.items@[i],
        ) by {
            let pos = c.items@[i].spec_position();
            assert(rect_contains(pos, c.bounds_spec()));
            assert(quadrant_contains(b, k, pos));
            lemma_quadrant_within(b, k, pos);
        }
        lemma_filter_keeps_all(c.items@, Self::kept_by(b));
    }

    /// Law: a query over a range equal to the full bounds of a
    /// well-formed tree with positive extents returns every item stored
    /// in the tree, in storage order — no item is silently dropped.
    pub proof fn lemma_query_full_bounds_complete(self)
        requires
            self.wf(),
            self.width > 0,
            self.height > 0,
        ensures
            self.query_spec(self.bounds_spec()) == self.all_items(),
    {
        let b = self.bounds_spec();
        match self.children {
            None => {
                assert forall|i: int| 0 <= i < self.items@.len() implies Self::kept_by(b)(
                    #[trigger] self.items@[i],
                ) by {
                    assert(rect_contains(self.items@[i].spec_position(), b));
                }
                lemma_filter_keeps_all(self.items@, Self::kept_by(b));
            },
            Some(ch) => {
                assert(rect_intersects(b, b));
                assert(self.child_frame_ok(ch.child(0), 0));
                assert(self.child_frame_ok(ch.child(1), 1));
                assert(self.child_frame_ok(ch.child(2), 2));
                assert(self.child_frame_ok(ch.child(3), 3));
                Self::lemma_leaf_child_full_query(self, ch.child(0), 0);
                Self::lemma_leaf_child_full_query(self, ch.child(1), 1);
                Self::lemma_leaf_child_full_query(self, ch.child(2), 2);
                Self::lemma_leaf_child_full_query(self, ch.child(3), 3);
                assert(self.query_spec(b) =~= self.all_items());
            },
        }
    }

    /// Law: after `put` of an item whose position lies strictly inside a
    /// well-formed tree's bounds, every query whose range contains that
    /// position returns the item.
    pub proof fn lemma_put_finds_inserted_item(pre: Self, post: Self, item: T, range: Rectangle)
        requires
            pre.wf(),
            Self::put_post(pre, post, item),
            strictly_inside(item.spec_position(), pre.bounds_spec()),
            rect_contains(item.spec_position(), range),
        ensures
            post.query_spec(range).contains(item),
    {
        let b = pre.bounds_spec();
        let p = item.spec_position();
        assert(rect_contains(p, b));
        assert(Self::kept_by(range)(item));
        lemma_containing_range_intersects(range, p, b);
        if pre.children is None && (pre.items@.len() < pre.options.max_items
            || pre.options.depth >= pre.options.max_depth) {
            assert(post.children is None);
            assert(post.items@[post.items@.len() - 1] == item);
            post.items@.lemma_filter_contains(Self::kept_by(range), post.items@.len() - 1);
        } else if pre.children is None {
            match post.children {
                Some(ch) => {
                    lemma_strictly_inside_lands(b, p);
                    match quadrant_of(b, p) {
                        Some(k) => {
                            let drained = pre.items@.push(item);
                            let popped = drained.reverse();
                            assert(popped[0] == item);
                            assert(Self::routes_to(b, k)(item));
                            popped.lemma_filter_contains(Self::routes_to(b, k), 0);
                            let c = ch.child(k);
                            assert(c.items@.contains(item));
                            assert(c.children is None);
                            let i = choose|i: int|
                                0 <= i < c.items@.len() && c.items@[i] == item;
                            c.items@.lemma_filter_contains(Self::kept_by(range), i);
                            assert(c.query_spec(range).contains(item));
                            assert(rect_intersects(range, post.bounds_spec()));
                            lemma_contains_in_concat4(
                                ch.child(0).query_spec(range),
                                ch.child(1).query_spec(range),
                                ch.child(2).query_spec(range),
                                ch.child(3).query_spec(range),
                                item,
                                k,
                            );
                        },
                        None => {
                            assert(false);
                        },
                    }
                },
                None => {
                    assert(false);
                },
            }
        } else {
            match (pre.children, post.children) {
                (Some(pch), Some(qch)) => {
                    lemma_strictly_inside_lands(b, p);
                    assert(pre.child_frame_ok(pch.child(0), 0));
                    assert(pre.child_frame_ok(pch.child(1), 1));
                    assert(pre.child_frame_ok(pch.child(2), 2));
                    assert(pre.child_frame_ok(pch.child(3), 3));
                    assert(rect_contains(p, pch.child(0).bounds_spec()) == quadrant_contains(
                        b,
                        0,
                        p,
                    ));
                    assert(rect_contains(p, pch.child(1).bounds_spec()) == quadrant_contains(
                        b,
                        1,
                        p,
                    ));
                    assert(rect_contains(p, pch.child(2).bounds_spec()) == quadrant_contains(
                        b,
                        2,
                        p,
                    ));
                    assert(rect_contains(p, pch.child(3).bounds_spec()) == quadrant_contains(
                        b,
                        3,
                        p,
                    ));
                    assert(pch.first_child_containing(p) == quadrant_of(b, p));
                    match pch.first_child_containing(p) {
                        Some(k) => {
                            let c = qch.child(k);
                            assert(c.items@ == pch.child(k).items@.push(item));
                            assert(c.items@[c.items@.len() - 1] == item);
                            c.items@.lemma_filter_contains(
                                Self::kept_by(range),
                                c.items@.len() - 1,
                            );
                            assert(c.children is None);
                            assert(c.query_spec(range).contains(item));
                            assert(rect_intersects(range, post.bounds_spec()));
                            lemma_contains_in_concat4(
                                qch.child(0).query_spec(range),
                                qch.child(1).query_spec(range),
                                qch.child(2).query_spec(range),
                                qch.child(3).query_spec(range),
                                item,
                                k,
                            );
                        },
                        None => {
                            assert(false);
                        },
                    }
                },
                _ => {
                    assert(false);
                },
            }
        }
    }
}

} // verus!
