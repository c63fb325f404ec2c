use vstd::prelude::*;
use vstd::seq_lib::*;
use crate::aabb::{
    Aabb, box_hull, box_encloses, box_bounds_are_numbers, lemma_box_hull_idempotent,
    lemma_box_hull_encloses, lemma_box_encloses_transitive,
};
use crate::util::random_int_range;

verus! {

broadcast use vstd::seq_lib::group_to_multiset_ensures;

/// Where one object's box stands against another's along an axis, by the
/// lower bounds of their boxes.
#[derive(Clone, Copy, Debug, PartialEq, Eq, Structural)]
pub enum KeyOrder {
    Less,
    Equal,
    Greater,
}

/// The position, on axis `axis`, of the lower bound of the box of object `id`.
pub open spec fn min_key(boxes: Seq<Aabb>, id: usize, axis: int) -> int {
    boxes[id as int].axis_spec(axis).min.key()
}

/// Object `id` has a box, and the lower bounds of that box are numbers on
/// every axis (so that objects can be ordered along any axis).
pub open spec fn orderable(boxes: Seq<Aabb>, id: usize) -> bool {
    &&& id < boxes.len()
    &&& !boxes[id as int].x.min.nan()
    &&& !boxes[id as int].y.min.nan()
    &&& !boxes[id as int].z.min.nan()
}

/// Every object of `s` has a box.
pub open spec fn all_have_boxes(boxes: Seq<Aabb>, s: Seq<usize>) -> bool {
    forall|id: usize| #[trigger] s.contains(id) ==> id < boxes.len()
}

/// Object `id` has a box whose lower bound on axis `axis` is a number.
pub open spec fn orderable_on(boxes: Seq<Aabb>, id: usize, axis: int) -> bool {
    id < boxes.len() && !boxes[id as int].axis_spec(axis).min.nan()
}

/// Every object of `s` is orderable on axis `axis`.
pub open spec fn all_orderable_on(boxes: Seq<Aabb>, s: Seq<usize>, axis: int) -> bool {
    forall|id: usize| #[trigger] s.contains(id) ==> orderable_on(boxes, id, axis)
}

/// Every object of `s` is orderable.
pub open spec fn all_orderable(boxes: Seq<Aabb>, s: Seq<usize>) -> bool {
    forall|id: usize| #[trigger] s.contains(id) ==> orderable(boxes, id)
}

/// `s` is in non-decreasing order of the lower bounds on `axis`.
pub open spec fn sorted_on(boxes: Seq<Aabb>, s: Seq<usize>, axis: int) -> bool {
    forall|i: int, j: int|
        0 <= i <= j < s.len() ==> min_key(boxes, #[trigger] s[i], axis) <= min_key(
            boxes,
            #[trigger] s[j],
            axis,
        )
}

/// The objects whose lower bound on `axis` sits at `k`.
pub open spec fn with_key(boxes: Seq<Aabb>, axis: int, k: int) -> spec_fn(usize) -> bool {
    |id: usize| min_key(boxes, id, axis) == k
}

/// `out` keeps the relative order that objects with equal keys had in `inp`.
pub open spec fn keeps_ties(boxes: Seq<Aabb>, axis: int, out: Seq<usize>, inp: Seq<usize>) -> bool {
    forall|k: int| #[trigger]
        out.filter(with_key(boxes, axis, k)) == inp.filter(with_key(boxes, axis, k))
}

/// `out` is the stable sort of `inp` by the lower bounds on `axis`.
pub open spec fn stable_sort_of(boxes: Seq<Aabb>, axis: int, out: Seq<usize>, inp: Seq<usize>) -> bool {
    &&& sorted_on(boxes, out, axis)
    &&& keeps_ties(boxes, axis, out, inp)
    &&& out.to_multiset() == inp.to_multiset()
}

proof fn lemma_filter_single(x: usize, p: spec_fn(usize) -> bool)
    ensures
        seq![x].filter(p) == (if p(x) { seq![x] } else { Seq::<usize>::empty() }),
{
    reveal_with_fuel(Seq::filter, 2);
    assert(seq![x].drop_last() =~= Seq::<usize>::empty());
}

proof fn lemma_filter_none(s: Seq<usize>, p: spec_fn(usize) -> bool)
    requires
        forall|i: int| 0 <= i < s.len() ==> !p(#[trigger] s[i]),
    ensures
        s.filter(p) == Seq::<usize>::empty(),
{
    s.lemma_all_neg_filter_empty(p);
    assert(s.filter(p) =~= Seq::<usize>::empty());
}

/// One insertion step: a sorted prefix `a + b` whose part `a` is at most the
/// key of `x` and whose part `b` is above it takes `x` between the two parts.
proof fn lemma_insert_step(
    boxes: Seq<Aabb>,
    axis: int,
    a: Seq<usize>,
    b: Seq<usize>,
    x: usize,
    inp: Seq<usize>,
)
    requires
        stable_sort_of(boxes, axis, a + b, inp),
        forall|i: int| 0 <= i < a.len() ==> min_key(boxes, #[trigger] a[i], axis) <= min_key(boxes, x, axis),
        forall|i: int| 0 <= i < b.len() ==> min_key(boxes, x, axis) < min_key(boxes, #[trigger] b[i], axis),
    ensures
        stable_sort_of(boxes, axis, a + seq![x] + b, inp.push(x)),
{
    let out = a + seq![x] + b;
    let p = a + b;
    assert forall|i: int, j: int| 0 <= i <= j < out.len() implies min_key(boxes, #[trigger] out[i], axis)
        <= min_key(boxes, #[trigger] out[j], axis) by {
        if i < a.len() && j < a.len() {
            assert(out[i] == p[i] && out[j] == p[j]);
        } else if i > a.len() && j > a.len() {
            assert(out[i] == p[i - 1] && out[j] == p[j - 1]);
        } else if i < a.len() && j > a.len() {
            assert(out[i] == a[i]);
            assert(out[j] == b[j - a.len() - 1]);
        } else if i == a.len() && j > a.len() {
            assert(out[j] == b[j - a.len() - 1]);
        } else if i < a.len() && j == a.len() {
            assert(out[i] == a[i]);
        }
    }
    assert forall|k: int| #[trigger] out.filter(with_key(boxes, axis, k)) == inp.push(x).filter(
        with_key(boxes, axis, k),
    ) by {
        let f = with_key(boxes, axis, k);
        Seq::filter_distributes_over_add(a + seq![x], b, f);
        Seq::filter_distributes_over_add(a, seq![x], f);
        Seq::filter_distributes_over_add(a, b, f);
        Seq::filter_distributes_over_add(inp, seq![x], f);
        assert(inp.push(x) =~= inp + seq![x]);
        lemma_filter_single(x, f);
        assert(p.filter(f) == inp.filter(f));
        if f(x) {
            assert forall|i: int| 0 <= i < b.len() implies !f(#[trigger] b[i]) by {}
            lemma_filter_none(b, f);
            assert(b.filter(f) + Seq::<usize>::empty() =~= b.filter(f));
            assert(a.filter(f) + Seq::<usize>::empty() =~= a.filter(f));
        } else {
            assert(a.filter(f) + Seq::<usize>::empty() =~= a.filter(f));
            assert(inp.filter(f) + Seq::<usize>::empty() =~= inp.filter(f));
        }
    }
    lemma_multiset_commutative(a + seq![x], b);
    lemma_multiset_commutative(a, seq![x]);
    lemma_multiset_commutative(a, b);
    lemma_multiset_commutative(inp, seq![x]);
    assert(inp.push(x) =~= inp + seq![x]);
    assert(out.to_multiset() =~= inp.push(x).to_multiset());
}

/// Two sequences sorted on one axis whose objects of each key come in the
/// same order are equal.
proof fn lemma_sorted_same_ties_equal(boxes: Seq<Aabb>, axis: int, s: Seq<usize>, t: Seq<usize>)
    requires
        sorted_on(boxes, s, axis),
        sorted_on(boxes, t, axis),
        forall|k: int| #[trigger]
            s.filter(with_key(boxes, axis, k)) == t.filter(with_key(boxes, axis, k)),
    ensures
        s == t,
    decreases s.len(),
{
    reveal_with_fuel(Seq::filter, 1);
    if s.len() == 0 {
        if t.len() > 0 {
            let f = with_key(boxes, axis, min_key(boxes, t[0], axis));
            t.lemma_filter_contains(f, 0);
            assert(s.filter(f) == t.filter(f));
            assert(s.filter(f).len() == 0);
        }
        assert(s =~= t);
    } else {
        let x = s.last();
        let kx = min_key(boxes, x, axis);
        let fx = with_key(boxes, axis, kx);
        assert(s.filter(fx) == s.drop_last().filter(fx).push(x));
        assert(s.filter(fx) == t.filter(fx));
        if t.len() == 0 {
            assert(t.filter(fx).len() == 0);
        }
        let y = t.last();
        let ky = min_key(boxes, y, axis);
        let fy = with_key(boxes, axis, ky);
        assert(t.filter(fx)[t.filter(fx).len() - 1] == x);
        assert(t.filter(fx).contains(x));
        t.lemma_filter_contains_rev(fx, x);
        let p = choose|p: int| 0 <= p < t.len() && t[p] == x;
        assert(min_key(boxes, t[p], axis) <= min_key(boxes, t[t.len() - 1], axis));
        assert(t.filter(fy) == t.drop_last().filter(fy).push(y));
        assert(s.filter(fy) == t.filter(fy));
        assert(s.filter(fy)[s.filter(fy).len() - 1] == y);
        assert(s.filter(fy).contains(y));
        s.lemma_filter_contains_rev(fy, y);
        let q = choose|q: int| 0 <= q < s.len() && s[q] == y;
        assert(min_key(boxes, s[q], axis) <= min_key(boxes, s[s.len() - 1], axis));
        assert(kx == ky);
        assert(x == y);
        let s2 = s.drop_last();
        let t2 = t.drop_last();
        assert forall|k: int| #[trigger]
            s2.filter(with_key(boxes, axis, k)) == t2.filter(with_key(boxes, axis, k)) by {
            let f = with_key(boxes, axis, k);
            assert(s.filter(f) == t.filter(f));
            if k == kx {
                assert(s2.filter(f) =~= s.filter(f).drop_last());
                assert(t2.filter(f) =~= t.filter(f).drop_last());
            }
        }
        assert forall|i: int, j: int| 0 <= i <= j < s2.len() implies min_key(boxes, #[trigger] s2[i], axis)
            <= min_key(boxes, #[trigger] s2[j], axis) by {
            assert(s2[i] == s[i] && s2[j] == s[j]);
        }
        assert forall|i: int, j: int| 0 <= i <= j < t2.len() implies min_key(boxes, #[trigger] t2[i], axis)
            <= min_key(boxes, #[trigger] t2[j], axis) by {
            assert(t2[i] == t[i] && t2[j] == t[j]);
        }
        lemma_sorted_same_ties_equal(boxes, axis, s2, t2);
        assert(s =~= s2.push(x));
        assert(t =~= t2.push(y));
    }
}

/// The stable sort is unique: two stable sorts of one sequence along one
/// axis are the same sequence, and a sequence already in order is its own
/// stable sort (so `sort_span` leaves an ordered range as it was).
pub proof fn lemma_stable_sort_unique(boxes: Seq<Aabb>, axis: int, s: Seq<usize>, t: Seq<usize>, inp: Seq<usize>)
    requires
        stable_sort_of(boxes, axis, s, inp),
        stable_sort_of(boxes, axis, t, inp),
    ensures
        s == t,
        sorted_on(boxes, inp, axis) ==> s == inp,
{
    assert forall|k: int| #[trigger]
        s.filter(with_key(boxes, axis, k)) == t.filter(with_key(boxes, axis, k)) by {
        assert(s.filter(with_key(boxes, axis, k)) == inp.filter(with_key(boxes, axis, k)));
        assert(t.filter(with_key(boxes, axis, k)) == inp.filter(with_key(boxes, axis, k)));
    }
    lemma_sorted_same_ties_equal(boxes, axis, s, t);
    if sorted_on(boxes, inp, axis) {
        assert forall|k: int| #[trigger]
            s.filter(with_key(boxes, axis, k)) == inp.filter(with_key(boxes, axis, k)) by {}
        lemma_sorted_same_ties_equal(boxes, axis, s, inp);
    }
}

/// What a stable sort along `axis` gives: the same objects, each as often,
/// in non-decreasing order of the lower bounds of their boxes on that axis.
pub proof fn lemma_stable_sort_orders(boxes: Seq<Aabb>, axis: int, out: Seq<usize>, inp: Seq<usize>)
    requires
        stable_sort_of(boxes, axis, out, inp),
    ensures
        out.len() == inp.len(),
        forall|id: usize| out.to_multiset().count(id) == inp.to_multiset().count(id),
        forall|i: int, j: int|
            0 <= i <= j < out.len() ==> boxes[#[trigger] out[i] as int].axis_spec(axis).min.key()
                <= boxes[#[trigger] out[j] as int].axis_spec(axis).min.key(),
{
    assert(out.len() == out.to_multiset().len());
    assert(inp.len() == inp.to_multiset().len());
    assert forall|i: int, j: int| 0 <= i <= j < out.len() implies boxes[#[trigger] out[i] as int].axis_spec(
        axis,
    ).min.key() <= boxes[#[trigger] out[j] as int].axis_spec(axis).min.key() by {
        assert(min_key(boxes, out[i], axis) <= min_key(boxes, out[j], axis));
    }
}

/// The result of comparing `a` and `b` by the lower bounds of their boxes on
/// axis `axis`.
pub open spec fn key_order(boxes: Seq<Aabb>, a: usize, b: usize, axis: int) -> KeyOrder {
    if min_key(boxes, a, axis) < min_key(boxes, b, axis) {
        KeyOrder::Less
    } else if min_key(boxes, b, axis) < min_key(boxes, a, axis) {
        KeyOrder::Greater
    } else {
        KeyOrder::Equal
    }
}

/// Compares objects `a` and `b` by the lower bounds of their boxes on axis
/// `axis_index`. Both bounds must be numbers.
pub fn box_compare(boxes: &Vec<Aabb>, a: usize, b: usize, axis_index: usize) -> (r: KeyOrder)
    requires
        orderable_on(boxes@, a, axis_index as int),
        orderable_on(boxes@, b, axis_index as int),
    ensures
        r == key_order(boxes@, a, b, axis_index as int),
{
    let am = boxes[a].axis(axis_index).min;
    let bm = boxes[b].axis(axis_index).min;
    if am.lt(bm) {
        KeyOrder::Less
    } else if bm.lt(am) {
        KeyOrder::Greater
    } else {
        KeyOrder::Equal
    }
}

/// `box_compare` on the x axis.
pub fn box_x_compare(boxes: &Vec<Aabb>, a: usize, b: usize) -> (r: KeyOrder)
    requires
        orderable_on(boxes@, a, 0),
        orderable_on(boxes@, b, 0),
    ensures
        r == key_order(boxes@, a, b, 0),
{
    box_compare(boxes, a, b, 0)
}

/// `box_compare` on the y axis.
pub fn box_y_compare(boxes: &Vec<Aabb>, a: usize, b: usize) -> (r: KeyOrder)
    requires
        orderable_on(boxes@, a, 1),
        orderable_on(boxes@, b, 1),
    ensures
        r == key_order(boxes@, a, b, 1),
{
    box_compare(boxes, a, b, 1)
}

/// `box_compare` on the z axis.
pub fn box_z_compare(boxes: &Vec<Aabb>, a: usize, b: usize) -> (r: KeyOrder)
    requires
        orderable_on(boxes@, a, 2),
        orderable_on(boxes@, b, 2),
    ensures
        r == key_order(boxes@, a, b, 2),
{
    box_compare(boxes, a, b, 2)
}

/// The comparator of axis `axis`: 0 is x, 1 is y, any other is z.
fn comparator(boxes: &Vec<Aabb>, a: usize, b: usize, axis: usize) -> (r: KeyOrder)
    requires
        orderable_on(boxes@, a, axis as int),
        orderable_on(boxes@, b, axis as int),
        axis < 3,
    ensures
        r == key_order(boxes@, a, b, axis as int),
{
    match axis {
        0 => box_x_compare(boxes, a, b),
        1 => box_y_compare(boxes, a, b),
        _ => box_z_compare(boxes, a, b),
    }
}

/// Sorts `objects[start..end]` stably by the lower bounds of the objects'
/// boxes on axis `axis`, and leaves the rest of `objects` as it was.
pub fn sort_span(objects: &mut Vec<usize>, start: usize, end: usize, boxes: &Vec<Aabb>, axis: usize)
    requires
        start <= end <= old(objects).len(),
        axis < 3,
        all_orderable_on(boxes@, old(objects)@.subrange(start as int, end as int), axis as int),
    ensures
        final(objects).len() == old(objects).len(),
        forall|m: int|
            0 <= m < old(objects).len() && !(start <= m < end) ==> final(objects)@[m] == old(
                objects,
            )@[m],
        stable_sort_of(
            boxes@,
            axis as int,
            final(objects)@.subrange(start as int, end as int),
            old(objects)@.subrange(start as int, end as int),
        ),
{
    let ghost orig = objects@;
    if end - start < 2 {
        proof {
            let s = objects@.subrange(start as int, end as int);
            assert(sorted_on(boxes@, s, axis as int));
        }
        return;
    }
    assert forall|m: int| start <= m < end implies orderable_on(boxes@, #[trigger] orig[m], axis as int) by {
        assert(orig.subrange(start as int, end as int)[m - start] == orig[m]);
        assert(orig.subrange(start as int, end as int).contains(orig[m]));
    }
    proof {
        let s = objects@.subrange(start as int, start + 1);
        assert(sorted_on(boxes@, s, axis as int));
    }
    let mut i: usize = start + 1;
    while i < end
        invariant
            start < i <= end,
            end <= objects.len(),
            objects.len() == orig.len(),
            axis < 3,
            forall|m: int| 0 <= m < orig.len() && !(start <= m < i) ==> objects@[m] == orig[m],
            forall|m: int| start <= m < end ==> orderable_on(boxes@, #[trigger] objects@[m], axis as int),
            stable_sort_of(
                boxes@,
                axis as int,
                objects@.subrange(start as int, i as int),
                orig.subrange(start as int, i as int),
            ),
        decreases end - i,
    {
        let x = objects[i];
        let ghost s0 = objects@;
        let mut j: usize = i;
        while j > start && comparator(boxes, x, objects[j - 1], axis) == KeyOrder::Less
            invariant
                start <= j <= i < end,
                end <= objects.len(),
                objects.len() == s0.len(),
                axis < 3,
                x == s0[i as int],
                orderable_on(boxes@, x, axis as int),
                forall|m: int| 0 <= m < s0.len() && (m < j || m > i) ==> objects@[m] == s0[m],
                forall|m: int| j < m <= i ==> objects@[m] == s0[m - 1],
                forall|m: int| j < m <= i ==> min_key(boxes@, x, axis as int) < min_key(
                    boxes@,
                    #[trigger] objects@[m],
                    axis as int,
                ),
                forall|m: int| start <= m < end ==> orderable_on(boxes@, #[trigger] objects@[m], axis as int),
            decreases j,
        {
            let prev = objects[j - 1];
            objects.set(j, prev);
            j = j - 1;
        }
        objects.set(j, x);
        proof {
            let a = s0.subrange(start as int, j as int);
            let b = s0.subrange(j as int, i as int);
            assert(s0.subrange(start as int, i as int) =~= a + b);
            assert forall|q: int| 0 <= q < a.len() implies min_key(boxes@, #[trigger] a[q], axis as int)
                <= min_key(boxes@, x, axis as int) by {
                if j > start {
                    assert(sorted_on(boxes@, s0.subrange(start as int, i as int), axis as int));
                    assert(s0.subrange(start as int, i as int)[q] == a[q]);
                    assert(s0.subrange(start as int, i as int)[j - 1 - start] == s0[j - 1]);
                }
            }
            assert forall|q: int| 0 <= q < b.len() implies min_key(boxes@, x, axis as int) < min_key(
                boxes@,
                #[trigger] b[q],
                axis as int,
            ) by {
                assert(objects@[j + q + 1] == s0[j + q]);
            }
            assert(orig[i as int] == x);
            assert(orig.subrange(start as int, i + 1) =~= orig.subrange(start as int, i as int).push(x));
            lemma_insert_step(boxes@, axis as int, a, b, x, orig.subrange(start as int, i as int));
            assert(objects@.subrange(start as int, i + 1) =~= a + seq![x] + b);
        }
        i = i + 1;
    }
}

/// A child of a tree node: an object of the scene, by its index, or a subtree.
pub enum BvhChild {
    Object(usize),
    Node(Box<BvhNode>),
}

/// A node of a bounding volume hierarchy: two children and a box around both.
pub struct BvhNode {
    pub left: BvhChild,
    pub right: BvhChild,
    pub bbox: Aabb,
}

/// The objects under a child, from left to right.
pub open spec fn child_span(c: BvhChild) -> Seq<usize>
    decreases c,
{
    match c {
        BvhChild::Object(id) => seq![id],
        BvhChild::Node(n) => n.span(),
    }
}

/// The box of a child: an object's own box, or the box kept by a subtree.
pub open spec fn child_box(c: BvhChild, boxes: Seq<Aabb>) -> Aabb {
    match c {
        BvhChild::Object(id) => boxes[id as int],
        BvhChild::Node(n) => n.bbox,
    }
}

/// An object child has a box; a subtree child is well formed.
pub open spec fn child_well_formed(c: BvhChild, boxes: Seq<Aabb>) -> bool
    decreases c,
{
    match c {
        BvhChild::Object(id) => id < boxes.len(),
        BvhChild::Node(n) => n.well_formed(boxes),
    }
}

/// Every object of `l` lies, on axis `axis`, at or before every object of `r`
/// (by the lower bounds of their boxes).
pub open spec fn split_on(boxes: Seq<Aabb>, l: Seq<usize>, r: Seq<usize>, axis: int) -> bool {
    forall|i: int, j: int|
        0 <= i < l.len() && 0 <= j < r.len() ==> min_key(boxes, #[trigger] l[i], axis) <= min_key(
            boxes,
            #[trigger] r[j],
            axis,
        )
}

impl BvhNode {
    /// A node over a single object, which stands as both children.
    pub open spec fn single(self) -> bool {
        self.left is Object && self.left == self.right
    }

    /// The objects under the node, from left to right; a single-object node
    /// counts its object once.
    pub open spec fn span(self) -> Seq<usize>
        decreases self,
    {
        if self.single() {
            child_span(self.left)
        } else {
            child_span(self.left) + child_span(self.right)
        }
    }

    /// The hierarchy invariant: every object has a box, each node's box is
    /// the hull of its children's boxes, each split halves the objects (the
    /// left side takes the smaller half), a node over two objects holds them
    /// directly while a node over three or more has a subtree on each side,
    /// and the objects on the left of each node lie at or before those on
    /// the right along one of the three axes.
    pub open spec fn well_formed(self, boxes: Seq<Aabb>) -> bool
        decreases self,
    {
        &&& child_well_formed(self.left, boxes)
        &&& child_well_formed(self.right, boxes)
        &&& self.bbox == box_hull(child_box(self.left, boxes), child_box(self.right, boxes))
        &&& !self.single() ==> child_span(self.left).len() == self.span().len() / 2
        &&& self.span().len() == 2 ==> self.left is Object && self.right is Object
        &&& self.span().len() >= 3 ==> self.left is Node && self.right is Node
        &&& exists|a: int|
            0 <= a < 3 && #[trigger] split_on(boxes, child_span(self.left), child_span(self.right), a)
    }

    /// The box around everything under the node.
    pub fn bounding_box(&self) -> (r: &Aabb)
        ensures
            *r == self.bbox,
    {
        &self.bbox
    }
}

proof fn lemma_subrange_contains(s: Seq<usize>, a: int, b: int, c: int, d: int, id: usize)
    requires
        0 <= a <= c <= d <= b <= s.len(),
        s.subrange(c, d).contains(id),
    ensures
        s.subrange(a, b).contains(id),
{
    let k = choose|k: int| 0 <= k < d - c && s.subrange(c, d)[k] == id;
    assert(s.subrange(a, b)[k + c - a] == id);
}

/// The node that `new_hitables` makes of two objects, on axis `axis`:
/// `first` goes left only when it lies strictly before `second`; on a tie
/// `second` goes left.
pub open spec fn pair_by_strict_order(node: BvhNode, first: usize, second: usize, boxes: Seq<Aabb>, axis: int) -> bool {
    if min_key(boxes, first, axis) < min_key(boxes, second, axis) {
        node.left == BvhChild::Object(first) && node.right == BvhChild::Object(second)
    } else {
        node.left == BvhChild::Object(second) && node.right == BvhChild::Object(first)
    }
}

/// How `new_hitables` lays out a range of object positions, for some choice
/// of the random axes: `before` is the range on entry, `after` the range on
/// return and `node` the tree returned. One object gives a node with that
/// object on both sides; two objects are left in place and paired by
/// `pair_by_strict_order`; more are stably sorted along an axis and each
/// half of the sorted range is laid out the same way, under a node of its own.
pub open spec fn hitables_layout(boxes: Seq<Aabb>, before: Seq<usize>, after: Seq<usize>, node: BvhNode) -> bool
    decreases node,
{
    if before.len() == 1 {
        &&& after == before
        &&& node.left == BvhChild::Object(before[0])
        &&& node.right == BvhChild::Object(before[0])
    } else if before.len() == 2 {
        &&& after == before
        &&& exists|a: int|
            0 <= a < 3 && #[trigger] pair_by_strict_order(node, before[0], before[1], boxes, a)
    } else {
        match node.left {
            BvhChild::Node(l) => match node.right {
                BvhChild::Node(r) => {
                    let n = before.len() as int;
                    let m = n / 2;
                    &&& after.len() == n
                    &&& exists|a: int, sorted: Seq<usize>|
                        0 <= a < 3 && #[trigger] stable_sort_of(boxes, a, sorted, before)
                            && hitables_layout(boxes, sorted.subrange(0, m), after.subrange(0, m), *l)
                            && hitables_layout(boxes, sorted.subrange(m, n), after.subrange(m, n), *r)
                },
                _ => false,
            },
            _ => false,
        }
    }
}

/// How `new_vec` builds its tree from a list of object positions, for some
/// choice of the random axes. One object gives a node with that object on
/// both sides; otherwise the list is stably sorted along an axis (objects
/// with equal keys keep their order); two objects then go left and right in
/// sorted order, and more are cut after the first half, each part built the
/// same way under a node of its own.
pub open spec fn vec_layout(boxes: Seq<Aabb>, objects: Seq<usize>, node: BvhNode) -> bool
    decreases node,
{
    if objects.len() == 1 {
        &&& node.left == BvhChild::Object(objects[0])
        &&& node.right == BvhChild::Object(objects[0])
    } else if objects.len() == 2 {
        exists|a: int, sorted: Seq<usize>|
            0 <= a < 3 && #[trigger] stable_sort_of(boxes, a, sorted, objects)
                && node.left == BvhChild::Object(sorted[0]) && node.right == BvhChild::Object(sorted[1])
    } else {
        match node.left {
            BvhChild::Node(l) => match node.right {
                BvhChild::Node(r) => {
                    let n = objects.len() as int;
                    let m = n / 2;
                    exists|a: int, sorted: Seq<usize>|
                        0 <= a < 3 && #[trigger] stable_sort_of(boxes, a, sorted, objects)
                            && vec_layout(boxes, sorted.subrange(0, m), *l)
                            && vec_layout(boxes, sorted.subrange(m, n), *r)
                },
                _ => false,
            },
            _ => false,
        }
    }
}

/// What a rearrangement keeps: the objects, so also their having boxes,
/// their being orderable, and their being distinct.
proof fn lemma_rearranged(boxes: Seq<Aabb>, s: Seq<usize>, t: Seq<usize>)
    requires
        s.to_multiset() == t.to_multiset(),
    ensures
        all_have_boxes(boxes, t) ==> all_have_boxes(boxes, s),
        all_orderable(boxes, t) ==> all_orderable(boxes, s),
        t.no_duplicates() ==> s.no_duplicates(),
        forall|id: usize| s.contains(id) <==> t.contains(id),
{
    assert forall|id: usize| s.contains(id) <==> t.contains(id) by {
        assert(s.contains(id) <==> s.to_multiset().count(id) > 0);
        assert(t.contains(id) <==> t.to_multiset().count(id) > 0);
    }
    if t.no_duplicates() {
        t.lemma_multiset_has_no_duplicates();
        s.lemma_multiset_has_no_duplicates_conv();
    }
}

/// The two parts of a sorted sequence, each rearranged, still lie on either
/// side of the cut.
proof fn lemma_split_after_sort(
    boxes: Seq<Aabb>,
    axis: int,
    sorted: Seq<usize>,
    mid: int,
    l: Seq<usize>,
    r: Seq<usize>,
)
    requires
        sorted_on(boxes, sorted, axis),
        0 <= mid <= sorted.len(),
        l.to_multiset() == sorted.subrange(0, mid).to_multiset(),
        r.to_multiset() == sorted.subrange(mid, sorted.len() as int).to_multiset(),
    ensures
        split_on(boxes, l, r, axis),
{
    lemma_rearranged(boxes, l, sorted.subrange(0, mid));
    lemma_rearranged(boxes, r, sorted.subrange(mid, sorted.len() as int));
    assert forall|i: int, j: int| 0 <= i < l.len() && 0 <= j < r.len() implies min_key(
        boxes,
        #[trigger] l[i],
        axis,
    ) <= min_key(boxes, #[trigger] r[j], axis) by {
        assert(l.contains(l[i]));
        assert(r.contains(r[j]));
        let left_part = sorted.subrange(0, mid);
        let right_part = sorted.subrange(mid, sorted.len() as int);
        assert(left_part.contains(l[i]));
        assert(right_part.contains(r[j]));
        let p = choose|p: int| 0 <= p < left_part.len() && left_part[p] == l[i];
        let q = choose|q: int| 0 <= q < right_part.len() && right_part[q] == r[j];
        assert(sorted[p] == l[i]);
        assert(sorted[q + mid] == r[j]);
    }
}

impl BvhNode {
    /// Builds the hierarchy over `src_objects[start..end]`. A random axis is
    /// drawn; one object makes a node with that object on both sides, two
    /// objects are put in order along the axis (the second first unless the
    /// first lies strictly before it), and more objects are sorted along the
    /// axis and split in the middle, each half built the same way. The range
    /// of `src_objects` is left rearranged as `hitables_layout` describes
    /// (in place when it holds two objects or fewer). Objects are named by
    /// their positions in the scene's list, `boxes[i]` being the box of the
    /// object at position `i`, so the range names each position once.
    pub fn new_hitables(src_objects: &mut Vec<usize>, start: usize, end: usize, boxes: &Vec<Aabb>) -> (node: BvhNode)
        requires
            start < end <= old(src_objects).len(),
            old(src_objects)@.subrange(start as int, end as int).no_duplicates(),
            all_have_boxes(boxes@, old(src_objects)@.subrange(start as int, end as int)),
            end - start >= 2 ==> all_orderable(
                boxes@,
                old(src_objects)@.subrange(start as int, end as int),
            ),
        ensures
            final(src_objects).len() == old(src_objects).len(),
            forall|m: int|
                0 <= m < old(src_objects).len() && !(start <= m < end) ==> final(src_objects)@[m]
                    == old(src_objects)@[m],
            final(src_objects)@.subrange(start as int, end as int).to_multiset() == old(
                src_objects,
            )@.subrange(start as int, end as int).to_multiset(),
            node.span().to_multiset() == old(src_objects)@.subrange(
                start as int,
                end as int,
            ).to_multiset(),
            node.well_formed(boxes@),
            hitables_layout(
                boxes@,
                old(src_objects)@.subrange(start as int, end as int),
                final(src_objects)@.subrange(start as int, end as int),
                node,
            ),
        decreases end - start,
    {
        let axis = random_int_range(0, 2);
        let ghost s0 = src_objects@;
        let ghost sub0 = s0.subrange(start as int, end as int);
        let object_span = end - start;
        if object_span == 1 {
            let o = src_objects[start];
            proof {
                assert(sub0[0] == o);
                assert(sub0.contains(o));
            }
            let node = BvhNode { left: BvhChild::Object(o), right: BvhChild::Object(o), bbox: boxes[o] };
            proof {
                lemma_box_hull_idempotent(boxes@[o as int]);
                assert(sub0 =~= seq![o]);
                assert(split_on(boxes@, seq![o], seq![o], 0));
                assert(child_well_formed(node.left, boxes@));
                assert(child_span(node.left) == seq![o]);
                assert(node.well_formed(boxes@));
                assert(hitables_layout(boxes@, sub0, sub0, node));
            }
            node
        } else if object_span == 2 {
            let a = src_objects[start];
            let b = src_objects[start + 1];
            proof {
                assert(sub0[0] == a && sub0[1] == b);
                assert(sub0.contains(a) && sub0.contains(b));
                assert(sub0 =~= seq![a, b]);
            }
            if comparator(boxes, a, b, axis) == KeyOrder::Less {
                let node = BvhNode {
                    left: BvhChild::Object(a),
                    right: BvhChild::Object(b),
                    bbox: Aabb::new_box(&boxes[a], &boxes[b]),
                };
                proof {
                    assert(node.span() =~= seq![a, b]);
                    assert(split_on(boxes@, seq![a], seq![b], axis as int));
                    assert(child_well_formed(node.left, boxes@));
                    assert(child_well_formed(node.right, boxes@));
                    assert(child_span(node.left) == seq![a]);
                    assert(child_span(node.right) == seq![b]);
                    assert(node.well_formed(boxes@));
                    assert(pair_by_strict_order(node, a, b, boxes@, axis as int));
                    assert(hitables_layout(boxes@, sub0, sub0, node));
                }
                node
            } else {
                let node = BvhNode {
                    left: BvhChild::Object(b),
                    right: BvhChild::Object(a),
                    bbox: Aabb::new_box(&boxes[b], &boxes[a]),
                };
                proof {
                    assert(node.span() =~= seq![b, a]);
                    assert(split_on(boxes@, seq![b], seq![a], axis as int));
                    assert(child_well_formed(node.left, boxes@));
                    assert(child_well_formed(node.right, boxes@));
                    assert(child_span(node.left) == seq![b]);
                    assert(child_span(node.right) == seq![a]);
                    assert(node.well_formed(boxes@));
                    assert(pair_by_strict_order(node, a, b, boxes@, axis as int));
                    assert(hitables_layout(boxes@, sub0, sub0, node));
                    lemma_multiset_commutative(seq![a], seq![b]);
                    lemma_multiset_commutative(seq![b], seq![a]);
                    assert(seq![a, b] =~= seq![a] + seq![b]);
                    assert(seq![b, a] =~= seq![b] + seq![a]);
                }
                node
            }
        } else {
            sort_span(src_objects, start, end, boxes, axis);
            let ghost s1 = src_objects@;
            let mid = start + object_span / 2;
            proof {
                let sub1 = s1.subrange(start as int, end as int);
                lemma_rearranged(boxes@, sub1, sub0);
                assert forall|id: usize| #[trigger]
                    s1.subrange(start as int, mid as int).contains(id) implies sub1.contains(id) by {
                    lemma_subrange_contains(s1, start as int, end as int, start as int, mid as int, id);
                }
                assert forall|id: usize| #[trigger]
                    s1.subrange(mid as int, end as int).contains(id) implies sub1.contains(id) by {
                    lemma_subrange_contains(s1, start as int, end as int, mid as int, end as int, id);
                }
                assert forall|i: int, j: int|
                    0 <= i < j < mid - start implies s1.subrange(start as int, mid as int)[i]
                    != s1.subrange(start as int, mid as int)[j] by {
                    assert(sub1[i] != sub1[j]);
                }
                assert forall|i: int, j: int|
                    0 <= i < j < end - mid implies s1.subrange(mid as int, end as int)[i]
                    != s1.subrange(mid as int, end as int)[j] by {
                    assert(sub1[i + mid - start] != sub1[j + mid - start]);
                }
            }
            let left = Self::new_hitables(src_objects, start, mid, boxes);
            let ghost s2 = src_objects@;
            proof {
                assert(s2.subrange(mid as int, end as int) =~= s1.subrange(mid as int, end as int));
            }
            let right = Self::new_hitables(src_objects, mid, end, boxes);
            let ghost s3 = src_objects@;
            let bbox = Aabb::new_box(&left.bbox, &right.bbox);
            let node = BvhNode {
                left: BvhChild::Node(Box::new(left)),
                right: BvhChild::Node(Box::new(right)),
                bbox,
            };
            proof {
                let sub1 = s1.subrange(start as int, end as int);
                assert(s3.subrange(start as int, mid as int) =~= s2.subrange(start as int, mid as int));
                assert(sub1 =~= s1.subrange(start as int, mid as int) + s1.subrange(mid as int, end as int));
                assert(s3.subrange(start as int, end as int) =~= s3.subrange(start as int, mid as int)
                    + s3.subrange(mid as int, end as int));
                lemma_multiset_commutative(s1.subrange(start as int, mid as int), s1.subrange(mid as int, end as int));
                lemma_multiset_commutative(s3.subrange(start as int, mid as int), s3.subrange(mid as int, end as int));
                lemma_multiset_commutative(left.span(), right.span());
                assert(sub1.subrange(0, mid - start) =~= s1.subrange(start as int, mid as int));
                assert(sub1.subrange(mid - start, sub1.len() as int) =~= s1.subrange(mid as int, end as int));
                lemma_split_after_sort(boxes@, axis as int, sub1, mid - start, left.span(), right.span());
                assert(child_well_formed(node.left, boxes@));
                assert(child_well_formed(node.right, boxes@));
                assert(child_span(node.left) == left.span());
                assert(child_span(node.right) == right.span());
                assert(node.span() == left.span() + right.span());
                assert(left.span().len() == left.span().to_multiset().len());
                assert(s1.subrange(start as int, mid as int).len() == s1.subrange(start as int, mid as int).to_multiset().len());
                assert(right.span().len() == right.span().to_multiset().len());
                assert(s1.subrange(mid as int, end as int).len() == s1.subrange(mid as int, end as int).to_multiset().len());
                assert(split_on(boxes@, child_span(node.left), child_span(node.right), axis as int));
                assert(node.well_formed(boxes@));
                let sub3 = s3.subrange(start as int, end as int);
                let m = (mid - start) as int;
                assert(sub1.subrange(0, m) =~= s1.subrange(start as int, mid as int));
                assert(sub1.subrange(m, sub0.len() as int) =~= s2.subrange(mid as int, end as int));
                assert(sub3.subrange(0, m) =~= s2.subrange(start as int, mid as int));
                assert(sub3.subrange(m, sub0.len() as int) =~= s3.subrange(mid as int, end as int));
                assert(stable_sort_of(boxes@, axis as int, sub1, sub0));
                assert(hitables_layout(boxes@, sub0, sub3, node));
            }
            node
        }
    }
}

/// The indices `0, 1, ..., n - 1`.
pub open spec fn indices(n: nat) -> Seq<usize> {
    Seq::new(n, |i: int| i as usize)
}

impl BvhNode {
    /// Builds the hierarchy over all objects of a list, given by their boxes:
    /// object `i` is the one whose box is `boxes[i]`.
    pub fn new(boxes: &Vec<Aabb>) -> (node: BvhNode)
        requires
            boxes.len() >= 1,
            boxes.len() >= 2 ==> forall|i: int|
                0 <= i < boxes.len() ==> #[trigger] orderable(boxes@, i as usize),
        ensures
            node.span().to_multiset() == indices(boxes.len() as nat).to_multiset(),
            node.well_formed(boxes@),
            exists|after: Seq<usize>| #[trigger]
                hitables_layout(boxes@, indices(boxes.len() as nat), after, node),
    {
        let l = boxes.len();
        let mut obj: Vec<usize> = Vec::new();
        let mut i: usize = 0;
        while i < l
            invariant
                i <= l,
                l == boxes.len(),
                obj@ == indices(i as nat),
            decreases l - i,
        {
            obj.push(i);
            proof {
                assert(obj@ =~= indices((i + 1) as nat));
            }
            i = i + 1;
        }
        proof {
            let s = obj@.subrange(0, l as int);
            assert(s =~= indices(l as nat));
            assert forall|id: usize| #[trigger] s.contains(id) implies id < boxes.len() && (l >= 2
                ==> orderable(boxes@, id)) by {
                let k = choose|k: int| 0 <= k < s.len() && s[k] == id;
                assert(orderable(boxes@, k as usize) || l < 2);
            }
        }
        let ghost before = obj@;
        let node = Self::new_hitables(&mut obj, 0, l, boxes);
        proof {
            assert(before.subrange(0, l as int) =~= indices(l as nat));
            let after = obj@.subrange(0, l as int);
            assert(hitables_layout(boxes@, indices(l as nat), after, node));
        }
        node
    }

    /// Builds the hierarchy over a list of objects that it takes over. A
    /// random axis is drawn; one object makes a node with that object on both
    /// sides, two objects are sorted along the axis (equal ones keep their
    /// order), and more objects are sorted along the axis and cut after the
    /// first half, each part built the same way. Objects are named by their
    /// positions in the scene's list, `boxes[i]` being the box of the object
    /// at position `i`, so no position comes twice.
    pub fn new_vec(objects: Vec<usize>, boxes: &Vec<Aabb>) -> (node: BvhNode)
        requires
            objects.len() >= 1,
            objects@.no_duplicates(),
            all_have_boxes(boxes@, objects@),
            objects.len() >= 2 ==> all_orderable(boxes@, objects@),
        ensures
            node.span().to_multiset() == objects@.to_multiset(),
            node.well_formed(boxes@),
            vec_layout(boxes@, objects@, node),
        decreases objects.len(),
    {
        let axis = random_int_range(0, 2);
        let ghost s0 = objects@;
        let mut objects = objects;
        let n = objects.len();
        if n == 1 {
            let o = objects[0];
            proof {
                assert(s0.contains(o));
            }
            let node = BvhNode { left: BvhChild::Object(o), right: BvhChild::Object(o), bbox: boxes[o] };
            proof {
                lemma_box_hull_idempotent(boxes@[o as int]);
                assert(s0 =~= seq![o]);
                assert(split_on(boxes@, seq![o], seq![o], 0));
                assert(child_well_formed(node.left, boxes@));
                assert(child_span(node.left) == seq![o]);
                assert(node.well_formed(boxes@));
                assert(vec_layout(boxes@, s0, node));
            }
            node
        } else {
            proof {
                assert(s0.subrange(0, n as int) =~= s0);
            }
            sort_span(&mut objects, 0, n, boxes, axis);
            let ghost s1 = objects@;
            proof {
                assert(s1.subrange(0, n as int) =~= s1);
                lemma_rearranged(boxes@, s1, s0);
            }
            if n == 2 {
                let l = objects[0];
                let r = objects[1];
                proof {
                    assert(s1[0] == l && s1[1] == r);
                    assert(s1.contains(l) && s1.contains(r));
                }
                let node = BvhNode {
                    left: BvhChild::Object(l),
                    right: BvhChild::Object(r),
                    bbox: Aabb::new_box(&boxes[l], &boxes[r]),
                };
                proof {
                    assert(s1 =~= seq![l, r]);
                    assert(node.span() =~= seq![l, r]);
                    assert(split_on(boxes@, seq![l], seq![r], axis as int));
                    assert(child_well_formed(node.left, boxes@));
                    assert(child_well_formed(node.right, boxes@));
                    assert(child_span(node.left) == seq![l]);
                    assert(child_span(node.right) == seq![r]);
                    assert(node.well_formed(boxes@));
                    assert(stable_sort_of(boxes@, axis as int, s1, s0));
                    assert(vec_layout(boxes@, s0, node));
                }
                node
            } else {
                let mut left_objects = objects;
                let right_objects = left_objects.split_off(n / 2);
                let ghost ls = left_objects@;
                let ghost rs = right_objects@;
                proof {
                    assert(s1 =~= ls + rs);
                    assert forall|id: usize| #[trigger] ls.contains(id) implies s1.contains(id) by {
                        let k = choose|k: int| 0 <= k < ls.len() && ls[k] == id;
                        assert(s1[k] == id);
                    }
                    assert forall|id: usize| #[trigger] rs.contains(id) implies s1.contains(id) by {
                        let k = choose|k: int| 0 <= k < rs.len() && rs[k] == id;
                        assert(s1[k + n / 2] == id);
                    }
                    assert forall|i: int, j: int| 0 <= i < j < ls.len() implies ls[i] != ls[j] by {
                        assert(s1[i] != s1[j]);
                    }
                    assert forall|i: int, j: int| 0 <= i < j < rs.len() implies rs[i] != rs[j] by {
                        assert(s1[i + n / 2] != s1[j + n / 2]);
                    }
                }
                let left = Self::new_vec(left_objects, boxes);
                let right = Self::new_vec(right_objects, boxes);
                let bbox = Aabb::new_box(&left.bbox, &right.bbox);
                let node = BvhNode {
                    left: BvhChild::Node(Box::new(left)),
                    right: BvhChild::Node(Box::new(right)),
                    bbox,
                };
                proof {
                    assert(ls =~= s1.subrange(0, (n / 2) as int));
                    assert(rs =~= s1.subrange((n / 2) as int, n as int));
                    lemma_split_after_sort(boxes@, axis as int, s1, (n / 2) as int, left.span(), right.span());
                    lemma_multiset_commutative(ls, rs);
                    lemma_multiset_commutative(left.span(), right.span());
                    assert(child_well_formed(node.left, boxes@));
                    assert(child_well_formed(node.right, boxes@));
                    assert(child_span(node.left) == left.span());
                    assert(child_span(node.right) == right.span());
                    assert(node.span() == left.span() + right.span());
                    assert(left.span().len() == left.span().to_multiset().len());
                    assert(ls.len() == ls.to_multiset().len());
                    assert(right.span().len() == right.span().to_multiset().len());
                    assert(rs.len() == rs.to_multiset().len());
                    assert(split_on(boxes@, child_span(node.left), child_span(node.right), axis as int));
                    assert(node.well_formed(boxes@));
                    assert(stable_sort_of(boxes@, axis as int, s1, s0));
                    assert(vec_layout(boxes@, s0, node));
                }
                node
            }
        }
    }
}

/// The objects under a child lie in the child's box (each one whose box has
/// number bounds), and the child's box then has number bounds too.
proof fn lemma_child_box_encloses(c: BvhChild, boxes: Seq<Aabb>, id: usize)
    requires
        child_well_formed(c, boxes),
        child_span(c).contains(id),
        box_bounds_are_numbers(boxes[id as int]),
    ensures
        box_encloses(child_box(c, boxes), boxes[id as int]),
        box_bounds_are_numbers(child_box(c, boxes)),
    decreases c,
{
    match c {
        BvhChild::Object(o) => {
            assert(seq![o][0] == o);
            assert(o == id);
        },
        BvhChild::Node(n) => {
            lemma_node_box_encloses(*n, boxes, id);
        },
    }
}

/// Every object under a well-formed node lies in the node's box, on all
/// three axes, as long as the bounds of that object's own box are numbers.
/// This is what lets a ray that misses a node's box skip everything under it.
pub proof fn lemma_node_box_encloses(node: BvhNode, boxes: Seq<Aabb>, id: usize)
    requires
        node.well_formed(boxes),
        node.span().contains(id),
        box_bounds_are_numbers(boxes[id as int]),
    ensures
        box_encloses(node.bbox, boxes[id as int]),
        box_bounds_are_numbers(node.bbox),
    decreases node,
{
    let l = child_span(node.left);
    let r = child_span(node.right);
    let lb = child_box(node.left, boxes);
    let rb = child_box(node.right, boxes);
    if l.contains(id) {
        lemma_child_box_encloses(node.left, boxes, id);
        lemma_box_hull_encloses(lb, rb);
        lemma_box_encloses_transitive(node.bbox, lb, boxes[id as int]);
    } else {
        assert(!node.single());
        assert(node.span() == l + r);
        let k = choose|k: int| 0 <= k < node.span().len() && node.span()[k] == id;
        assert(r[k - l.len()] == id);
        assert(r.contains(id));
        lemma_child_box_encloses(node.right, boxes, id);
        lemma_box_hull_encloses(rb, lb);
        lemma_box_encloses_transitive(node.bbox, rb, boxes[id as int]);
    }
}

/// Two to the power `e`.
pub open spec fn power_of_two(e: nat) -> nat
    decreases e,
{
    if e == 0 {
        1
    } else {
        2 * power_of_two((e - 1) as nat)
    }
}

/// The number of node levels under a child: none for an object.
pub open spec fn child_height(c: BvhChild) -> nat
    decreases c,
{
    match c {
        BvhChild::Object(_) => 0,
        BvhChild::Node(n) => n.height(),
    }
}

impl BvhNode {
    /// The number of node levels from this node down to its deepest object.
    pub open spec fn height(self) -> nat
        decreases self,
    {
        let l = child_height(self.left);
        let r = child_height(self.right);
        1 + if l < r {
            r
        } else {
            l
        }
    }
}

proof fn lemma_child_height(c: BvhChild, boxes: Seq<Aabb>)
    requires
        child_well_formed(c, boxes),
    ensures
        child_span(c).len() >= 1,
        child_span(c).len() == 1 ==> child_height(c) <= 1,
        child_span(c).len() >= 2 ==> power_of_two(child_height(c)) <= 2 * (child_span(c).len() - 1),
    decreases c,
{
    match c {
        BvhChild::Object(o) => {},
        BvhChild::Node(n) => {
            lemma_height_logarithmic(*n, boxes);
            assert(child_height(c) == n.height());
            assert(power_of_two(n.height()) == 2 * power_of_two((n.height() - 1) as nat));
        },
    }
}

/// A well-formed hierarchy is balanced: a node over `n >= 2` objects has
/// `2^(height - 1) < n`, so its height is at most `ceil(log2 n)`; a node
/// over one object has height one.
pub proof fn lemma_height_logarithmic(node: BvhNode, boxes: Seq<Aabb>)
    requires
        node.well_formed(boxes),
    ensures
        node.span().len() >= 1,
        node.span().len() == 1 ==> node.height() == 1,
        node.span().len() >= 2 ==> power_of_two((node.height() - 1) as nat) < node.span().len(),
    decreases node,
{
    lemma_child_height(node.left, boxes);
    lemma_child_height(node.right, boxes);
    let hl = child_height(node.left);
    let hr = child_height(node.right);
    let h = (node.height() - 1) as nat;
    assert(h == hl || h == hr);
    if node.single() {
        assert(node.span() == child_span(node.left));
        assert(child_span(node.left) =~= seq![node.left->Object_0]);
    } else {
        let nl = child_span(node.left).len();
        let nr = child_span(node.right).len();
        let n = node.span().len();
        assert(n == nl + nr);
        assert(nl == n / 2);
        if n == 2 {
            assert(hl == 0 && hr == 0);
        } else {
            assert(nr >= 2);
            assert(power_of_two(hr) < n);
            if nl == 1 {
                assert(power_of_two(0) == 1);
                assert(power_of_two(1) == 2);
                assert(power_of_two(hl) <= 2);
            }
            assert(power_of_two(hl) < n);
        }
    }
}

} // verus!
