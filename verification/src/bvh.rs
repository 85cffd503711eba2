//! BVH node records, primitives, and the recursive builder.

use crate::geom::{
    axis_of, centre_of, component_max, component_min, coord_in_range, in_box, mid_vec,
    vec_in_range, Vec2, Vec3, COORD_LIMIT,
};
use vstd::prelude::*;
use vstd::seq_lib::{group_to_multiset_ensures, lemma_multiset_commutative};

verus! {

/// Construction stops splitting once a node sits at this depth.
pub const MAX_DEPTH: i32 = 2;

/// The only failure of the builder: a primitive whose type tag is outside the
/// supported set, discovered during a bounds-growth operation.
#[derive(Clone, Copy, Debug, PartialEq, Eq, Structural)]
pub enum BvhError {
    UnsupportedPrimitiveType,
}

/// A renderable primitive: an anchor position, a numeric type tag
/// (0 = sphere, 1 = triangle) and a fixed block of twelve parameters.
/// A sphere uses `params[0]` as its radius; a triangle uses `params[0..9]`
/// as three absolute vertex positions.
#[derive(Clone, Copy, Debug)]
pub struct Object {
    pub pos: Vec3,
    pub ty: u32,
    pub params: [i64; 12],
}

/// The camera record handed to the renderer next to the two flat arrays.
#[derive(Clone, Copy, Debug, PartialEq, Eq, Structural)]
pub struct BvhCamera {
    pub pos: Vec3,
    pub rot: Vec2,
}

/// A BVH node: box corners, their midpoint, and index-based links into the
/// flat node and primitive arrays.  `child_index == 0` marks a leaf; a split
/// node holds the index of the first of its two consecutive children.
#[derive(Clone, Copy, Debug, PartialEq, Eq, Structural)]
pub struct Node {
    pub max_corner: Vec3,
    pub min_corner: Vec3,
    pub centre: Vec3,
    pub child_index: u32,
    pub object_index: u32,
    pub object_count: u32,
}

pub open spec fn obj_supported(o: Object) -> bool {
    o.ty == 0 || o.ty == 1
}

/// Number of bounding points a primitive contributes: a sphere its two
/// axis-aligned extremes, a triangle its three vertices.
pub open spec fn obj_pt_count(o: Object) -> int {
    if o.ty == 0 {
        2
    } else if o.ty == 1 {
        3
    } else {
        0
    }
}

/// The `j`-th bounding point of a primitive.
pub open spec fn obj_pt(o: Object, j: int) -> Vec3 {
    if o.ty == 0 {
        if j == 0 {
            Vec3 {
                x: (o.pos.x + o.params[0]) as i64,
                y: (o.pos.y + o.params[0]) as i64,
                z: (o.pos.z + o.params[0]) as i64,
            }
        } else {
            Vec3 {
                x: (o.pos.x - o.params[0]) as i64,
                y: (o.pos.y - o.params[0]) as i64,
                z: (o.pos.z - o.params[0]) as i64,
            }
        }
    } else {
        Vec3 { x: o.params[3 * j], y: o.params[3 * j + 1], z: o.params[3 * j + 2] }
    }
}

/// A primitive the builder can do arithmetic on without overflow: every
/// bounding coordinate it induces lies within the global coordinate range.
pub open spec fn obj_wf(o: Object) -> bool {
    if o.ty == 0 {
        &&& coord_in_range(o.pos.x + o.params[0])
        &&& coord_in_range(o.pos.y + o.params[0])
        &&& coord_in_range(o.pos.z + o.params[0])
        &&& coord_in_range(o.pos.x - o.params[0])
        &&& coord_in_range(o.pos.y - o.params[0])
        &&& coord_in_range(o.pos.z - o.params[0])
    } else if o.ty == 1 {
        forall|k: int| 0 <= k < 9 ==> coord_in_range(#[trigger] o.params[k] as int)
    } else {
        true
    }
}

pub open spec fn scene_wf(s: Seq<Object>) -> bool {
    &&& s.len() <= u32::MAX
    &&& forall|k: int| 0 <= k < s.len() ==> obj_wf(#[trigger] s[k])
}

/// The node that results from growing a node's box to include a point,
/// with the centre recomputed from the new corners.
pub open spec fn grown_by_point(n: Node, p: Vec3) -> Node {
    let lo = component_min(n.min_corner, p);
    let hi = component_max(n.max_corner, p);
    Node { min_corner: lo, max_corner: hi, centre: centre_of(lo, hi), ..n }
}

/// The node that results from growing a node's box to include every bounding
/// point of a primitive, in point order.  An unsupported primitive grows nothing.
pub open spec fn grown_by_object(n: Node, o: Object) -> Node {
    if o.ty == 0 {
        grown_by_point(grown_by_point(n, obj_pt(o, 0)), obj_pt(o, 1))
    } else if o.ty == 1 {
        grown_by_point(grown_by_point(grown_by_point(n, obj_pt(o, 0)), obj_pt(o, 1)), obj_pt(o, 2))
    } else {
        n
    }
}

/// Every bounding point of every primitive in `s[lo..hi]` lies inside the box.
#[verifier::opaque]
pub open spec fn box_covers(s: Seq<Object>, lo: int, hi: int, bmin: Vec3, bmax: Vec3) -> bool {
    forall|k: int, j: int|
        lo <= k < hi && 0 <= j < obj_pt_count(s[k]) ==> in_box(
            #[trigger] obj_pt(s[k], j),
            bmin,
            bmax,
        )
}

/// Some bounding point of some primitive in `s[lo..hi]` has value `v` on axis `a`.
#[verifier::opaque]
pub open spec fn box_hit(s: Seq<Object>, lo: int, hi: int, a: int, v: int) -> bool {
    exists|k: int, j: int|
        lo <= k < hi && 0 <= j < obj_pt_count(s[k]) && axis_of(#[trigger] obj_pt(s[k], j), a) == v
}

/// The box is the exact bound of the primitives in `s[lo..hi]`: it covers all
/// their bounding points, and each corner coordinate is either attained by one
/// of them or still the empty-box sentinel.
pub open spec fn box_tight(s: Seq<Object>, lo: int, hi: int, bmin: Vec3, bmax: Vec3) -> bool {
    &&& box_covers(s, lo, hi, bmin, bmax)
    &&& forall|a: int|
        0 <= a < 3 ==> (box_hit(s, lo, hi, a, #[trigger] axis_of(bmin, a)) || axis_of(bmin, a)
            == COORD_LIMIT as int)
    &&& forall|a: int|
        0 <= a < 3 ==> (box_hit(s, lo, hi, a, #[trigger] axis_of(bmax, a)) || axis_of(bmax, a)
            == -(COORD_LIMIT as int))
}

/// Which side of the split plane a primitive's anchor falls on.
pub open spec fn on_side(o: Object, axis: int, split_pos: int, side: bool) -> bool {
    (axis_of(o.pos, axis) < split_pos) == side
}

/// The axis a node splits on: the one with the largest extent, preferring x
/// only when it strictly exceeds both others, else y when it strictly
/// exceeds z, else z.
pub open spec fn split_axis(n: Node) -> int {
    let sx = n.max_corner.x - n.min_corner.x;
    let sy = n.max_corner.y - n.min_corner.y;
    let sz = n.max_corner.z - n.min_corner.z;
    if sx > sy && sx > sz {
        0
    } else if sy > sz {
        1
    } else {
        2
    }
}

/// The position a node splits at: its centre along the split axis.
pub open spec fn split_position(n: Node) -> int {
    axis_of(n.centre, split_axis(n))
}

/// `box_covers` restricted to the primitives of `s[lo..hi]` on one side of the plane.
#[verifier::opaque]
pub open spec fn cls_covers(
    s: Seq<Object>,
    lo: int,
    hi: int,
    axis: int,
    split_pos: int,
    side: bool,
    bmin: Vec3,
    bmax: Vec3,
) -> bool {
    forall|k: int, j: int|
        lo <= k < hi && on_side(s[k], axis, split_pos, side) && 0 <= j < obj_pt_count(s[k])
            ==> in_box(#[trigger] obj_pt(s[k], j), bmin, bmax)
}

/// `box_hit` restricted to the primitives of `s[lo..hi]` on one side of the plane.
#[verifier::opaque]
pub open spec fn cls_hit(
    s: Seq<Object>,
    lo: int,
    hi: int,
    axis: int,
    split_pos: int,
    side: bool,
    a: int,
    v: int,
) -> bool {
    exists|k: int, j: int|
        lo <= k < hi && on_side(s[k], axis, split_pos, side) && 0 <= j < obj_pt_count(s[k])
            && axis_of(#[trigger] obj_pt(s[k], j), a) == v
}

/// `box_tight` restricted to the primitives of `s[lo..hi]` on one side of the plane.
pub open spec fn cls_tight(
    s: Seq<Object>,
    lo: int,
    hi: int,
    axis: int,
    split_pos: int,
    side: bool,
    bmin: Vec3,
    bmax: Vec3,
) -> bool {
    &&& cls_covers(s, lo, hi, axis, split_pos, side, bmin, bmax)
    &&& forall|a: int|
        0 <= a < 3 ==> (cls_hit(s, lo, hi, axis, split_pos, side, a, #[trigger] axis_of(bmin, a))
            || axis_of(bmin, a) == COORD_LIMIT as int)
    &&& forall|a: int|
        0 <= a < 3 ==> (cls_hit(s, lo, hi, axis, split_pos, side, a, #[trigger] axis_of(bmax, a))
            || axis_of(bmax, a) == -(COORD_LIMIT as int))
}

pub open spec fn range_lo(n: Node) -> int {
    n.object_index as int
}

pub open spec fn range_hi(n: Node) -> int {
    n.object_index + n.object_count
}

/// A node record the rest of the builder can rely on: corners in range,
/// centre kept consistent, and a primitive range inside the scene.
pub open spec fn node_wf(n: Node, scene_len: int) -> bool {
    &&& vec_in_range(n.min_corner)
    &&& vec_in_range(n.max_corner)
    &&& n.centre == centre_of(n.min_corner, n.max_corner)
    &&& range_hi(n) <= scene_len
}

pub open spec fn is_leaf(nodes: Seq<Node>, j: int) -> bool {
    nodes[j].child_index == 0
}

/// The node indices a call of `split` may have written: the node itself and
/// everything appended at or after `new_lo`.
pub open spec fn touched(j: int, index: int, new_lo: int, len: int) -> bool {
    j == index || (new_lo <= j < len)
}

/// Primitive slot `k` belongs to the range of some touched leaf.
#[verifier::opaque]
pub open spec fn covered_by_leaf(nodes: Seq<Node>, index: int, new_lo: int, k: int) -> bool {
    exists|j: int|
        #![trigger nodes[j]]
        touched(j, index, new_lo, nodes.len() as int) && 0 <= j < nodes.len() && is_leaf(nodes, j)
            && range_lo(nodes[j]) <= k < range_hi(nodes[j])
}

/// The touched leaves are well-formed, tight over their ranges, and their
/// ranges partition `[lo, hi)`: confined to it, covering it, pairwise disjoint.
#[verifier::opaque]
pub open spec fn leaves_partition(
    nodes: Seq<Node>,
    scene: Seq<Object>,
    index: int,
    new_lo: int,
    lo: int,
    hi: int,
) -> bool {
    let len = nodes.len() as int;
    &&& forall|j: int|
        #![trigger nodes[j]]
        touched(j, index, new_lo, len) && 0 <= j < len ==> node_wf(nodes[j], scene.len() as int)
    &&& forall|j: int|
        #![trigger nodes[j]]
        touched(j, index, new_lo, len) && 0 <= j < len && is_leaf(nodes, j) ==> lo <= range_lo(
            nodes[j],
        ) && range_hi(nodes[j]) <= hi && box_tight(
            scene,
            range_lo(nodes[j]),
            range_hi(nodes[j]),
            nodes[j].min_corner,
            nodes[j].max_corner,
        )
    &&& forall|k: int| lo <= k < hi ==> #[trigger] covered_by_leaf(nodes, index, new_lo, k)
    &&& forall|j1: int, j2: int|
        #![trigger nodes[j1], nodes[j2]]
        touched(j1, index, new_lo, len) && touched(j2, index, new_lo, len) && 0 <= j1 < len && 0
            <= j2 < len && j1 != j2 && is_leaf(nodes, j1) && is_leaf(nodes, j2) ==> (range_hi(
            nodes[j1],
        ) <= range_lo(nodes[j2]) || range_hi(nodes[j2]) <= range_lo(nodes[j1]))
}

/// The subtree rooted at `i` is structurally sound within depth budget `d`:
/// a split node has two children appended side by side at or after `floor`,
/// and every path below it exhausts the budget before running out of nodes.
pub open spec fn subtree_ok(nodes: Seq<Node>, i: int, d: nat, floor: int) -> bool
    decreases d,
{
    &&& 0 <= i < nodes.len()
    &&& (nodes[i].child_index == 0 || {
        let c = nodes[i].child_index as int;
        &&& d > 0
        &&& floor <= c
        &&& c + 1 < nodes.len()
        &&& subtree_ok(nodes, c, (d - 1) as nat, c + 2)
        &&& subtree_ok(nodes, c + 1, (d - 1) as nat, c + 2)
    })
}

pub open spec fn two_pow(n: nat) -> nat
    decreases n,
{
    if n == 0 {
        1
    } else {
        2 * two_pow((n - 1) as nat)
    }
}

/// A split node's box is exactly the union of its two children's boxes.
#[verifier::opaque]
pub open spec fn union_at(nodes: Seq<Node>, j: int, new_lo: int) -> bool {
    let c = nodes[j].child_index as int;
    &&& new_lo <= c
    &&& c + 1 < nodes.len()
    &&& nodes[j].min_corner == component_min(nodes[c].min_corner, nodes[c + 1].min_corner)
    &&& nodes[j].max_corner == component_max(nodes[c].max_corner, nodes[c + 1].max_corner)
}

#[verifier::opaque]
pub open spec fn union_ok(nodes: Seq<Node>, index: int, new_lo: int) -> bool {
    let len = nodes.len() as int;
    forall|j: int|
        #![trigger nodes[j]]
        touched(j, index, new_lo, len) && 0 <= j < len && !is_leaf(nodes, j) ==> union_at(
            nodes,
            j,
            new_lo,
        )
}

/// The node at `index` was actually split: its `child_index` points at the
/// end of the old node array, where its two children sit with ranges that
/// cut the node's range in two, and the final scene holds the primitives
/// whose anchor lies below the split plane in the first child's range and
/// the rest in the second's.
#[verifier::opaque]
pub open spec fn split_children_ok(pre: RayMarcherData, post: RayMarcherData, index: int) -> bool {
    let n0 = pre.bvh@[index];
    let lo = range_lo(n0);
    let hi = range_hi(n0);
    let len0 = pre.bvh@.len() as int;
    let ax = split_axis(n0);
    let sp = split_position(n0);
    &&& post.bvh@[index].child_index as int == len0
    &&& len0 + 2 <= post.bvh@.len()
    &&& range_lo(post.bvh@[len0]) == lo
    &&& range_hi(post.bvh@[len0]) == range_lo(post.bvh@[len0 + 1])
    &&& range_hi(post.bvh@[len0 + 1]) == hi
    &&& forall|k: int|
        lo <= k < range_hi(post.bvh@[len0]) ==> on_side(#[trigger] post.scene@[k], ax, sp, true)
    &&& forall|k: int|
        range_lo(post.bvh@[len0 + 1]) <= k < hi ==> on_side(
            #[trigger] post.scene@[k],
            ax,
            sp,
            false,
        )
}

/// What a call of `split` leaves untouched in the node array: every other
/// pre-existing node, and every field of the node itself but `child_index`.
pub open spec fn nodes_frame(old_nodes: Seq<Node>, new_nodes: Seq<Node>, index: int) -> bool {
    &&& old_nodes.len() <= new_nodes.len()
    &&& forall|j: int|
        0 <= j < old_nodes.len() && j != index ==> #[trigger] new_nodes[j] == old_nodes[j]
    &&& new_nodes[index].max_corner == old_nodes[index].max_corner
    &&& new_nodes[index].min_corner == old_nodes[index].min_corner
    &&& new_nodes[index].centre == old_nodes[index].centre
    &&& new_nodes[index].object_index == old_nodes[index].object_index
    &&& new_nodes[index].object_count == old_nodes[index].object_count
}

/// What a call of `split` does to the scene: a permutation that moves
/// primitives only inside `[lo, hi)`.
pub open spec fn scene_frame(old_s: Seq<Object>, new_s: Seq<Object>, lo: int, hi: int) -> bool {
    &&& new_s.len() == old_s.len()
    &&& forall|k: int| 0 <= k < old_s.len() && !(lo <= k < hi) ==> #[trigger] new_s[k] == old_s[k]
    &&& new_s.to_multiset() == old_s.to_multiset()
}

impl Node {
    /// Make a leaf node over the given corners and primitive range; the centre
    /// is computed as the midpoint of the corners.
    pub fn new(max_corner: Vec3, min_corner: Vec3, object_index: u32, object_count: u32) -> (n:
        Node)
        requires
            vec_in_range(max_corner),
            vec_in_range(min_corner),
        ensures
            n.max_corner == max_corner,
            n.min_corner == min_corner,
            n.centre == centre_of(min_corner, max_corner),
            n.child_index == 0,
            n.object_index == object_index,
            n.object_count == object_count,
    {
        let centre = mid_vec(&min_corner, &max_corner);
        Node { max_corner, min_corner, centre, child_index: 0, object_index, object_count }
    }

    /// Grow the box to include a point and recompute the centre.
    pub fn grow_to_include(&mut self, p: Vec3)
        requires
            vec_in_range(old(self).min_corner),
            vec_in_range(old(self).max_corner),
            vec_in_range(p),
        ensures
            *final(self) == grown_by_point(*old(self), p),
            vec_in_range(final(self).min_corner),
            vec_in_range(final(self).max_corner),
    {
        self.min_corner = vec_min(&self.min_corner, &p);
        self.max_corner = vec_max(&self.max_corner, &p);
        self.centre = mid_vec(&self.min_corner, &self.max_corner);
    }

    /// Grow the box to include a whole primitive, dispatching on its type tag.
    /// An unsupported tag fails with `UnsupportedPrimitiveType` and leaves the
    /// node unchanged.
    pub fn grow_to_include_object(&mut self, obj: &Object) -> (res: Result<(), BvhError>)
        requires
            vec_in_range(old(self).min_corner),
            vec_in_range(old(self).max_corner),
            obj_wf(*obj),
        ensures
            match res {
                Result::Ok(u) => obj_supported(*obj) && *final(self) == grown_by_object(
                    *old(self),
                    *obj,
                ),
                Result::Err(e) => !obj_supported(*obj) && *final(self) == *old(self) && e
                    == BvhError::UnsupportedPrimitiveType,
            },
            vec_in_range(final(self).min_corner),
            vec_in_range(final(self).max_corner),
    {
        match obj.ty {
            0 => {
                let r = obj.params[0];
                let sphere_max = Vec3 { x: obj.pos.x + r, y: obj.pos.y + r, z: obj.pos.z + r };
                let sphere_min = Vec3 { x: obj.pos.x - r, y: obj.pos.y - r, z: obj.pos.z - r };
                self.grow_to_include(sphere_max);
                self.grow_to_include(sphere_min);
                Ok(())
            },
            1 => {
                let v0 = Vec3 { x: obj.params[0], y: obj.params[1], z: obj.params[2] };
                let v1 = Vec3 { x: obj.params[3], y: obj.params[4], z: obj.params[5] };
                let v2 = Vec3 { x: obj.params[6], y: obj.params[7], z: obj.params[8] };
                self.grow_to_include(v0);
                self.grow_to_include(v1);
                self.grow_to_include(v2);
                Ok(())
            },
            _ => Err(BvhError::UnsupportedPrimitiveType),
        }
    }
}

/// Componentwise minimum of two vectors.
pub fn vec_min(a: &Vec3, b: &Vec3) -> (r: Vec3)
    ensures
        r == component_min(*a, *b),
{
    Vec3 {
        x: if a.x <= b.x {
            a.x
        } else {
            b.x
        },
        y: if a.y <= b.y {
            a.y
        } else {
            b.y
        },
        z: if a.z <= b.z {
            a.z
        } else {
            b.z
        },
    }
}

/// Componentwise maximum of two vectors.
pub fn vec_max(a: &Vec3, b: &Vec3) -> (r: Vec3)
    ensures
        r == component_max(*a, *b),
{
    Vec3 {
        x: if a.x >= b.x {
            a.x
        } else {
            b.x
        },
        y: if a.y >= b.y {
            a.y
        } else {
            b.y
        },
        z: if a.z >= b.z {
            a.z
        } else {
            b.z
        },
    }
}

/// Component of a vector along a runtime axis number.
pub fn axis_value(v: &Vec3, a: usize) -> (r: i64)
    ensures
        r as int == axis_of(*v, a as int),
{
    if a == 0 {
        v.x
    } else if a == 1 {
        v.y
    } else {
        v.z
    }
}

/// Growth idempotence: growing a box to include a point it already contains
/// leaves the node unchanged (corners and centre alike).
pub proof fn lemma_grow_to_include_idempotent(n: Node, p: Vec3)
    requires
        in_box(p, n.min_corner, n.max_corner),
        n.centre == centre_of(n.min_corner, n.max_corner),
    ensures
        grown_by_point(n, p) == n,
{
    assert(component_min(n.min_corner, p) == n.min_corner);
    assert(component_max(n.max_corner, p) == n.max_corner);
}

/// Growth is monotone: a point inside a box stays inside however the box is
/// further grown, by points or by whole primitives.
pub proof fn lemma_grow_monotone(n: Node, p: Vec3, q: Vec3)
    requires
        in_box(q, n.min_corner, n.max_corner),
    ensures
        in_box(q, grown_by_point(n, p).min_corner, grown_by_point(n, p).max_corner),
{
}

/// How growing by a whole primitive moves a box: index fields survive, the
/// centre stays consistent, old contents stay inside, the primitive's points
/// land inside, and each corner coordinate either keeps its old value or is
/// attained by one of the primitive's points.
pub proof fn lemma_grow_object_effect(n: Node, o: Object)
    requires
        vec_in_range(n.min_corner),
        vec_in_range(n.max_corner),
        obj_wf(o),
        obj_supported(o),
    ensures
        grown_by_object(n, o).child_index == n.child_index,
        grown_by_object(n, o).object_index == n.object_index,
        grown_by_object(n, o).object_count == n.object_count,
        vec_in_range(grown_by_object(n, o).min_corner),
        vec_in_range(grown_by_object(n, o).max_corner),
        grown_by_object(n, o).centre == centre_of(
            grown_by_object(n, o).min_corner,
            grown_by_object(n, o).max_corner,
        ),
        forall|q: Vec3|
            #[trigger] in_box(q, n.min_corner, n.max_corner) ==> in_box(
                q,
                grown_by_object(n, o).min_corner,
                grown_by_object(n, o).max_corner,
            ),
        forall|j: int|
            0 <= j < obj_pt_count(o) ==> in_box(
                #[trigger] obj_pt(o, j),
                grown_by_object(n, o).min_corner,
                grown_by_object(n, o).max_corner,
            ),
        forall|a: int|
            0 <= a < 3 ==> (#[trigger] axis_of(grown_by_object(n, o).min_corner, a) == axis_of(
                n.min_corner,
                a,
            ) || exists|j: int|
                0 <= j < obj_pt_count(o) && axis_of(#[trigger] obj_pt(o, j), a) == axis_of(
                    grown_by_object(n, o).min_corner,
                    a,
                )),
        forall|a: int|
            0 <= a < 3 ==> (#[trigger] axis_of(grown_by_object(n, o).max_corner, a) == axis_of(
                n.max_corner,
                a,
            ) || exists|j: int|
                0 <= j < obj_pt_count(o) && axis_of(#[trigger] obj_pt(o, j), a) == axis_of(
                    grown_by_object(n, o).max_corner,
                    a,
                )),
{
    let n2 = grown_by_object(n, o);
    if o.ty == 0 {
        let p0 = obj_pt(o, 0);
        let p1 = obj_pt(o, 1);
        assert(vec_in_range(p0));
        assert(vec_in_range(p1));
        assert forall|a: int| 0 <= a < 3 implies #[trigger] axis_of(n2.min_corner, a) == axis_of(
            n.min_corner,
            a,
        ) || axis_of(obj_pt(o, 0), a) == axis_of(n2.min_corner, a) || axis_of(obj_pt(o, 1), a)
            == axis_of(n2.min_corner, a) by {}
        assert forall|a: int| 0 <= a < 3 implies #[trigger] axis_of(n2.max_corner, a) == axis_of(
            n.max_corner,
            a,
        ) || axis_of(obj_pt(o, 0), a) == axis_of(n2.max_corner, a) || axis_of(obj_pt(o, 1), a)
            == axis_of(n2.max_corner, a) by {}
    } else {
        let p0 = obj_pt(o, 0);
        let p1 = obj_pt(o, 1);
        let p2 = obj_pt(o, 2);
        assert(vec_in_range(p0));
        assert(vec_in_range(p1));
        assert(vec_in_range(p2));
        assert forall|a: int| 0 <= a < 3 implies #[trigger] axis_of(n2.min_corner, a) == axis_of(
            n.min_corner,
            a,
        ) || axis_of(obj_pt(o, 0), a) == axis_of(n2.min_corner, a) || axis_of(obj_pt(o, 1), a)
            == axis_of(n2.min_corner, a) || axis_of(obj_pt(o, 2), a) == axis_of(
            n2.min_corner,
            a,
        ) by {}
        assert forall|a: int| 0 <= a < 3 implies #[trigger] axis_of(n2.max_corner, a) == axis_of(
            n.max_corner,
            a,
        ) || axis_of(obj_pt(o, 0), a) == axis_of(n2.max_corner, a) || axis_of(obj_pt(o, 1), a)
            == axis_of(n2.max_corner, a) || axis_of(obj_pt(o, 2), a) == axis_of(
            n2.max_corner,
            a,
        ) by {}
    }
}

/// Tightness extends over a newly placed primitive: if a box is tight over
/// `s1[lo..m]`, the same entries sit in `s2`, and `s2[m]` is the primitive the
/// box was just grown by, the grown box is tight over `s2[lo..m+1]`.
pub proof fn lemma_tight_extend(s1: Seq<Object>, s2: Seq<Object>, lo: int, m: int, n: Node, o: Object)
    requires
        0 <= lo <= m < s2.len(),
        s1.len() == s2.len(),
        box_tight(s1, lo, m, n.min_corner, n.max_corner),
        forall|k: int| lo <= k < m ==> s2[k] == s1[k],
        s2[m] == o,
        obj_wf(o),
        obj_supported(o),
        vec_in_range(n.min_corner),
        vec_in_range(n.max_corner),
    ensures
        box_tight(
            s2,
            lo,
            m + 1,
            grown_by_object(n, o).min_corner,
            grown_by_object(n, o).max_corner,
        ),
{
    let n2 = grown_by_object(n, o);
    lemma_grow_object_effect(n, o);
    reveal(crate::bvh::box_covers);
    reveal(crate::bvh::box_hit);

    assert forall|k: int, j: int| lo <= k < m + 1 && 0 <= j < obj_pt_count(s2[k]) implies in_box(
        #[trigger] obj_pt(s2[k], j),
        n2.min_corner,
        n2.max_corner,
    ) by {
        if k < m {
            assert(s2[k] == s1[k]);
            assert(in_box(obj_pt(s1[k], j), n.min_corner, n.max_corner));
        }
    }
    assert forall|a: int| 0 <= a < 3 implies (box_hit(
        s2,
        lo,
        m + 1,
        a,
        #[trigger] axis_of(n2.min_corner, a),
    ) || axis_of(n2.min_corner, a) == COORD_LIMIT as int) by {
        if axis_of(n2.min_corner, a) == axis_of(n.min_corner, a) {
            if box_hit(s1, lo, m, a, axis_of(n.min_corner, a)) {
                let (k, j) = choose|k: int, j: int|
                    lo <= k < m && 0 <= j < obj_pt_count(s1[k]) && axis_of(
                        #[trigger] obj_pt(s1[k], j),
                        a,
                    ) == axis_of(n.min_corner, a);
                assert(s2[k] == s1[k]);
                assert(axis_of(obj_pt(s2[k], j), a) == axis_of(n2.min_corner, a));
            }
        } else {
            let j = choose|j: int|
                0 <= j < obj_pt_count(o) && axis_of(#[trigger] obj_pt(o, j), a) == axis_of(
                    n2.min_corner,
                    a,
                );
            assert(axis_of(obj_pt(s2[m], j), a) == axis_of(n2.min_corner, a));
        }
    }
    assert forall|a: int| 0 <= a < 3 implies (box_hit(
        s2,
        lo,
        m + 1,
        a,
        #[trigger] axis_of(n2.max_corner, a),
    ) || axis_of(n2.max_corner, a) == -(COORD_LIMIT as int)) by {
        if axis_of(n2.max_corner, a) == axis_of(n.max_corner, a) {
            if box_hit(s1, lo, m, a, axis_of(n.max_corner, a)) {
                let (k, j) = choose|k: int, j: int|
                    lo <= k < m && 0 <= j < obj_pt_count(s1[k]) && axis_of(
                        #[trigger] obj_pt(s1[k], j),
                        a,
                    ) == axis_of(n.max_corner, a);
                assert(s2[k] == s1[k]);
                assert(axis_of(obj_pt(s2[k], j), a) == axis_of(n2.max_corner, a));
            }
        } else {
            let j = choose|j: int|
                0 <= j < obj_pt_count(o) && axis_of(#[trigger] obj_pt(o, j), a) == axis_of(
                    n2.max_corner,
                    a,
                );
            assert(axis_of(obj_pt(s2[m], j), a) == axis_of(n2.max_corner, a));
        }
    }
}

/// A tight box stays tight when the entries of its range are unchanged.
pub proof fn lemma_tight_frame(s1: Seq<Object>, s2: Seq<Object>, lo: int, hi: int, bmin: Vec3, bmax: Vec3)
    requires
        box_tight(s1, lo, hi, bmin, bmax),
        forall|k: int| lo <= k < hi ==> s2[k] == s1[k],
    ensures
        box_tight(s2, lo, hi, bmin, bmax),
{
    reveal(crate::bvh::box_covers);
    reveal(crate::bvh::box_hit);

    assert forall|k: int, j: int| lo <= k < hi && 0 <= j < obj_pt_count(s2[k]) implies in_box(
        #[trigger] obj_pt(s2[k], j),
        bmin,
        bmax,
    ) by {
        assert(s2[k] == s1[k]);
        assert(in_box(obj_pt(s1[k], j), bmin, bmax));
    }
    assert forall|a: int| 0 <= a < 3 implies (box_hit(s2, lo, hi, a, #[trigger] axis_of(bmin, a))
        || axis_of(bmin, a) == COORD_LIMIT as int) by {
        if box_hit(s1, lo, hi, a, axis_of(bmin, a)) {
            let (k, j) = choose|k: int, j: int|
                lo <= k < hi && 0 <= j < obj_pt_count(s1[k]) && axis_of(
                    #[trigger] obj_pt(s1[k], j),
                    a,
                ) == axis_of(bmin, a);
            assert(s2[k] == s1[k]);
            assert(axis_of(obj_pt(s2[k], j), a) == axis_of(bmin, a));
        }
    }
    assert forall|a: int| 0 <= a < 3 implies (box_hit(s2, lo, hi, a, #[trigger] axis_of(bmax, a))
        || axis_of(bmax, a) == -(COORD_LIMIT as int)) by {
        if box_hit(s1, lo, hi, a, axis_of(bmax, a)) {
            let (k, j) = choose|k: int, j: int|
                lo <= k < hi && 0 <= j < obj_pt_count(s1[k]) && axis_of(
                    #[trigger] obj_pt(s1[k], j),
                    a,
                ) == axis_of(bmax, a);
            assert(s2[k] == s1[k]);
            assert(axis_of(obj_pt(s2[k], j), a) == axis_of(bmax, a));
        }
    }
}

/// A tight box stays tight when its range slides one slot to the right after
/// the swap that placed a new primitive in front of it: the first element of
/// the old range reappears at the end of the new one.
pub proof fn lemma_tight_rotate(s1: Seq<Object>, s2: Seq<Object>, lo: int, hi: int, bmin: Vec3, bmax: Vec3)
    requires
        0 <= lo <= hi < s2.len(),
        box_tight(s1, lo, hi, bmin, bmax),
        forall|t: int| lo + 1 <= t < hi ==> s2[t] == s1[t],
        s2[hi] == s1[lo],
    ensures
        box_tight(s2, lo + 1, hi + 1, bmin, bmax),
{
    reveal(crate::bvh::box_covers);
    reveal(crate::bvh::box_hit);

    assert forall|k: int, j: int| lo + 1 <= k < hi + 1 && 0 <= j < obj_pt_count(s2[k]) implies
        in_box(#[trigger] obj_pt(s2[k], j), bmin, bmax) by {
        if k == hi {
            assert(s2[k] == s1[lo]);
            assert(in_box(obj_pt(s1[lo], j), bmin, bmax));
        } else {
            assert(s2[k] == s1[k]);
            assert(in_box(obj_pt(s1[k], j), bmin, bmax));
        }
    }
    assert forall|a: int| 0 <= a < 3 implies (box_hit(
        s2,
        lo + 1,
        hi + 1,
        a,
        #[trigger] axis_of(bmin, a),
    ) || axis_of(bmin, a) == COORD_LIMIT as int) by {
        if box_hit(s1, lo, hi, a, axis_of(bmin, a)) {
            let (k, j) = choose|k: int, j: int|
                lo <= k < hi && 0 <= j < obj_pt_count(s1[k]) && axis_of(
                    #[trigger] obj_pt(s1[k], j),
                    a,
                ) == axis_of(bmin, a);
            if k == lo {
                assert(axis_of(obj_pt(s2[hi], j), a) == axis_of(bmin, a));
            } else {
                assert(axis_of(obj_pt(s2[k], j), a) == axis_of(bmin, a));
            }
        }
    }
    assert forall|a: int| 0 <= a < 3 implies (box_hit(
        s2,
        lo + 1,
        hi + 1,
        a,
        #[trigger] axis_of(bmax, a),
    ) || axis_of(bmax, a) == -(COORD_LIMIT as int)) by {
        if box_hit(s1, lo, hi, a, axis_of(bmax, a)) {
            let (k, j) = choose|k: int, j: int|
                lo <= k < hi && 0 <= j < obj_pt_count(s1[k]) && axis_of(
                    #[trigger] obj_pt(s1[k], j),
                    a,
                ) == axis_of(bmax, a);
            if k == lo {
                assert(axis_of(obj_pt(s2[hi], j), a) == axis_of(bmax, a));
            } else {
                assert(axis_of(obj_pt(s2[k], j), a) == axis_of(bmax, a));
            }
        }
    }
}

/// Side-classified tightness extends over the next primitive when it falls on
/// the box's side of the plane and the box is grown by it.
pub proof fn lemma_cls_tight_extend(
    s: Seq<Object>,
    lo: int,
    i: int,
    axis: int,
    split_pos: int,
    side: bool,
    n: Node,
)
    requires
        0 <= lo <= i < s.len(),
        cls_tight(s, lo, i, axis, split_pos, side, n.min_corner, n.max_corner),
        on_side(s[i], axis, split_pos, side),
        obj_wf(s[i]),
        obj_supported(s[i]),
        vec_in_range(n.min_corner),
        vec_in_range(n.max_corner),
    ensures
        cls_tight(
            s,
            lo,
            i + 1,
            axis,
            split_pos,
            side,
            grown_by_object(n, s[i]).min_corner,
            grown_by_object(n, s[i]).max_corner,
        ),
{
    let o = s[i];
    let n2 = grown_by_object(n, o);
    lemma_grow_object_effect(n, o);
    reveal(crate::bvh::cls_covers);
    reveal(crate::bvh::cls_hit);

    assert forall|k: int, j: int|
        lo <= k < i + 1 && on_side(s[k], axis, split_pos, side) && 0 <= j < obj_pt_count(s[k])
        implies in_box(#[trigger] obj_pt(s[k], j), n2.min_corner, n2.max_corner) by {
        if k < i {
            assert(in_box(obj_pt(s[k], j), n.min_corner, n.max_corner));
        }
    }
    assert forall|a: int| 0 <= a < 3 implies (cls_hit(
        s,
        lo,
        i + 1,
        axis,
        split_pos,
        side,
        a,
        #[trigger] axis_of(n2.min_corner, a),
    ) || axis_of(n2.min_corner, a) == COORD_LIMIT as int) by {
        if axis_of(n2.min_corner, a) == axis_of(n.min_corner, a) {
            if cls_hit(s, lo, i, axis, split_pos, side, a, axis_of(n.min_corner, a)) {
                let (k, j) = choose|k: int, j: int|
                    lo <= k < i && on_side(s[k], axis, split_pos, side) && 0 <= j < obj_pt_count(
                        s[k],
                    ) && axis_of(#[trigger] obj_pt(s[k], j), a) == axis_of(n.min_corner, a);
                assert(axis_of(obj_pt(s[k], j), a) == axis_of(n2.min_corner, a));
            }
        } else {
            let j = choose|j: int|
                0 <= j < obj_pt_count(o) && axis_of(#[trigger] obj_pt(o, j), a) == axis_of(
                    n2.min_corner,
                    a,
                );
            assert(axis_of(obj_pt(s[i], j), a) == axis_of(n2.min_corner, a));
        }
    }
    assert forall|a: int| 0 <= a < 3 implies (cls_hit(
        s,
        lo,
        i + 1,
        axis,
        split_pos,
        side,
        a,
        #[trigger] axis_of(n2.max_corner, a),
    ) || axis_of(n2.max_corner, a) == -(COORD_LIMIT as int)) by {
        if axis_of(n2.max_corner, a) == axis_of(n.max_corner, a) {
            if cls_hit(s, lo, i, axis, split_pos, side, a, axis_of(n.max_corner, a)) {
                let (k, j) = choose|k: int, j: int|
                    lo <= k < i && on_side(s[k], axis, split_pos, side) && 0 <= j < obj_pt_count(
                        s[k],
                    ) && axis_of(#[trigger] obj_pt(s[k], j), a) == axis_of(n.max_corner, a);
                assert(axis_of(obj_pt(s[k], j), a) == axis_of(n2.max_corner, a));
            }
        } else {
            let j = choose|j: int|
                0 <= j < obj_pt_count(o) && axis_of(#[trigger] obj_pt(o, j), a) == axis_of(
                    n2.max_corner,
                    a,
                );
            assert(axis_of(obj_pt(s[i], j), a) == axis_of(n2.max_corner, a));
        }
    }
}

/// Side-classified tightness extends unchanged over a primitive on the other
/// side of the plane.
pub proof fn lemma_cls_tight_skip(
    s: Seq<Object>,
    lo: int,
    i: int,
    axis: int,
    split_pos: int,
    side: bool,
    bmin: Vec3,
    bmax: Vec3,
)
    requires
        0 <= lo <= i < s.len(),
        cls_tight(s, lo, i, axis, split_pos, side, bmin, bmax),
        !on_side(s[i], axis, split_pos, side),
    ensures
        cls_tight(s, lo, i + 1, axis, split_pos, side, bmin, bmax),
{
    reveal(crate::bvh::cls_covers);
    reveal(crate::bvh::cls_hit);

    assert forall|a: int| 0 <= a < 3 implies (cls_hit(
        s,
        lo,
        i + 1,
        axis,
        split_pos,
        side,
        a,
        #[trigger] axis_of(bmin, a),
    ) || axis_of(bmin, a) == COORD_LIMIT as int) by {
        if cls_hit(s, lo, i, axis, split_pos, side, a, axis_of(bmin, a)) {
            let (k, j) = choose|k: int, j: int|
                lo <= k < i && on_side(s[k], axis, split_pos, side) && 0 <= j < obj_pt_count(s[k])
                    && axis_of(#[trigger] obj_pt(s[k], j), a) == axis_of(bmin, a);
            assert(lo <= k < i + 1 && on_side(s[k], axis, split_pos, side) && 0 <= j
                < obj_pt_count(s[k]) && axis_of(obj_pt(s[k], j), a) == axis_of(bmin, a));
        }
    }
    assert forall|a: int| 0 <= a < 3 implies (cls_hit(
        s,
        lo,
        i + 1,
        axis,
        split_pos,
        side,
        a,
        #[trigger] axis_of(bmax, a),
    ) || axis_of(bmax, a) == -(COORD_LIMIT as int)) by {
        if cls_hit(s, lo, i, axis, split_pos, side, a, axis_of(bmax, a)) {
            let (k, j) = choose|k: int, j: int|
                lo <= k < i && on_side(s[k], axis, split_pos, side) && 0 <= j < obj_pt_count(s[k])
                    && axis_of(#[trigger] obj_pt(s[k], j), a) == axis_of(bmax, a);
            assert(lo <= k < i + 1 && on_side(s[k], axis, split_pos, side) && 0 <= j
                < obj_pt_count(s[k]) && axis_of(obj_pt(s[k], j), a) == axis_of(bmax, a));
        }
    }
}

/// A parent box that is tight over a range equals the componentwise union of
/// two boxes that are tight over the two sides of any split plane of that range.
pub proof fn lemma_cls_union(
    s: Seq<Object>,
    lo: int,
    hi: int,
    axis: int,
    split_pos: int,
    pmin: Vec3,
    pmax: Vec3,
    amin: Vec3,
    amax: Vec3,
    bmin: Vec3,
    bmax: Vec3,
)
    requires
        box_tight(s, lo, hi, pmin, pmax),
        cls_tight(s, lo, hi, axis, split_pos, true, amin, amax),
        cls_tight(s, lo, hi, axis, split_pos, false, bmin, bmax),
        vec_in_range(pmin),
        vec_in_range(pmax),
        vec_in_range(amin),
        vec_in_range(amax),
        vec_in_range(bmin),
        vec_in_range(bmax),
    ensures
        pmin == component_min(amin, bmin),
        pmax == component_max(amax, bmax),
{
    reveal(crate::bvh::box_covers);
    reveal(crate::bvh::box_hit);
    reveal(crate::bvh::cls_covers);
    reveal(crate::bvh::cls_hit);

    assert forall|a: int| 0 <= a < 3 implies #[trigger] axis_of(pmin, a) == (if axis_of(amin, a)
        <= axis_of(bmin, a) {
        axis_of(amin, a)
    } else {
        axis_of(bmin, a)
    }) by {
        // each child's min is at least the parent's min
        if axis_of(amin, a) != COORD_LIMIT as int {
            let (k, j) = choose|k: int, j: int|
                lo <= k < hi && on_side(s[k], axis, split_pos, true) && 0 <= j < obj_pt_count(s[k])
                    && axis_of(#[trigger] obj_pt(s[k], j), a) == axis_of(amin, a);
            assert(in_box(obj_pt(s[k], j), pmin, pmax));
        }
        if axis_of(bmin, a) != COORD_LIMIT as int {
            let (k, j) = choose|k: int, j: int|
                lo <= k < hi && on_side(s[k], axis, split_pos, false) && 0 <= j < obj_pt_count(
                    s[k],
                ) && axis_of(#[trigger] obj_pt(s[k], j), a) == axis_of(bmin, a);
            assert(in_box(obj_pt(s[k], j), pmin, pmax));
        }
        // the parent's min is attained on one of the two sides
        if axis_of(pmin, a) != COORD_LIMIT as int {
            let (k, j) = choose|k: int, j: int|
                lo <= k < hi && 0 <= j < obj_pt_count(s[k]) && axis_of(
                    #[trigger] obj_pt(s[k], j),
                    a,
                ) == axis_of(pmin, a);
            if on_side(s[k], axis, split_pos, true) {
                assert(in_box(obj_pt(s[k], j), amin, amax));
            } else {
                assert(on_side(s[k], axis, split_pos, false));
                assert(in_box(obj_pt(s[k], j), bmin, bmax));
            }
        }
    }
    assert forall|a: int| 0 <= a < 3 implies #[trigger] axis_of(pmax, a) == (if axis_of(amax, a)
        >= axis_of(bmax, a) {
        axis_of(amax, a)
    } else {
        axis_of(bmax, a)
    }) by {
        if axis_of(amax, a) != -(COORD_LIMIT as int) {
            let (k, j) = choose|k: int, j: int|
                lo <= k < hi && on_side(s[k], axis, split_pos, true) && 0 <= j < obj_pt_count(s[k])
                    && axis_of(#[trigger] obj_pt(s[k], j), a) == axis_of(amax, a);
            assert(in_box(obj_pt(s[k], j), pmin, pmax));
        }
        if axis_of(bmax, a) != -(COORD_LIMIT as int) {
            let (k, j) = choose|k: int, j: int|
                lo <= k < hi && on_side(s[k], axis, split_pos, false) && 0 <= j < obj_pt_count(
                    s[k],
                ) && axis_of(#[trigger] obj_pt(s[k], j), a) == axis_of(bmax, a);
            assert(in_box(obj_pt(s[k], j), pmin, pmax));
        }
        if axis_of(pmax, a) != -(COORD_LIMIT as int) {
            let (k, j) = choose|k: int, j: int|
                lo <= k < hi && 0 <= j < obj_pt_count(s[k]) && axis_of(
                    #[trigger] obj_pt(s[k], j),
                    a,
                ) == axis_of(pmax, a);
            if on_side(s[k], axis, split_pos, true) {
                assert(in_box(obj_pt(s[k], j), amin, amax));
            } else {
                assert(on_side(s[k], axis, split_pos, false));
                assert(in_box(obj_pt(s[k], j), bmin, bmax));
            }
        }
    }
    assert(axis_of(pmin, 0) == pmin.x as int && axis_of(pmin, 1) == pmin.y as int && axis_of(
        pmin,
        2,
    ) == pmin.z as int);
    assert(pmin == component_min(amin, bmin));
    assert(axis_of(pmax, 0) == pmax.x as int && axis_of(pmax, 1) == pmax.y as int && axis_of(
        pmax,
        2,
    ) == pmax.z as int);
    assert(pmax == component_max(amax, bmax));
}

/// Over an empty range, the sentinel box is tight, plainly and on either
/// side of any split plane.
pub proof fn lemma_tight_empty(s: Seq<Object>, lo: int, axis: int, split_pos: int, bmin: Vec3, bmax: Vec3)
    requires
        bmin.x == COORD_LIMIT && bmin.y == COORD_LIMIT && bmin.z == COORD_LIMIT,
        bmax.x == -COORD_LIMIT && bmax.y == -COORD_LIMIT && bmax.z == -COORD_LIMIT,
    ensures
        box_tight(s, lo, lo, bmin, bmax),
        cls_tight(s, lo, lo, axis, split_pos, true, bmin, bmax),
        cls_tight(s, lo, lo, axis, split_pos, false, bmin, bmax),
{
    reveal(crate::bvh::box_covers);
    reveal(crate::bvh::box_hit);
    reveal(crate::bvh::cls_covers);
    reveal(crate::bvh::cls_hit);
}

/// When a permutation moves entries only inside `[lo, hi)`, the multiset of
/// that subrange is preserved too.
pub proof fn lemma_subrange_multiset_frame(s1: Seq<Object>, s2: Seq<Object>, lo: int, hi: int)
    requires
        0 <= lo <= hi <= s1.len(),
        s2.len() == s1.len(),
        s1.to_multiset() == s2.to_multiset(),
        forall|k: int| 0 <= k < s1.len() && !(lo <= k < hi) ==> #[trigger] s2[k] == s1[k],
    ensures
        s1.subrange(lo, hi).to_multiset() == s2.subrange(lo, hi).to_multiset(),
{
    broadcast use vstd::multiset::group_multiset_axioms;

    let p1 = s1.subrange(0, lo);
    let m1 = s1.subrange(lo, hi);
    let e1 = s1.subrange(hi, s1.len() as int);
    let p2 = s2.subrange(0, lo);
    let m2 = s2.subrange(lo, hi);
    let e2 = s2.subrange(hi, s2.len() as int);
    assert(s1 =~= (p1 + m1) + e1);
    assert(s2 =~= (p2 + m2) + e2);
    assert(p1 =~= p2);
    assert(e1 =~= e2);
    lemma_multiset_commutative(p1 + m1, e1);
    lemma_multiset_commutative(p1, m1);
    lemma_multiset_commutative(p2 + m2, e2);
    lemma_multiset_commutative(p2, m2);
    assert forall|x: Object| m1.to_multiset().count(x) == m2.to_multiset().count(x) by {
        assert(s1.to_multiset().count(x) == p1.to_multiset().count(x) + m1.to_multiset().count(x)
            + e1.to_multiset().count(x));
        assert(s2.to_multiset().count(x) == p2.to_multiset().count(x) + m2.to_multiset().count(x)
            + e2.to_multiset().count(x));
    }
    assert(m1.to_multiset() =~= m2.to_multiset());
}

/// A side classification that holds of every primitive in a subrange holds
/// again after any permutation of that subrange.
pub proof fn lemma_sides_preserved(
    s1: Seq<Object>,
    s2: Seq<Object>,
    lo: int,
    hi: int,
    axis: int,
    split_pos: int,
    side: bool,
)
    requires
        0 <= lo <= hi <= s1.len(),
        s2.len() == s1.len(),
        s1.subrange(lo, hi).to_multiset() == s2.subrange(lo, hi).to_multiset(),
        forall|k: int| lo <= k < hi ==> on_side(#[trigger] s1[k], axis, split_pos, side),
    ensures
        forall|k: int| lo <= k < hi ==> on_side(#[trigger] s2[k], axis, split_pos, side),
{
    broadcast use group_to_multiset_ensures;

    let sub1 = s1.subrange(lo, hi);
    let sub2 = s2.subrange(lo, hi);
    assert forall|k: int| lo <= k < hi implies on_side(
        #[trigger] s2[k],
        axis,
        split_pos,
        side,
    ) by {
        assert(sub2[k - lo] == s2[k]);
        assert(sub2.contains(s2[k]));
        assert(sub1.to_multiset().count(s2[k]) > 0);
        assert(sub1.contains(s2[k]));
        let j = choose|j: int| 0 <= j < sub1.len() && sub1[j] == s2[k];
        assert(sub1[j] == s1[lo + j]);
        assert(on_side(s1[lo + j], axis, split_pos, side));
    }
}

/// Swapping two entries of a sequence preserves its multiset of elements.
pub proof fn lemma_swap_multiset(s: Seq<Object>, i: int, j: int)
    requires
        0 <= i < s.len(),
        0 <= j < s.len(),
    ensures
        s.update(i, s[j]).update(j, s[i]).to_multiset() == s.to_multiset(),
{
    broadcast use group_to_multiset_ensures;
    broadcast use vstd::multiset::group_multiset_axioms;

    let a = s[j];
    let b = s[i];
    let u1 = s.update(i, a);
    let u2 = u1.update(j, b);
    assert(u1[j] == a);
    assert(s.contains(b)) by {
        assert(s[i] == b);
    }
    assert(u1.contains(a)) by {
        assert(u1[i] == a);
    }
    vstd::seq_lib::to_multiset_update(s, i, a);
    vstd::seq_lib::to_multiset_update(u1, j, b);
    assert(u2.to_multiset() =~= s.to_multiset());
}

/// Structural soundness only reads the root and the entries at or above the
/// floor, so it survives any change below the floor and any extension.
pub proof fn lemma_subtree_frame(n1: Seq<Node>, n2: Seq<Node>, i: int, d: nat, floor: int)
    requires
        subtree_ok(n1, i, d, floor),
        n1.len() <= n2.len(),
        n2[i] == n1[i],
        forall|k: int| floor <= k < n1.len() ==> n2[k] == n1[k],
    ensures
        subtree_ok(n2, i, d, floor),
    decreases d,
{
    if n1[i].child_index != 0 {
        let c = n1[i].child_index as int;
        assert(n2[c] == n1[c]);
        assert(n2[c + 1] == n1[c + 1]);
        lemma_subtree_frame(n1, n2, c, (d - 1) as nat, c + 2);
        lemma_subtree_frame(n1, n2, c + 1, (d - 1) as nat, c + 2);
    }
}

/// Structural soundness with a higher floor implies it with a lower one.
pub proof fn lemma_subtree_floor(nodes: Seq<Node>, i: int, d: nat, f1: int, f2: int)
    requires
        subtree_ok(nodes, i, d, f2),
        f1 <= f2,
    ensures
        subtree_ok(nodes, i, d, f1),
{
}

pub proof fn lemma_two_pow_pos(n: nat)
    ensures
        two_pow(n) >= 1,
    decreases n,
{
    if n > 0 {
        lemma_two_pow_pos((n - 1) as nat);
    }
}

/// What `split` relies on: a well-formed scene, a depth within budget, room in
/// the node array for the whole subtree, and a well-formed unsplit node whose
/// box is tight over its primitive range.
pub open spec fn split_pre(data: RayMarcherData, index: int, depth: int) -> bool {
    &&& scene_wf(data.scene@)
    &&& 0 <= depth <= MAX_DEPTH as int
    &&& 0 <= index < data.bvh@.len()
    &&& data.bvh@.len() + two_pow((MAX_DEPTH as int - depth + 1) as nat) - 2 <= u32::MAX
    &&& node_wf(data.bvh@[index], data.scene@.len() as int)
    &&& data.bvh@[index].child_index == 0
    &&& box_tight(
        data.scene@,
        range_lo(data.bvh@[index]),
        range_hi(data.bvh@[index]),
        data.bvh@[index].min_corner,
        data.bvh@[index].max_corner,
    )
}

/// What `split` guarantees: frames on both arrays, failure exactly on an
/// unsupported tag, and on success a structurally sound subtree whose touched
/// leaves are tight and partition the node's range, with every split node's
/// box the union of its children's.
pub open spec fn split_post(
    pre: RayMarcherData,
    post: RayMarcherData,
    index: int,
    depth: int,
    res: Result<(), BvhError>,
) -> bool {
    let n0 = pre.bvh@[index];
    let lo = range_lo(n0);
    let hi = range_hi(n0);
    let len0 = pre.bvh@.len() as int;
    &&& scene_wf(post.scene@)
    &&& scene_frame(pre.scene@, post.scene@, lo, hi)
    &&& nodes_frame(pre.bvh@, post.bvh@, index)
    &&& post.camera == pre.camera
    &&& (depth == MAX_DEPTH as int ==> post.bvh@ == pre.bvh@ && post.scene@ == pre.scene@)
    &&& ((forall|k: int| lo <= k < hi ==> obj_supported(#[trigger] pre.scene@[k])) ==> res is Ok)
    &&& match res {
        Result::Ok(u) => {
            &&& (depth < MAX_DEPTH as int ==> forall|k: int|
                lo <= k < hi ==> obj_supported(#[trigger] post.scene@[k]))
            &&& (depth < MAX_DEPTH as int ==> split_children_ok(pre, post, index))
            &&& leaves_partition(post.bvh@, post.scene@, index, len0, lo, hi)
            &&& subtree_ok(post.bvh@, index, (MAX_DEPTH as int - depth) as nat, len0)
            &&& post.bvh@.len() <= len0 + two_pow((MAX_DEPTH as int - depth + 1) as nat) - 2
            &&& union_ok(post.bvh@, index, len0)
        },
        Result::Err(e) => {
            &&& e == BvhError::UnsupportedPrimitiveType
            &&& post.bvh@ == pre.bvh@
            &&& exists|k: int| lo <= k < hi && !obj_supported(#[trigger] post.scene@[k])
        },
    }
}

/// The failing outcome of `split`: its whole contract follows from the frames
/// and one unsupported primitive inside the node's range.
pub proof fn lemma_split_err(
    pre: RayMarcherData,
    post: RayMarcherData,
    index: int,
    depth: int,
    w: int,
)
    requires
        0 <= index < pre.bvh@.len(),
        0 <= depth < MAX_DEPTH as int,
        post.bvh@ == pre.bvh@,
        post.camera == pre.camera,
        scene_wf(post.scene@),
        post.scene@.len() == pre.scene@.len(),
        post.scene@.to_multiset() == pre.scene@.to_multiset(),
        forall|k: int|
            0 <= k < pre.scene@.len() && !(range_lo(pre.bvh@[index]) <= k < range_hi(
                pre.bvh@[index],
            )) ==> #[trigger] post.scene@[k] == pre.scene@[k],
        range_lo(pre.bvh@[index]) <= w < range_hi(pre.bvh@[index]),
        !obj_supported(post.scene@[w]),
        !obj_supported(pre.scene@[w]),
    ensures
        split_post(pre, post, index, depth, Err(BvhError::UnsupportedPrimitiveType)),
{
    assert(nodes_frame(pre.bvh@, post.bvh@, index));
    assert(scene_frame(pre.scene@, post.scene@, range_lo(pre.bvh@[index]), range_hi(pre.bvh@[index])));
}

/// Everything that holds when the partition step has turned `pre0` into
/// `pre1` (children appended, parent pointed at them) and the two recursive
/// calls have turned `pre1` into `post1` and `post1` into `post2`.
pub open spec fn stitch_pre(
    pre0: RayMarcherData,
    pre1: RayMarcherData,
    post1: RayMarcherData,
    post2: RayMarcherData,
    index: int,
    depth: int,
    node: Node,
    parent: Node,
    child_a: Node,
    child_b: Node,
) -> bool {
    &&& split_pre(pre0, index, depth)
    &&& depth < MAX_DEPTH as int
    &&& node == pre0.bvh@[index]
    &&& parent.child_index as int == pre0.bvh@.len()
    &&& parent.min_corner == node.min_corner
    &&& parent.max_corner == node.max_corner
    &&& parent.centre == node.centre
    &&& parent.object_index == node.object_index
    &&& parent.object_count == node.object_count
    &&& pre1.bvh@.len() == pre0.bvh@.len() + 2
    &&& forall|j: int|
        0 <= j < pre0.bvh@.len() && j != index ==> #[trigger] pre1.bvh@[j] == pre0.bvh@[j]
    &&& pre1.bvh@[index] == parent
    &&& pre1.bvh@[pre0.bvh@.len() as int] == child_a
    &&& pre1.bvh@[pre0.bvh@.len() as int + 1] == child_b
    &&& pre1.scene@.len() == pre0.scene@.len()
    &&& scene_wf(pre1.scene@)
    &&& pre1.scene@.to_multiset() == pre0.scene@.to_multiset()
    &&& forall|k: int|
        0 <= k < pre0.scene@.len() && !(range_lo(node) <= k < range_hi(node))
            ==> #[trigger] pre1.scene@[k] == pre0.scene@[k]
    &&& pre1.camera == pre0.camera
    &&& child_a.object_index == node.object_index
    &&& child_a.child_index == 0
    &&& child_b.child_index == 0
    &&& child_a.object_count + child_b.object_count == node.object_count
    &&& child_b.object_index as int == range_lo(node) + child_a.object_count
    &&& node_wf(child_a, pre1.scene@.len() as int)
    &&& node_wf(child_b, pre1.scene@.len() as int)
    &&& forall|k: int|
        range_lo(node) <= k < range_lo(node) + child_a.object_count ==> obj_supported(
            #[trigger] pre1.scene@[k],
        )
    &&& forall|k: int|
        range_lo(node) + child_a.object_count <= k < range_hi(node) ==> obj_supported(
            #[trigger] pre1.scene@[k],
        )
    &&& node.min_corner == component_min(child_a.min_corner, child_b.min_corner)
    &&& node.max_corner == component_max(child_a.max_corner, child_b.max_corner)
    &&& split_post(pre1, post1, pre0.bvh@.len() as int, depth + 1, Ok(()))
    &&& split_post(post1, post2, pre0.bvh@.len() as int + 1, depth + 1, Ok(()))
    &&& split_children_ok(pre0, post2, index)
}

/// The frames of the whole split follow from the partition frame and the two
/// recursive frames, and the final scene keeps only supported primitives in
/// the node's range.
#[verifier::rlimit(100)]
#[verifier::spinoff_prover]
pub proof fn lemma_stitch_frames(
    pre0: RayMarcherData,
    pre1: RayMarcherData,
    post1: RayMarcherData,
    post2: RayMarcherData,
    index: int,
    depth: int,
    node: Node,
    parent: Node,
    child_a: Node,
    child_b: Node,
)
    requires
        stitch_pre(pre0, pre1, post1, post2, index, depth, node, parent, child_a, child_b),
    ensures
        scene_wf(post2.scene@),
        scene_frame(pre0.scene@, post2.scene@, range_lo(node), range_hi(node)),
        nodes_frame(pre0.bvh@, post2.bvh@, index),
        post2.camera == pre0.camera,
        forall|k: int|
            range_lo(node) <= k < range_hi(node) ==> obj_supported(#[trigger] post2.scene@[k]),
        post2.bvh@[index] == parent,
        post1.bvh@[index] == parent,
        post1.bvh@[pre0.bvh@.len() as int + 1] == child_b,
        range_lo(pre1.bvh@[pre0.bvh@.len() as int]) == range_lo(node),
        range_hi(pre1.bvh@[pre0.bvh@.len() as int]) == range_lo(node) + child_a.object_count,
        range_lo(post1.bvh@[pre0.bvh@.len() as int + 1]) == range_lo(node)
            + child_a.object_count,
        range_hi(post1.bvh@[pre0.bvh@.len() as int + 1]) == range_hi(node),
{
    let lo = range_lo(node);
    let hi = range_hi(node);
    let m = lo + child_a.object_count;
    let s0 = pre0.scene@;
    let s1 = pre1.scene@;
    let ci = pre0.bvh@.len() as int;
    let d1 = depth + 1;
    assert(post1.bvh@[index] == parent);
    assert(post2.bvh@[index] == parent);
    assert(post1.bvh@[ci + 1] == child_b);
    assert forall|k: int| 0 <= k < s0.len() && !(lo <= k < hi) implies #[trigger] post2.scene@[k]
        == s0[k] by {
        assert(s1[k] == s0[k]);
        assert(post1.scene@[k] == s1[k]);
        assert(post2.scene@[k] == post1.scene@[k]);
    }
    assert forall|j: int| 0 <= j < pre0.bvh@.len() && j != index implies #[trigger] post2.bvh@[j]
        == pre0.bvh@[j] by {
        assert(pre1.bvh@[j] == pre0.bvh@[j]);
        assert(post1.bvh@[j] == pre1.bvh@[j]);
        assert(post2.bvh@[j] == post1.bvh@[j]);
    }
    assert forall|k: int| lo <= k < hi implies obj_supported(#[trigger] post2.scene@[k]) by {
        if k < m {
            if d1 == MAX_DEPTH as int {
                assert(post1.scene@ == pre1.scene@);
            }
            assert(obj_supported(post1.scene@[k]));
            assert(post2.scene@[k] == post1.scene@[k]);
        } else {
            assert(post1.scene@[k] == s1[k]);
            if d1 == MAX_DEPTH as int {
                assert(post2.scene@ == post1.scene@);
            } else {
                assert(obj_supported(post2.scene@[k]));
            }
        }
    }
}

/// The touched leaves of the two recursive calls, taken together, partition
/// the split node's range.
#[verifier::rlimit(100)]
#[verifier::spinoff_prover]
pub proof fn lemma_stitch_leaves(
    pre0: RayMarcherData,
    pre1: RayMarcherData,
    post1: RayMarcherData,
    post2: RayMarcherData,
    index: int,
    depth: int,
    node: Node,
    parent: Node,
    child_a: Node,
    child_b: Node,
)
    requires
        stitch_pre(pre0, pre1, post1, post2, index, depth, node, parent, child_a, child_b),
    ensures
        leaves_partition(
            post2.bvh@,
            post2.scene@,
            index,
            pre0.bvh@.len() as int,
            range_lo(node),
            range_hi(node),
        ),
{
    let lo = range_lo(node);
    let hi = range_hi(node);
    let m = lo + child_a.object_count;
    let s0 = pre0.scene@;
    let len0 = pre0.bvh@.len() as int;
    let ci = len0;
    let len2 = post1.bvh@.len() as int;
    let nodes3 = post2.bvh@;
    let scene3 = post2.scene@;
    let len3 = nodes3.len() as int;
    reveal(crate::bvh::leaves_partition);
    reveal(crate::bvh::covered_by_leaf);
    lemma_stitch_frames(pre0, pre1, post1, post2, index, depth, node, parent, child_a, child_b);
    let g1 = leaves_partition(post1.bvh@, post1.scene@, ci, ci + 2, lo, m);
    let g2 = leaves_partition(nodes3, scene3, ci + 1, len2, m, hi);
    assert(g1);
    assert(g2);
    assert(len0 >= 1);
    assert forall|j: int| touched(j, index, len0, len3) && 0 <= j < len3 implies node_wf(
        #[trigger] nodes3[j],
        scene3.len() as int,
    ) by {
        if j == index {
            assert(node_wf(pre0.bvh@[index], s0.len() as int));
        } else if j == ci || (ci + 2 <= j < len2) {
            assert(touched(j, ci, ci + 2, len2));
            assert(node_wf(post1.bvh@[j], post1.scene@.len() as int));
            assert(nodes3[j] == post1.bvh@[j]);
        } else {
            assert(touched(j, ci + 1, len2, len3));
        }
    }
    assert forall|j: int|
        touched(j, index, len0, len3) && 0 <= j < len3 && is_leaf(nodes3, j) implies lo
        <= range_lo(nodes3[j]) && range_hi(nodes3[j]) <= hi && box_tight(
        scene3,
        range_lo(nodes3[j]),
        range_hi(nodes3[j]),
        nodes3[j].min_corner,
        nodes3[j].max_corner,
    ) by {
        if j == index {
            assert(nodes3[index] == parent);
            assert(nodes3[index].child_index as int == ci >= 1);
            assert(false);
        } else if j == ci || (ci + 2 <= j < len2) {
            assert(touched(j, ci, ci + 2, len2));
            assert(nodes3[j] == post1.bvh@[j]);
            assert(is_leaf(post1.bvh@, j));
            assert(lo <= range_lo(post1.bvh@[j]) && range_hi(post1.bvh@[j]) <= m);
            assert forall|k: int|
                range_lo(nodes3[j]) <= k < range_hi(nodes3[j]) implies #[trigger] scene3[k]
                == post1.scene@[k] by {}
            lemma_tight_frame(
                post1.scene@,
                scene3,
                range_lo(nodes3[j]),
                range_hi(nodes3[j]),
                nodes3[j].min_corner,
                nodes3[j].max_corner,
            );
        } else {
            assert(touched(j, ci + 1, len2, len3));
        }
    }
    assert forall|k: int| lo <= k < hi implies #[trigger] covered_by_leaf(
        nodes3,
        index,
        len0,
        k,
    ) by {
        if k < m {
            assert(covered_by_leaf(post1.bvh@, ci, ci + 2, k));
            let j = choose|j: int|
                #![trigger post1.bvh@[j]]
                touched(j, ci, ci + 2, len2) && 0 <= j < len2 && is_leaf(post1.bvh@, j)
                    && range_lo(post1.bvh@[j]) <= k < range_hi(post1.bvh@[j]);
            assert(nodes3[j] == post1.bvh@[j]);
            assert(touched(j, index, len0, len3));
            assert(is_leaf(nodes3, j) && range_lo(nodes3[j]) <= k < range_hi(nodes3[j]));
        } else {
            assert(covered_by_leaf(nodes3, ci + 1, len2, k));
            let j = choose|j: int|
                #![trigger nodes3[j]]
                touched(j, ci + 1, len2, len3) && 0 <= j < len3 && is_leaf(nodes3, j) && range_lo(
                    nodes3[j],
                ) <= k < range_hi(nodes3[j]);
            assert(touched(j, index, len0, len3));
        }
    }
    assert forall|j1: int, j2: int|
        touched(j1, index, len0, len3) && touched(j2, index, len0, len3) && 0 <= j1 < len3 && 0
            <= j2 < len3 && j1 != j2 && is_leaf(nodes3, j1) && is_leaf(nodes3, j2) implies (
    range_hi(nodes3[j1]) <= range_lo(nodes3[j2]) || range_hi(nodes3[j2]) <= range_lo(
        nodes3[j1],
    )) by {
        assert(j1 != index && j2 != index) by {
            assert(nodes3[index] == parent);
            assert(nodes3[index].child_index as int == ci >= 1);
        }
        let in_a1 = j1 == ci || (ci + 2 <= j1 < len2);
        let in_a2 = j2 == ci || (ci + 2 <= j2 < len2);
        if in_a1 && in_a2 {
            assert(touched(j1, ci, ci + 2, len2) && touched(j2, ci, ci + 2, len2));
            assert(nodes3[j1] == post1.bvh@[j1] && nodes3[j2] == post1.bvh@[j2]);
            assert(is_leaf(post1.bvh@, j1) && is_leaf(post1.bvh@, j2));
        } else if in_a1 && !in_a2 {
            assert(touched(j2, ci + 1, len2, len3));
            assert(nodes3[j1] == post1.bvh@[j1]);
            assert(is_leaf(post1.bvh@, j1));
            assert(range_hi(post1.bvh@[j1]) <= m);
            assert(m <= range_lo(nodes3[j2]));
        } else if !in_a1 && in_a2 {
            assert(touched(j1, ci + 1, len2, len3));
            assert(nodes3[j2] == post1.bvh@[j2]);
            assert(is_leaf(post1.bvh@, j2));
            assert(range_hi(post1.bvh@[j2]) <= m);
            assert(m <= range_lo(nodes3[j1]));
        } else {
            assert(touched(j1, ci + 1, len2, len3) && touched(j2, ci + 1, len2, len3));
        }
    }
}

/// The split node heads a structurally sound subtree within its depth budget,
/// and the node array has grown by at most the subtree bound.
#[verifier::rlimit(100)]
#[verifier::spinoff_prover]
pub proof fn lemma_stitch_structure(
    pre0: RayMarcherData,
    pre1: RayMarcherData,
    post1: RayMarcherData,
    post2: RayMarcherData,
    index: int,
    depth: int,
    node: Node,
    parent: Node,
    child_a: Node,
    child_b: Node,
)
    requires
        stitch_pre(pre0, pre1, post1, post2, index, depth, node, parent, child_a, child_b),
    ensures
        subtree_ok(post2.bvh@, index, (MAX_DEPTH as int - depth) as nat, pre0.bvh@.len() as int),
        post2.bvh@.len() <= pre0.bvh@.len() + two_pow(
            (MAX_DEPTH as int - depth + 1) as nat,
        ) - 2,
{
    let len0 = pre0.bvh@.len() as int;
    let ci = len0;
    let len2 = post1.bvh@.len() as int;
    let nodes3 = post2.bvh@;
    let len3 = nodes3.len() as int;
    let d1 = depth + 1;
    let e_budget = (MAX_DEPTH as int - depth + 1) as nat;
    let eb1 = (MAX_DEPTH as int - d1 + 1) as nat;
    lemma_two_pow_pos((e_budget - 2) as nat);
    assert(two_pow(e_budget) == 2 * two_pow((e_budget - 1) as nat));
    assert(two_pow((e_budget - 1) as nat) == 2 * two_pow((e_budget - 2) as nat));
    let sb1 = (MAX_DEPTH as int - d1) as nat;
    lemma_stitch_frames(pre0, pre1, post1, post2, index, depth, node, parent, child_a, child_b);
    assert(subtree_ok(post1.bvh@, ci, sb1, ci + 2));
    lemma_subtree_frame(post1.bvh@, nodes3, ci, sb1, ci + 2);
    assert(subtree_ok(nodes3, ci + 1, sb1, len2));
    lemma_subtree_floor(nodes3, ci + 1, sb1, ci + 2, len2);
    assert(nodes3[index] == parent);
    assert(subtree_ok(nodes3, index, (MAX_DEPTH as int - depth) as nat, len0));
    assert(len2 <= len0 + 2 + two_pow(eb1) - 2);
    assert(len3 <= len2 + two_pow(eb1) - 2);
    assert(eb1 == (e_budget - 1) as nat);
    assert(len3 <= len0 + two_pow(e_budget) - 2);
}

/// Every split node among the touched ones carries the exact union of its
/// children's boxes.
#[verifier::rlimit(100)]
#[verifier::spinoff_prover]
pub proof fn lemma_stitch_union(
    pre0: RayMarcherData,
    pre1: RayMarcherData,
    post1: RayMarcherData,
    post2: RayMarcherData,
    index: int,
    depth: int,
    node: Node,
    parent: Node,
    child_a: Node,
    child_b: Node,
)
    requires
        stitch_pre(pre0, pre1, post1, post2, index, depth, node, parent, child_a, child_b),
    ensures
        union_ok(post2.bvh@, index, pre0.bvh@.len() as int),
{
    let len0 = pre0.bvh@.len() as int;
    let ci = len0;
    let len2 = post1.bvh@.len() as int;
    let nodes3 = post2.bvh@;
    let len3 = nodes3.len() as int;
    reveal(crate::bvh::union_ok);
    reveal(crate::bvh::union_at);
    lemma_stitch_frames(pre0, pre1, post1, post2, index, depth, node, parent, child_a, child_b);
    assert forall|j: int|
        touched(j, index, len0, len3) && 0 <= j < len3 && !is_leaf(nodes3, j) implies union_at(
        nodes3,
        j,
        len0,
    ) by {
        if j == index {
            assert(nodes3[ci] == post1.bvh@[ci]);
            assert(post1.bvh@[ci].min_corner == child_a.min_corner);
            assert(post1.bvh@[ci].max_corner == child_a.max_corner);
            assert(nodes3[ci + 1].min_corner == child_b.min_corner) by {
                assert(post1.bvh@[ci + 1] == child_b);
            }
            assert(nodes3[ci + 1].max_corner == child_b.max_corner) by {
                assert(post1.bvh@[ci + 1] == child_b);
            }
            assert(nodes3[j] == parent);
            assert(nodes3[j].min_corner == component_min(
                nodes3[ci].min_corner,
                nodes3[ci + 1].min_corner,
            ));
        } else if j == ci || (ci + 2 <= j < len2) {
            assert(touched(j, ci, ci + 2, len2));
            assert(nodes3[j] == post1.bvh@[j]);
            assert(!is_leaf(post1.bvh@, j));
            assert(union_at(post1.bvh@, j, ci + 2));
            let cj = post1.bvh@[j].child_index as int;
            assert(nodes3[cj] == post1.bvh@[cj]);
            assert(nodes3[cj + 1] == post1.bvh@[cj + 1]);
        } else {
            assert(touched(j, ci + 1, len2, len3));
            assert(union_at(nodes3, j, len2));
        }
    }
}

/// The successful outcome of `split` below the depth limit, stitched together
/// from the partition step (`pre0` to `pre1`) and the two recursive calls
/// (`pre1` to `post1` to `post2`).
pub proof fn lemma_split_stitch(
    pre0: RayMarcherData,
    pre1: RayMarcherData,
    post1: RayMarcherData,
    post2: RayMarcherData,
    index: int,
    depth: int,
    node: Node,
    parent: Node,
    child_a: Node,
    child_b: Node,
)
    requires
        stitch_pre(pre0, pre1, post1, post2, index, depth, node, parent, child_a, child_b),
    ensures
        split_post(pre0, post2, index, depth, Ok(())),
{
    lemma_stitch_frames(pre0, pre1, post1, post2, index, depth, node, parent, child_a, child_b);
    lemma_stitch_leaves(pre0, pre1, post1, post2, index, depth, node, parent, child_a, child_b);
    lemma_stitch_structure(pre0, pre1, post1, post2, index, depth, node, parent, child_a, child_b);
    lemma_stitch_union(pre0, pre1, post1, post2, index, depth, node, parent, child_a, child_b);
}

/// The empty-box corner sitting above every in-range coordinate.
pub fn sentinel_lo() -> (v: Vec3)
    ensures
        v.x == COORD_LIMIT && v.y == COORD_LIMIT && v.z == COORD_LIMIT,
        vec_in_range(v),
{
    Vec3 { x: COORD_LIMIT, y: COORD_LIMIT, z: COORD_LIMIT }
}

/// The empty-box corner sitting below every in-range coordinate.
pub fn sentinel_hi() -> (v: Vec3)
    ensures
        v.x == -COORD_LIMIT && v.y == -COORD_LIMIT && v.z == -COORD_LIMIT,
        vec_in_range(v),
{
    Vec3 { x: -COORD_LIMIT, y: -COORD_LIMIT, z: -COORD_LIMIT }
}

/// The builder's state: the flat node array, the scene it partitions in
/// place, and the camera record passed through to the renderer.
#[derive(Clone)]
pub struct RayMarcherData {
    pub bvh: Vec<Node>,
    pub scene: Vec<Object>,
    pub camera: BvhCamera,
}

impl RayMarcherData {
    /// Exchange two scene entries.
    fn scene_swap(&mut self, i: usize, j: usize)
        requires
            i < old(self).scene@.len(),
            j < old(self).scene@.len(),
        ensures
            final(self).bvh == old(self).bvh,
            final(self).camera == old(self).camera,
            final(self).scene@.len() == old(self).scene@.len(),
            final(self).scene@[i as int] == old(self).scene@[j as int],
            final(self).scene@[j as int] == old(self).scene@[i as int],
            forall|t: int|
                0 <= t < old(self).scene@.len() && t != i && t != j ==> final(self).scene@[t]
                    == #[trigger] old(self).scene@[t],
            final(self).scene@.to_multiset() == old(self).scene@.to_multiset(),
    {
        let a = self.scene[i];
        let b = self.scene[j];
        self.scene[i] = b;
        self.scene[j] = a;
        proof {
            lemma_swap_multiset(old(self).scene@, i as int, j as int);
        }
    }

    /// Split the node at `index` sitting at `depth`: partition its primitive
    /// range about the midpoint of its largest axis, append the two children,
    /// and recurse into them until the depth budget runs out.  Fails only when
    /// a primitive in the range carries an unsupported type tag.
    #[verifier::rlimit(100)]
    pub fn split(&mut self, index: u32, depth: i32) -> (res: Result<(), BvhError>)
        requires
            split_pre(*old(self), index as int, depth as int),
        ensures
            split_post(*old(self), *final(self), index as int, depth as int, res),
        decreases MAX_DEPTH - depth,
    {
        let ghost pre0 = *old(self);
        let ghost lo = range_lo(pre0.bvh@[index as int]);
        let ghost hi = range_hi(pre0.bvh@[index as int]);
        if depth == MAX_DEPTH {
            proof {
                reveal(crate::bvh::leaves_partition);
                reveal(crate::bvh::covered_by_leaf);
                reveal(crate::bvh::union_ok);
                assert forall|k: int| lo <= k < hi implies #[trigger] covered_by_leaf(
                    self.bvh@,
                    index as int,
                    pre0.bvh@.len() as int,
                    k,
                ) by {
                    assert(touched(
                        index as int,
                        index as int,
                        pre0.bvh@.len() as int,
                        self.bvh@.len() as int,
                    ));
                    assert(self.bvh@[index as int] == pre0.bvh@[index as int]);
                }
                lemma_two_pow_pos((MAX_DEPTH as int - depth as int) as nat);
            }
            return Ok(());
        }
        let index_us = index as usize;
        let node = self.bvh[index_us];
        let size_x = node.max_corner.x - node.min_corner.x;
        let size_y = node.max_corner.y - node.min_corner.y;
        let size_z = node.max_corner.z - node.min_corner.z;
        let axis: usize = if size_x > size_y && size_x > size_z {
            0
        } else if size_y > size_z {
            1
        } else {
            2
        };
        let split_pos = axis_value(&node.centre, axis);
        let ghost ax = axis as int;
        let ghost sp = split_pos as int;
        let ghost s0 = pre0.scene@;
        let mut child_a = Node::new(sentinel_hi(), sentinel_lo(), node.object_index, 0);
        let mut child_b = Node::new(sentinel_hi(), sentinel_lo(), node.object_index, 0);
        let lo_idx = node.object_index;
        let hi_idx = node.object_index + node.object_count;
        proof {
            lemma_tight_empty(
                self.scene@,
                lo,
                ax,
                sp,
                child_a.min_corner,
                child_a.max_corner,
            );
        }
        let mut i = lo_idx;
        while i < hi_idx
            invariant
                split_pre(pre0, index as int, depth as int),
                *old(self) == pre0,
                depth < MAX_DEPTH,
                node == pre0.bvh@[index as int],
                lo == lo_idx as int,
                hi == hi_idx as int,
                lo == node.object_index as int,
                hi == node.object_index + node.object_count,
                hi_idx as int == lo + node.object_count,
                ax == axis as int,
                sp == split_pos as int,
                lo <= i as int <= hi,
                hi <= self.scene@.len(),
                s0 == pre0.scene@,
                self.bvh@ == pre0.bvh@,
                self.camera == pre0.camera,
                self.scene@.len() == s0.len(),
                scene_wf(self.scene@),
                self.scene@.to_multiset() == s0.to_multiset(),
                forall|k: int|
                    0 <= k < s0.len() && !(lo <= k < hi) ==> #[trigger] self.scene@[k] == s0[k],
                forall|k: int| i as int <= k < hi ==> #[trigger] self.scene@[k] == s0[k],
                child_a.object_index == lo_idx,
                child_a.child_index == 0,
                child_b.child_index == 0,
                child_a.object_count as int + child_b.object_count as int == i as int - lo,
                child_b.object_index as int == lo + child_a.object_count as int,
                vec_in_range(child_a.min_corner),
                vec_in_range(child_a.max_corner),
                vec_in_range(child_b.min_corner),
                vec_in_range(child_b.max_corner),
                child_a.centre == centre_of(child_a.min_corner, child_a.max_corner),
                child_b.centre == centre_of(child_b.min_corner, child_b.max_corner),
                forall|k: int|
                    lo <= k < lo + child_a.object_count as int ==> obj_supported(
                        #[trigger] self.scene@[k],
                    ) && on_side(self.scene@[k], ax, sp, true),
                forall|k: int|
                    lo + child_a.object_count as int <= k < i as int ==> obj_supported(
                        #[trigger] self.scene@[k],
                    ) && on_side(self.scene@[k], ax, sp, false),
                box_tight(
                    self.scene@,
                    lo,
                    lo + child_a.object_count as int,
                    child_a.min_corner,
                    child_a.max_corner,
                ),
                box_tight(
                    self.scene@,
                    lo + child_a.object_count as int,
                    i as int,
                    child_b.min_corner,
                    child_b.max_corner,
                ),
                cls_tight(s0, lo, i as int, ax, sp, true, child_a.min_corner, child_a.max_corner),
                cls_tight(s0, lo, i as int, ax, sp, false, child_b.min_corner, child_b.max_corner),
            decreases hi_idx - i,
        {
            let ghost s_head = self.scene@;
            let ghost m = lo + child_a.object_count as int;
            let obj = self.scene[i as usize];
            let pa = axis_value(&obj.pos, axis);
            if pa < split_pos {
                let ghost child_a_old = child_a;
                match child_a.grow_to_include_object(&obj) {
                    Ok(_) => {},
                    Err(e) => {
                        proof {
                            assert(self.scene@[i as int] == s0[i as int]);
                            lemma_split_err(pre0, *self, index as int, depth as int, i as int);
                        }
                        return Err(e);
                    },
                }
                child_a.object_count = child_a.object_count + 1;
                let swap_index = child_a.object_index + child_a.object_count - 1;
                self.scene_swap(i as usize, swap_index as usize);
                child_b.object_index = child_b.object_index + 1;
                proof {
                    let s2 = self.scene@;
                    assert(swap_index as int == m);
                    assert(s_head[i as int] == obj);
                    assert(s2[m] == obj);
                    lemma_tight_extend(s_head, s2, lo, m, child_a_old, obj);
                    lemma_tight_rotate(s_head, s2, m, i as int, child_b.min_corner, child_b.max_corner);
                    assert(s0[i as int] == obj);
                    assert(on_side(s0[i as int], ax, sp, true));
                    lemma_cls_tight_extend(s0, lo, i as int, ax, sp, true, child_a_old);
                    lemma_cls_tight_skip(
                        s0,
                        lo,
                        i as int,
                        ax,
                        sp,
                        false,
                        child_b.min_corner,
                        child_b.max_corner,
                    );
                    assert forall|k: int| 0 <= k < s2.len() implies obj_wf(#[trigger] s2[k]) by {
                        if k == m {
                            assert(s2[k] == s_head[i as int]);
                        } else if k == i as int {
                            assert(s2[k] == s_head[m]);
                        } else {
                            assert(s2[k] == s_head[k]);
                        }
                    }
                    assert forall|k: int| 0 <= k < s2.len() && !(lo <= k < hi) implies #[trigger] s2[k] == s0[k] by {
                        assert(s2[k] == s_head[k]);
                    }
                    assert forall|k: int| i as int + 1 <= k < hi implies #[trigger] s2[k] == s0[k] by {
                        assert(s2[k] == s_head[k]);
                    }
                    assert forall|k: int| lo <= k < m + 1 implies obj_supported(#[trigger] s2[k])
                        && on_side(s2[k], ax, sp, true) by {
                        if k < m {
                            assert(s2[k] == s_head[k]);
                        } else {
                            assert(s2[k] == obj);
                        }
                    }
                    assert forall|k: int| m + 1 <= k < i as int + 1 implies obj_supported(
                        #[trigger] s2[k],
                    ) && on_side(s2[k], ax, sp, false) by {
                        if k < i as int {
                            assert(s2[k] == s_head[k]);
                        } else {
                            assert(s2[k] == s_head[m]);
                        }
                    }
                }
            } else {
                let ghost child_b_old = child_b;
                match child_b.grow_to_include_object(&obj) {
                    Ok(_) => {},
                    Err(e) => {
                        proof {
                            assert(self.scene@[i as int] == s0[i as int]);
                            lemma_split_err(pre0, *self, index as int, depth as int, i as int);
                        }
                        return Err(e);
                    },
                }
                child_b.object_count = child_b.object_count + 1;
                proof {
                    assert(self.scene@ == s_head);
                    assert(s_head[i as int] == obj);
                    lemma_tight_extend(s_head, s_head, m, i as int, child_b_old, obj);
                    assert(s0[i as int] == obj);
                    assert(on_side(s0[i as int], ax, sp, false));
                    lemma_cls_tight_extend(s0, lo, i as int, ax, sp, false, child_b_old);
                    lemma_cls_tight_skip(
                        s0,
                        lo,
                        i as int,
                        ax,
                        sp,
                        true,
                        child_a.min_corner,
                        child_a.max_corner,
                    );
                    assert forall|k: int| m <= k < i as int + 1 implies obj_supported(
                        #[trigger] self.scene@[k],
                    ) && on_side(self.scene@[k], ax, sp, false) by {
                        if k == i as int {
                            assert(self.scene@[k] == obj);
                        }
                    }
                }
            }
            i = i + 1;
        }
        let ghost s1 = self.scene@;
        let ghost m = lo + child_a.object_count as int;
        let ghost e_budget = (MAX_DEPTH as int - depth as int + 1) as nat;
        proof {
            lemma_two_pow_pos((e_budget - 2) as nat);
            assert(two_pow(e_budget) == 2 * two_pow((e_budget - 1) as nat));
            assert(two_pow((e_budget - 1) as nat) == 2 * two_pow((e_budget - 2) as nat));
            lemma_cls_union(
                s0,
                lo,
                hi,
                ax,
                sp,
                node.min_corner,
                node.max_corner,
                child_a.min_corner,
                child_a.max_corner,
                child_b.min_corner,
                child_b.max_corner,
            );
        }
        let c = self.bvh.len() as u32;
        let ghost len0 = pre0.bvh@.len() as int;
        let mut parent = node;
        parent.child_index = c;
        self.bvh[index_us] = parent;
        self.bvh.push(child_a);
        self.bvh.push(child_b);
        let ghost pre1 = *self;
        proof {
            assert(pre1.bvh@[c as int] == child_a);
            assert(pre1.bvh@[index as int] == parent);
            assert(split_pre(pre1, c as int, depth as int + 1));
        }
        let r1 = self.split(c, depth + 1);
        let ghost post1 = *self;
        match r1 {
            Ok(_) => {},
            Err(e) => {
                proof {
                    assert forall|k: int|
                        range_lo(pre1.bvh@[c as int]) <= k < range_hi(pre1.bvh@[c as int])
                        implies obj_supported(#[trigger] pre1.scene@[k]) by {
                        assert(pre1.bvh@[c as int] == child_a);
                        assert(pre1.scene@[k] == s1[k]);
                    }
                    assert(false);
                }
                return Err(e);
            },
        }
        proof {
            assert(post1.bvh@[c as int + 1] == child_b);
            assert(post1.bvh@[index as int] == parent);
            assert forall|k: int| m <= k < hi implies #[trigger] post1.scene@[k] == s1[k] by {}
            lemma_tight_frame(s1, post1.scene@, m, hi, child_b.min_corner, child_b.max_corner);
            assert(split_pre(post1, c as int + 1, depth as int + 1));
        }
        let r2 = self.split(c + 1, depth + 1);
        let ghost post2 = *self;
        match r2 {
            Ok(_) => {},
            Err(e) => {
                proof {
                    assert forall|k: int|
                        range_lo(post1.bvh@[c as int + 1]) <= k < range_hi(post1.bvh@[c as int + 1])
                        implies obj_supported(#[trigger] post1.scene@[k]) by {
                        assert(post1.bvh@[c as int + 1] == child_b);
                        assert(post1.scene@[k] == s1[k]);
                    }
                    assert(false);
                }
                return Err(e);
            },
        }
        proof {
            assert forall|k: int| lo <= k < m implies obj_supported(#[trigger] pre1.scene@[k]) by {
                assert(pre1.scene@[k] == s1[k]);
            }
            assert forall|k: int| m <= k < hi implies obj_supported(
                #[trigger] pre1.scene@[k],
            ) by {
                assert(pre1.scene@[k] == s1[k]);
            }
            // the loop's side classification is the one the contract's spec
            // functions name, and it survives the recursions' permutations
            assert(pre1.scene@ == s1);
            assert(ax == split_axis(node));
            assert(sp == split_position(node));
            assert(pre1.bvh@[c as int] == child_a);
            lemma_subrange_multiset_frame(pre1.scene@, post1.scene@, lo, m);
            lemma_sides_preserved(pre1.scene@, post1.scene@, lo, m, ax, sp, true);
            assert forall|k: int| m <= k < hi implies on_side(
                #[trigger] post1.scene@[k],
                ax,
                sp,
                false,
            ) by {
                assert(post1.scene@[k] == s1[k]);
            }
            lemma_subrange_multiset_frame(post1.scene@, post2.scene@, m, hi);
            lemma_sides_preserved(post1.scene@, post2.scene@, m, hi, ax, sp, false);
            assert forall|k: int| lo <= k < m implies on_side(
                #[trigger] post2.scene@[k],
                ax,
                sp,
                true,
            ) by {
                assert(post2.scene@[k] == post1.scene@[k]);
            }
            // the children keep index fields through the recursions
            assert(post1.bvh@[index as int] == pre1.bvh@[index as int]);
            assert(post2.bvh@[index as int] == post1.bvh@[index as int]);
            assert(post1.bvh@[c as int].object_index == child_a.object_index);
            assert(post1.bvh@[c as int].object_count == child_a.object_count);
            assert(post2.bvh@[c as int] == post1.bvh@[c as int]);
            assert(post1.bvh@[c as int + 1] == child_b);
            assert(post2.bvh@[c as int + 1].object_index == child_b.object_index);
            assert(post2.bvh@[c as int + 1].object_count == child_b.object_count);
            reveal(crate::bvh::split_children_ok);
            assert(split_children_ok(pre0, post2, index as int));
            lemma_split_stitch(
                pre0,
                pre1,
                post1,
                post2,
                index as int,
                depth as int,
                node,
                parent,
                child_a,
                child_b,
            );
        }
        Ok(())
    }

    /// Build the whole tree for a scene: fold the root's bounds over every
    /// primitive, then split recursively from the root.  On an unsupported
    /// type tag no tree at all is handed out, only the error.
    pub fn build(scene: Vec<Object>, camera: BvhCamera) -> (res: Result<
        RayMarcherData,
        BvhError,
    >)
        requires
            scene_wf(scene@),
        ensures
            match res {
                Result::Ok(data) => {
                    &&& forall|k: int|
                        0 <= k < scene@.len() ==> obj_supported(#[trigger] scene@[k])
                    &&& data.camera == camera
                    &&& data.scene@.len() == scene@.len()
                    &&& data.scene@.to_multiset() == scene@.to_multiset()
                    &&& scene_wf(data.scene@)
                    &&& 1 <= data.bvh@.len() <= two_pow((MAX_DEPTH + 1) as nat) - 1
                    &&& data.bvh@[0].object_index == 0
                    &&& data.bvh@[0].object_count == scene@.len()
                    &&& box_tight(
                        scene@,
                        0,
                        scene@.len() as int,
                        data.bvh@[0].min_corner,
                        data.bvh@[0].max_corner,
                    )
                    &&& subtree_ok(data.bvh@, 0, MAX_DEPTH as nat, 1)
                    &&& leaves_partition(data.bvh@, data.scene@, 0, 1, 0, scene@.len() as int)
                    &&& union_ok(data.bvh@, 0, 1)
                    &&& data.bvh@[0].child_index == 1
                    &&& 3 <= data.bvh@.len()
                    &&& range_lo(data.bvh@[1]) == 0
                    &&& range_hi(data.bvh@[1]) == range_lo(data.bvh@[2])
                    &&& range_hi(data.bvh@[2]) == scene@.len()
                    &&& forall|k: int|
                        0 <= k < range_hi(data.bvh@[1]) ==> on_side(
                            #[trigger] data.scene@[k],
                            split_axis(data.bvh@[0]),
                            split_position(data.bvh@[0]),
                            true,
                        )
                    &&& forall|k: int|
                        range_lo(data.bvh@[2]) <= k < scene@.len() ==> on_side(
                            #[trigger] data.scene@[k],
                            split_axis(data.bvh@[0]),
                            split_position(data.bvh@[0]),
                            false,
                        )
                },
                Result::Err(e) => {
                    &&& e == BvhError::UnsupportedPrimitiveType
                    &&& exists|k: int|
                        0 <= k < scene@.len() && !obj_supported(#[trigger] scene@[k])
                },
            },
    {
        let ghost s_in = scene@;
        let n = scene.len();
        let mut root = Node::new(sentinel_hi(), sentinel_lo(), 0, n as u32);
        proof {
            lemma_tight_empty(scene@, 0, 0, 0, root.min_corner, root.max_corner);
        }
        let mut k: usize = 0;
        while k < n
            invariant
                n == scene@.len(),
                s_in == scene@,
                scene_wf(scene@),
                k <= n,
                root.object_index == 0,
                root.object_count as int == n as int,
                root.child_index == 0,
                vec_in_range(root.min_corner),
                vec_in_range(root.max_corner),
                root.centre == centre_of(root.min_corner, root.max_corner),
                box_tight(scene@, 0, k as int, root.min_corner, root.max_corner),
                forall|t: int| 0 <= t < k ==> obj_supported(#[trigger] scene@[t]),
            decreases n - k,
        {
            let ghost root_old = root;
            match root.grow_to_include_object(&scene[k]) {
                Ok(_) => {},
                Err(e) => {
                    return Err(e);
                },
            }
            proof {
                lemma_tight_extend(scene@, scene@, 0, k as int, root_old, scene@[k as int]);
            }
            k = k + 1;
        }
        let mut data = RayMarcherData { bvh: Vec::new(), scene, camera };
        data.bvh.push(root);
        proof {
            assert(two_pow(0) == 1);
            assert(two_pow(1) == 2);
            assert(two_pow(2) == 4);
            assert(two_pow(3) == 8);
            assert(split_pre(data, 0, 0));
        }
        let ghost pre_split = data;
        let r = data.split(0, 0);
        match r {
            Ok(_) => {
                proof {
                    assert(data.bvh@[0].object_index == root.object_index);
                    assert(data.bvh@[0].min_corner == root.min_corner);
                    assert(data.bvh@[0].max_corner == root.max_corner);
                    assert(data.bvh@[0].centre == root.centre);
                    reveal(crate::bvh::split_children_ok);
                    assert(pre_split.bvh@[0] == root);
                    assert(pre_split.bvh@.len() == 1);
                    assert(split_children_ok(pre_split, data, 0));
                    assert(split_axis(data.bvh@[0]) == split_axis(root));
                    assert(split_position(data.bvh@[0]) == split_position(root));
                    assert forall|k: int| 0 <= k < range_hi(data.bvh@[1]) implies on_side(
                        #[trigger] data.scene@[k],
                        split_axis(data.bvh@[0]),
                        split_position(data.bvh@[0]),
                        true,
                    ) by {}
                    assert forall|k: int|
                        range_lo(data.bvh@[2]) <= k < s_in.len() implies on_side(
                        #[trigger] data.scene@[k],
                        split_axis(data.bvh@[0]),
                        split_position(data.bvh@[0]),
                        false,
                    ) by {}
                }
                Ok(data)
            },
            Err(e) => {
                proof {
                    assert forall|t: int|
                        range_lo(pre_split.bvh@[0]) <= t < range_hi(pre_split.bvh@[0])
                        implies obj_supported(#[trigger] pre_split.scene@[t]) by {}
                    assert(false);
                }
                Err(e)
            },
        }
    }
}

} // verus!
