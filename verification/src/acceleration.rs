use vstd::prelude::*;
use vstd::seq_lib::lemma_multiset_commutative;
use crate::geometry::{
    BoundingBox, Point, Ray, Vector, box_entry, pair_le, in_box_at, lemma_in_box_monotone,
    lemma_box_entry_none, lemma_box_entry_some, lemma_pair_le_trans, box_union_of, spec_empty_box,
};
use crate::objects::{Instance, Intersection, lemma_inst_hit_in_bbox};

verus! {

broadcast use vstd::seq_lib::group_to_multiset_ensures;

/// Leaves hold fewer than this many instances.
pub const LEAF_THRESHOLD: usize = 4;

/// The axis a level of the hierarchy splits on; levels cycle through the
/// three axes.
#[derive(Clone, Copy, Debug, PartialEq, Eq, Structural)]
pub enum Axis {
    X,
    Y,
    Z,
}

impl Axis {
    pub open spec fn spec_next(self) -> Axis {
        match self {
            Axis::X => Axis::Y,
            Axis::Y => Axis::Z,
            Axis::Z => Axis::X,
        }
    }

    pub fn next(self) -> (r: Axis)
        ensures
            r == self.spec_next(),
    {
        match self {
            Axis::X => Axis::Y,
            Axis::Y => Axis::Z,
            Axis::Z => Axis::X,
        }
    }
}

/// The sort key of an instance on an axis: the minimum coordinate of its
/// bounding box along that axis.
pub open spec fn spec_axis_key(inst: Instance, axis: Axis) -> int {
    match axis {
        Axis::X => inst.bbox.min.x as int,
        Axis::Y => inst.bbox.min.y as int,
        Axis::Z => inst.bbox.min.z as int,
    }
}

fn axis_key(inst: &Instance, axis: Axis) -> (r: i64)
    ensures
        r as int == spec_axis_key(*inst, axis),
{
    match axis {
        Axis::X => inst.bbox.min.x,
        Axis::Y => inst.bbox.min.y,
        Axis::Z => inst.bbox.min.z,
    }
}

pub open spec fn sorted_by_key(s: Seq<Instance>, axis: Axis) -> bool {
    forall|i: int, j: int|
        0 <= i < j < s.len() ==> spec_axis_key(#[trigger] s[i], axis) <= spec_axis_key(
            #[trigger] s[j],
            axis,
        )
}

/// Insertion sort of the instances by their key along an axis: the result
/// is ordered and holds exactly the same instances.
fn sort_by_axis(v: &mut Vec<Instance>, axis: Axis)
    ensures
        final(v)@.len() == old(v)@.len(),
        final(v)@.to_multiset() == old(v)@.to_multiset(),
        sorted_by_key(final(v)@, axis),
{
    let ghost orig = v@;
    if v.len() <= 1 {
        return ;
    }
    let mut i: usize = 1;
    while i < v.len()
        invariant
            1 <= i <= v@.len(),
            v@.len() == orig.len(),
            v@.to_multiset() == orig.to_multiset(),
            sorted_by_key(v@.take(i as int), axis),
        decreases v@.len() - i,
    {
        let mut j: usize = i;
        proof {
            assert forall|k1: int, k2: int| 0 <= k1 < k2 <= i && k2 != j implies spec_axis_key(
                #[trigger] v@[k1],
                axis,
            ) <= spec_axis_key(#[trigger] v@[k2], axis) by {
                assert(v@.take(i as int)[k1] == v@[k1]);
                assert(v@.take(i as int)[k2] == v@[k2]);
            }
        }
        while j > 0 && axis_key(&v[j - 1], axis) > axis_key(&v[j], axis)
            invariant
                j <= i < v@.len(),
                v@.len() == orig.len(),
                v@.to_multiset() == orig.to_multiset(),
                forall|k1: int, k2: int|
                    0 <= k1 < k2 <= i && k2 != j ==> spec_axis_key(#[trigger] v@[k1], axis)
                        <= spec_axis_key(#[trigger] v@[k2], axis),
            decreases j,
        {
            let a = v[j - 1];
            let b = v[j];
            let ghost before = v@;
            v[j - 1] = b;
            v[j] = a;
            proof {
                assert(v@ =~= before.update(j - 1, before[j as int]).update(j as int, before[
                j - 1
                ]));
                lemma_swap_multiset(before, j - 1, j as int);
            }
            j = j - 1;
        }
        proof {
            assert forall|k1: int, k2: int| 0 <= k1 < k2 <= i implies spec_axis_key(
                #[trigger] v@[k1],
                axis,
            ) <= spec_axis_key(#[trigger] v@[k2], axis) by {
                if k2 == j {
                    assert(j > 0 ==> spec_axis_key(v@[j - 1], axis) <= spec_axis_key(
                        v@[j as int],
                        axis,
                    ));
                }
            }
            assert(sorted_by_key(v@.take(i as int + 1), axis));
        }
        i = i + 1;
    }
    proof {
        if v@.len() > 0 {
            assert(v@.take(v@.len() as int) =~= v@);
        } else {
            assert(sorted_by_key(v@, axis));
        }
    }
}

/// Well-formedness of every element carries across a permutation.
proof fn lemma_wf_transfer(s1: Seq<Instance>, s2: Seq<Instance>)
    requires
        s1.to_multiset() == s2.to_multiset(),
        forall|i: int| 0 <= i < s1.len() ==> (#[trigger] s1[i]).wf(),
    ensures
        forall|i: int| 0 <= i < s2.len() ==> (#[trigger] s2[i]).wf(),
{
    assert forall|i: int| 0 <= i < s2.len() implies (#[trigger] s2[i]).wf() by {
        assert(s2.contains(s2[i]));
        assert(s1.to_multiset().count(s2[i]) > 0);
        assert(s1.contains(s2[i]));
        let k = choose|k: int| 0 <= k < s1.len() && s1[k] == s2[i];
        assert(s1[k].wf());
    }
}

/// Swapping two positions of a sequence keeps its multiset.
proof fn lemma_swap_multiset(s: Seq<Instance>, i: int, j: int)
    requires
        0 <= i < s.len(),
        0 <= j < s.len(),
    ensures
        s.update(i, s[j]).update(j, s[i]).to_multiset() == s.to_multiset(),
{
    let s1 = s.update(i, s[j]);
    let s2 = s1.update(j, s[i]);
    assert(s1.to_multiset() =~= s.to_multiset().remove(s[i]).insert(s[j]));
    if i == j {
        assert(s2.to_multiset() =~= s.to_multiset());
    } else {
        assert(s1[j] == s[j]);
        assert(s2.to_multiset() =~= s1.to_multiset().remove(s1[j]).insert(s[i]));
        assert(s2.to_multiset() =~= s.to_multiset());
    }
}

/// A node of the hierarchy: either a leaf holding the instances, or two
/// subtrees, each with its own bounding box.
pub enum BVHNode {
    Composite(Box<BoundingVolumeHierarchy>, Box<BoundingVolumeHierarchy>),
    Leaf(Vec<Instance>),
}

/// A recursive binary partition of the scene's instances, each node boxed
/// by the union of what lies beneath it. Built once; queried read-only.
pub struct BoundingVolumeHierarchy {
    pub bbox: BoundingBox,
    pub root: BVHNode,
}

/// The union of the cached boxes of a list of instances: the left fold of
/// the componentwise union, grown from the inverted seed. An empty list
/// yields the seed.
pub open spec fn boxes_union(s: Seq<Instance>) -> BoundingBox
    decreases s.len(),
{
    if s.len() == 0 {
        spec_empty_box()
    } else {
        box_union_of(boxes_union(s.drop_last()), s.last().bbox)
    }
}

/// All instances of a subtree, leaves left to right.
pub open spec fn node_insts(n: BVHNode) -> Seq<Instance>
    decreases n,
{
    match n {
        BVHNode::Leaf(v) => v@,
        BVHNode::Composite(l, r) => node_insts(l.root) + node_insts(r.root),
    }
}

impl BoundingVolumeHierarchy {
    /// The shape invariant of the tree: every leaf holds fewer than the
    /// threshold of instances and only well-formed ones, every composite
    /// has two nonempty children, and every node's box encloses the boxes
    /// of its children and instances.
    pub open spec fn wf(self) -> bool
        decreases self,
    {
        &&& self.bbox.wf()
        &&& match self.root {
            BVHNode::Leaf(v) => {
                &&& v@.len() < LEAF_THRESHOLD as int
                &&& self.bbox == boxes_union(v@)
                &&& forall|i: int|
                    0 <= i < v@.len() ==> (#[trigger] v@[i]).wf() && v@[i].bbox.spec_enclosed_by(
                        self.bbox,
                    )
            },
            BVHNode::Composite(l, r) => {
                &&& l.wf()
                &&& r.wf()
                &&& node_insts(l.root).len() > 0
                &&& node_insts(r.root).len() > 0
                &&& node_insts(self.root).len() >= LEAF_THRESHOLD as int
                &&& self.bbox == box_union_of(l.bbox, r.bbox)
                &&& l.bbox.spec_enclosed_by(self.bbox)
                &&& r.bbox.spec_enclosed_by(self.bbox)
            },
        }
    }

    pub open spec fn insts(self) -> Seq<Instance> {
        node_insts(self.root)
    }
}

/// The build discipline, at every level of the tree: each composite's left
/// child holds the first-half count (rounded up) of its subtree's
/// instances, every key on the left is at most every key on the right
/// along the level's axis, and the children were split on the next axis in
/// the cycle. Leaves end the recursion.
pub open spec fn split_ok(t: BoundingVolumeHierarchy, axis: Axis) -> bool
    decreases t,
{
    match t.root {
        BVHNode::Leaf(_) => true,
        BVHNode::Composite(l, r) => {
            let sl = node_insts(l.root);
            let sr = node_insts(r.root);
            &&& sl.len() == (sl.len() + sr.len() + 1) / 2
            &&& (forall|i: int, j: int|
                0 <= i < sl.len() && 0 <= j < sr.len() ==> spec_axis_key(#[trigger] sl[i], axis)
                    <= spec_axis_key(#[trigger] sr[j], axis))
            &&& split_ok(*l, axis.spec_next())
            &&& split_ok(*r, axis.spec_next())
        },
    }
}

/// Box soundness, transitively to the root: every instance of a
/// well-formed subtree is well formed and its box lies inside the
/// subtree's box.
pub proof fn lemma_wf_insts(t: BoundingVolumeHierarchy)
    requires
        t.wf(),
    ensures
        forall|i: int|
            0 <= i < node_insts(t.root).len() ==> (#[trigger] node_insts(t.root)[i]).wf()
                && node_insts(t.root)[i].bbox.spec_enclosed_by(t.bbox),
    decreases t,
{
    match t.root {
        BVHNode::Leaf(v) => {},
        BVHNode::Composite(l, r) => {
            lemma_wf_insts(*l);
            lemma_wf_insts(*r);
            let s = node_insts(t.root);
            assert forall|i: int| 0 <= i < s.len() implies (#[trigger] s[i]).wf()
                && s[i].bbox.spec_enclosed_by(t.bbox) by {
                if i < node_insts(l.root).len() {
                    assert(s[i] == node_insts(l.root)[i]);
                } else {
                    assert(s[i] == node_insts(r.root)[i - node_insts(l.root).len()]);
                }
            }
        },
    }
}

/// The union of the cached boxes of a list of instances, grown from the
/// inverted seed.
fn union_of_instances(instances: &Vec<Instance>) -> (r: BoundingBox)
    requires
        forall|i: int| 0 <= i < instances@.len() ==> (#[trigger] instances@[i]).wf(),
    ensures
        r.wf(),
        r == boxes_union(instances@),
        forall|i: int|
            0 <= i < instances@.len() ==> (#[trigger] instances@[i]).bbox.spec_enclosed_by(r),
{
    let mut bbox = BoundingBox::empty();
    let mut k: usize = 0;
    while k < instances.len()
        invariant
            k <= instances@.len(),
            forall|i: int| 0 <= i < instances@.len() ==> (#[trigger] instances@[i]).wf(),
            bbox.wf(),
            bbox == boxes_union(instances@.take(k as int)),
            forall|i: int| 0 <= i < k ==> (#[trigger] instances@[i]).bbox.spec_enclosed_by(bbox),
        decreases instances@.len() - k,
    {
        let inst_box = instances[k].bounding_box();
        bbox = bbox.union(&inst_box);
        proof {
            assert(instances@.take(k + 1).drop_last() =~= instances@.take(k as int));
            assert(instances@.take(k + 1).last() == instances@[k as int]);
        }
        k = k + 1;
    }
    proof {
        assert(instances@.take(instances@.len() as int) =~= instances@);
    }
    bbox
}

impl BoundingVolumeHierarchy {
    /// Builds the hierarchy over the given instances by the top-down,
    /// axis-cycling median split, starting on the first axis.
    ///
    /// The instances of the tree are exactly the input instances: none is
    /// lost, none is duplicated. `wf` pins every node's box to the union
    /// of what lies beneath it; `split_ok` pins the count split, the key
    /// ordering and the axis cycling at every level.
    pub fn new(instances: Vec<Instance>) -> (r: BoundingVolumeHierarchy)
        requires
            forall|i: int| 0 <= i < instances@.len() ==> (#[trigger] instances@[i]).wf(),
        ensures
            r.wf(),
            node_insts(r.root).to_multiset() == instances@.to_multiset(),
            instances@.len() < LEAF_THRESHOLD as int ==> (r.root matches BVHNode::Leaf(v) && v@
                == instances@),
            instances@.len() >= LEAF_THRESHOLD as int ==> r.root is Composite,
            split_ok(r, Axis::X),
    {
        BoundingVolumeHierarchy::split_instances(instances, Axis::X)
    }

    /// One level of the recursive build: few enough instances become a
    /// leaf; otherwise the list is sorted by its key along the split axis
    /// and divided by count, the first half rounded up, and the halves
    /// recurse on the next axis.
    fn split_instances(instances: Vec<Instance>, split_axis: Axis) -> (r: BoundingVolumeHierarchy)
        requires
            forall|i: int| 0 <= i < instances@.len() ==> (#[trigger] instances@[i]).wf(),
        ensures
            r.wf(),
            node_insts(r.root).to_multiset() == instances@.to_multiset(),
            instances@.len() < LEAF_THRESHOLD as int ==> (r.root matches BVHNode::Leaf(v) && v@
                == instances@),
            instances@.len() >= LEAF_THRESHOLD as int ==> r.root is Composite,
            split_ok(r, split_axis),
        decreases instances@.len(),
    {
        if instances.len() < LEAF_THRESHOLD {
            let bbox = union_of_instances(&instances);
            return BoundingVolumeHierarchy { bbox, root: BVHNode::Leaf(instances) };
        }
        let mut instances = instances;
        let ghost unsorted = instances@;
        sort_by_axis(&mut instances, split_axis);
        proof {
            lemma_wf_transfer(unsorted, instances@);
        }
        let chunk: usize = (instances.len() - 1) / 2 + 1;
        let mut left: Vec<Instance> = Vec::new();
        let mut right: Vec<Instance> = Vec::new();
        let mut k: usize = 0;
        while k < chunk
            invariant
                chunk <= instances@.len(),
                k <= chunk,
                left@ == instances@.take(k as int),
            decreases chunk - k,
        {
            left.push(instances[k]);
            proof {
                assert(left@ =~= instances@.take(k + 1));
            }
            k = k + 1;
        }
        while k < instances.len()
            invariant
                chunk <= k <= instances@.len(),
                left@ == instances@.take(chunk as int),
                right@ == instances@.subrange(chunk as int, k as int),
            decreases instances@.len() - k,
        {
            right.push(instances[k]);
            proof {
                assert(right@ =~= instances@.subrange(chunk as int, k + 1));
            }
            k = k + 1;
        }
        proof {
            assert(left@ + right@ =~= instances@);
            lemma_multiset_commutative(left@, right@);
            assert forall|i: int| 0 <= i < left@.len() implies (#[trigger] left@[i]).wf() by {
                assert(left@[i] == instances@[i]);
            }
            assert forall|i: int| 0 <= i < right@.len() implies (#[trigger] right@[i]).wf() by {
                assert(right@[i] == instances@[chunk + i]);
            }
        }
        let next_split_axis = split_axis.next();
        let bvh1 = Box::new(BoundingVolumeHierarchy::split_instances(left, next_split_axis));
        let bvh2 = Box::new(BoundingVolumeHierarchy::split_instances(right, next_split_axis));
        let bbox = bvh1.bbox.union(&bvh2.bbox);
        proof {
            assert(node_insts(bvh1.root).to_multiset().len() == left@.to_multiset().len());
            assert(node_insts(bvh2.root).to_multiset().len() == right@.to_multiset().len());
            assert(node_insts(bvh1.root).len() == left@.len());
            assert(node_insts(bvh2.root).len() == right@.len());
        }
        proof {
            lemma_multiset_commutative(node_insts(bvh1.root), node_insts(bvh2.root));
            // the halves keep the sorted order apart: every key on the left
            // is at most every key on the right
            assert forall|i: int, j: int|
                0 <= i < node_insts(bvh1.root).len() && 0 <= j < node_insts(bvh2.root).len()
                    implies spec_axis_key(#[trigger] node_insts(bvh1.root)[i], split_axis)
                <= spec_axis_key(#[trigger] node_insts(bvh2.root)[j], split_axis) by {
                let li = node_insts(bvh1.root)[i];
                let rj = node_insts(bvh2.root)[j];
                assert(node_insts(bvh1.root).to_multiset().contains(li));
                assert(node_insts(bvh2.root).to_multiset().contains(rj));
                assert(left@.contains(li));
                assert(right@.contains(rj));
                let a = choose|a: int| 0 <= a < left@.len() && left@[a] == li;
                let b = choose|b: int| 0 <= b < right@.len() && right@[b] == rj;
                assert(instances@[a] == li);
                assert(instances@[chunk + b] == rj);
            }
        }
        BoundingVolumeHierarchy { bbox, root: BVHNode::Composite(bvh1, bvh2) }
    }
}

/// No instance of the list hits the ray.
pub open spec fn no_hit_in(s: Seq<Instance>, ray: Ray) -> bool {
    forall|i: int| 0 <= i < s.len() ==> (#[trigger] s[i]).spec_hit(ray) is None
}

/// The reported intersection comes from this instance: the parameter is the
/// instance's hit, and point, normal and material belong to it.
pub open spec fn hit_of(inst: Instance, ray: Ray, h: Intersection) -> bool {
    &&& inst.spec_hit(ray) == Option::Some((h.t.num as int, h.t.den as int))
    &&& h.material == inst.material
    &&& crate::objects::shape_hit_geometry_ok(inst.shape, ray, h)
}

pub open spec fn hit_from(s: Seq<Instance>, ray: Ray, h: Intersection) -> bool {
    exists|i: int| 0 <= i < s.len() && hit_of(#[trigger] s[i], ray, h)
}

/// The reported parameter is at most the parameter of every hit in the
/// list (compared exactly, by cross products).
pub open spec fn min_hit(s: Seq<Instance>, ray: Ray, h: Intersection) -> bool {
    forall|i: int|
        0 <= i < s.len() ==> ((#[trigger] s[i]).spec_hit(ray) matches Some(p) ==> h.t.num * p.1
            <= p.0 * h.t.den)
}

/// What a nearest-hit query must return over a list of instances: nothing
/// exactly when no instance hits, else a hit of one of the instances whose
/// parameter is minimal among all hits.
pub open spec fn is_best_hit(s: Seq<Instance>, ray: Ray, res: Option<Intersection>) -> bool {
    match res {
        Option::None => no_hit_in(s, ray),
        Option::Some(h) => h.wf() && hit_from(s, ray, h) && min_hit(s, ray, h),
    }
}

/// A missed node box prunes the whole subtree: no instance below it hits.
proof fn lemma_prune(t: BoundingVolumeHierarchy, ray: Ray)
    requires
        t.wf(),
        ray.wf(),
        box_entry(t.bbox, ray) is None,
    ensures
        no_hit_in(node_insts(t.root), ray),
{
    let s = node_insts(t.root);
    lemma_wf_insts(t);
    assert forall|i: int| 0 <= i < s.len() implies (#[trigger] s[i]).spec_hit(ray) is None by {
        if s[i].spec_hit(ray) is Some {
            lemma_inst_hit_in_bbox(s[i], ray);
            let (tn, td) = s[i].spec_hit(ray)->Some_0;
            lemma_in_box_monotone(s[i].bbox, t.bbox, ray, tn, td);
            lemma_box_entry_none(t.bbox, ray, tn, td);
        }
    }
}

/// The entry parameter of a node's box sits below the parameter of every
/// hit in the subtree: what justifies stopping early once a hit closer
/// than the other child's entry is in hand.
proof fn lemma_entry_below_hits(t: BoundingVolumeHierarchy, ray: Ray)
    requires
        t.wf(),
        ray.wf(),
        box_entry(t.bbox, ray) is Some,
    ensures
        forall|i: int|
            0 <= i < node_insts(t.root).len() ==> ((#[trigger] node_insts(t.root)[i]).spec_hit(ray)
                matches Some(p) ==> pair_le(box_entry(t.bbox, ray)->Some_0, p)),
{
    let s = node_insts(t.root);
    lemma_wf_insts(t);
    lemma_box_entry_some(t.bbox, ray);
    let e = box_entry(t.bbox, ray)->Some_0;
    assert forall|i: int|
        0 <= i < s.len() && (#[trigger] s[i]).spec_hit(ray) is Some implies pair_le(
        e,
        s[i].spec_hit(ray)->Some_0,
    ) by {
        lemma_inst_hit_in_bbox(s[i], ray);
        let (tn, td) = s[i].spec_hit(ray)->Some_0;
        lemma_in_box_monotone(s[i].bbox, t.bbox, ray, tn, td);
        assert(in_box_at(t.bbox, ray, tn, td));
    }
}

/// Merging the best hits of two lists by the smaller parameter gives the
/// best hit of their concatenation.
proof fn lemma_best_concat(
    s1: Seq<Instance>,
    s2: Seq<Instance>,
    ray: Ray,
    r1: Option<Intersection>,
    r2: Option<Intersection>,
    merged: Option<Intersection>,
)
    requires
        ray.wf(),
        forall|i: int| 0 <= i < s1.len() ==> (#[trigger] s1[i]).wf(),
        forall|i: int| 0 <= i < s2.len() ==> (#[trigger] s2[i]).wf(),
        is_best_hit(s1, ray, r1),
        is_best_hit(s2, ray, r2),
        merged is Some <==> (r1 is Some || r2 is Some),
        r1 is None ==> merged == r2,
        r2 is None ==> merged == r1,
        r1 matches Some(i1) ==> r2 matches Some(i2) ==> (if i1.t.spec_lt(i2.t) {
            merged == r1
        } else {
            merged == r2
        }),
    ensures
        is_best_hit(s1 + s2, ray, merged),
{
    let s = s1 + s2;
    match merged {
        Option::None => {
            assert forall|i: int| 0 <= i < s.len() implies (#[trigger] s[i]).spec_hit(ray)
                is None by {
                if i < s1.len() {
                    assert(s[i] == s1[i]);
                } else {
                    assert(s[i] == s2[i - s1.len()]);
                }
            }
        },
        Option::Some(h) => {
            // the merged hit comes from one of the halves
            if r1 == merged {
                let k = choose|k: int| 0 <= k < s1.len() && hit_of(#[trigger] s1[k], ray, h);
                assert(s[k] == s1[k]);
                assert(hit_from(s, ray, h));
            } else {
                assert(r2 == merged);
                let k = choose|k: int| 0 <= k < s2.len() && hit_of(#[trigger] s2[k], ray, h);
                assert(s[s1.len() + k] == s2[k]);
                assert(hit_from(s, ray, h));
            }
            // and sits below every hit of both halves
            assert forall|i: int|
                0 <= i < s.len() && (#[trigger] s[i]).spec_hit(ray) is Some implies h.t.num
                * s[i].spec_hit(ray)->Some_0.1 <= s[i].spec_hit(ray)->Some_0.0 * h.t.den by {
                let p = s[i].spec_hit(ray)->Some_0;
                let inst = if i < s1.len() { s1[i] } else { s2[i - s1.len()] };
                assert(s[i] == inst);
                lemma_inst_hit_in_bbox(inst, ray);
                let other = if i < s1.len() { r1 } else { r2 };
                assert(other is Some);
                let ho = other->Some_0;
                assert(ho.t.num * p.1 <= p.0 * ho.t.den);
                if merged != other {
                    // the merged parameter is at most the other side's best
                    assert(h.t.num * ho.t.den <= ho.t.num * h.t.den);
                    lemma_pair_le_trans(
                        (h.t.num as int, h.t.den as int),
                        (ho.t.num as int, ho.t.den as int),
                        p,
                    );
                }
            }
        },
    }
}

/// A hit strictly closer than the entry of a subtree's box beats every hit
/// inside that subtree: the traversal may stop without descending it.
proof fn lemma_best_early(
    s1: Seq<Instance>,
    t2: BoundingVolumeHierarchy,
    ray: Ray,
    h1: Intersection,
)
    requires
        t2.wf(),
        ray.wf(),
        is_best_hit(s1, ray, Option::Some(h1)),
        box_entry(t2.bbox, ray) matches Some(e2) && h1.t.num * e2.1 < e2.0 * h1.t.den,
    ensures
        is_best_hit(s1 + node_insts(t2.root), ray, Option::Some(h1)),
{
    lemma_entry_below_hits(t2, ray);
    lemma_wf_insts(t2);
    let s2 = node_insts(t2.root);
    let s = s1 + s2;
    let e2 = box_entry(t2.bbox, ray)->Some_0;
    let k = choose|k: int| 0 <= k < s1.len() && hit_of(#[trigger] s1[k], ray, h1);
    assert(s[k] == s1[k]);
    assert(hit_from(s, ray, h1));
    assert forall|i: int|
        0 <= i < s.len() && (#[trigger] s[i]).spec_hit(ray) is Some implies h1.t.num
        * s[i].spec_hit(ray)->Some_0.1 <= s[i].spec_hit(ray)->Some_0.0 * h1.t.den by {
        let p = s[i].spec_hit(ray)->Some_0;
        if i < s1.len() {
            assert(s[i] == s1[i]);
        } else {
            let j = i - s1.len();
            assert(s[i] == s2[j]);
            lemma_inst_hit_in_bbox(s2[j], ray);
            assert(pair_le(e2, p));
            lemma_pair_le_trans((h1.t.num as int, h1.t.den as int), e2, p);
        }
    }
}

impl BoundingVolumeHierarchy {
    /// The nearest hit of the ray among the instances of this subtree.
    ///
    /// A missed node box answers at once; at a composite whose boxes are
    /// both hit, the first child's result is returned without visiting the
    /// second child when it is strictly closer than the second child's
    /// entry parameter.
    pub fn intersect(&self, ray: &Ray) -> (r: Option<Intersection>)
        requires
            self.wf(),
            ray.wf(),
        ensures
            is_best_hit(node_insts(self.root), *ray, r),
        decreases *self,
    {
        let box_hit = self.bbox.intersect(ray);
        if box_hit.is_none() {
            proof {
                lemma_prune(*self, *ray);
            }
            return Option::None;
        }
        match &self.root {
            BVHNode::Leaf(instances) => {
                proof {
                    lemma_wf_insts(*self);
                }
                let mut best: Option<Intersection> = Option::None;
                let mut k: usize = 0;
                while k < instances.len()
                    invariant
                        k <= instances@.len(),
                        ray.wf(),
                        forall|i: int| 0 <= i < instances@.len() ==> (#[trigger] instances@[i]).wf(),
                        is_best_hit(instances@.take(k as int), *ray, best),
                    decreases instances@.len() - k,
                {
                    let hit = instances[k].intersect(ray);
                    let merged = Intersection::closest_intersection(best, hit);
                    proof {
                        let prefix = instances@.take(k as int);
                        let inst = instances@[k as int];
                        assert(is_best_hit(seq![inst], *ray, hit)) by {
                            if hit is Some {
                                assert(hit_of(seq![inst][0], *ray, hit->Some_0));
                            }
                        }
                        lemma_best_concat(prefix, seq![inst], *ray, best, hit, merged);
                        assert(prefix + seq![inst] =~= instances@.take(k + 1));
                    }
                    best = merged;
                    k = k + 1;
                }
                proof {
                    assert(instances@.take(instances@.len() as int) =~= instances@);
                }
                best
            },
            BVHNode::Composite(bvh1, bvh2) => {
                proof {
                    assert(bvh1.wf() && bvh2.wf());
                    assert(bvh1.bbox.wf() && bvh2.bbox.wf());
                }
                let int1 = bvh1.bbox.intersect(ray);
                let int2 = bvh2.bbox.intersect(ray);
                let ghost s1 = node_insts(bvh1.root);
                let ghost s2 = node_insts(bvh2.root);
                match (int1, int2) {
                    (Option::None, Option::None) => {
                        proof {
                            lemma_prune(**bvh1, *ray);
                            lemma_prune(**bvh2, *ray);
                            lemma_wf_insts(**bvh1);
                            lemma_wf_insts(**bvh2);
                            lemma_best_concat(
                                s1,
                                s2,
                                *ray,
                                Option::None,
                                Option::None,
                                Option::None,
                            );
                        }
                        Option::None
                    },
                    (Option::Some(_), Option::None) => {
                        let r1 = bvh1.intersect(ray);
                        proof {
                            lemma_prune(**bvh2, *ray);
                            lemma_wf_insts(**bvh1);
                            lemma_wf_insts(**bvh2);
                            lemma_best_concat(s1, s2, *ray, r1, Option::None, r1);
                        }
                        r1
                    },
                    (Option::None, Option::Some(_)) => {
                        let r2 = bvh2.intersect(ray);
                        proof {
                            lemma_prune(**bvh1, *ray);
                            lemma_wf_insts(**bvh1);
                            lemma_wf_insts(**bvh2);
                            lemma_best_concat(s1, s2, *ray, Option::None, r2, r2);
                        }
                        r2
                    },
                    (Option::Some(_), Option::Some(h2)) => {
                        let r1 = bvh1.intersect(ray);
                        if r1.is_some() {
                            let i1 = r1.unwrap();
                            if i1.t.lt(h2.t) {
                                proof {
                                    lemma_best_early(s1, **bvh2, *ray, i1);
                                }
                                return Option::Some(i1);
                            }
                        }
                        let r2 = bvh2.intersect(ray);
                        let merged = Intersection::closest_intersection(r1, r2);
                        proof {
                            lemma_wf_insts(**bvh1);
                            lemma_wf_insts(**bvh2);
                            lemma_best_concat(s1, s2, *ray, r1, r2, merged);
                        }
                        merged
                    },
                }
            },
        }
    }
}

/// Whether an instance blocks the segment whose destination sits at
/// parameter one: it hits the ray strictly before that.
pub open spec fn occludes(inst: Instance, ray: Ray) -> bool {
    inst.spec_hit(ray) matches Some(p) && p.0 < p.1
}

/// No instance of the list blocks the segment.
pub open spec fn clear_of(s: Seq<Instance>, ray: Ray) -> bool {
    forall|i: int| 0 <= i < s.len() ==> !occludes(#[trigger] s[i], ray)
}

/// The segment between two points as a ray: origin at `from`, direction
/// their difference, so `to` sits at parameter one.
pub open spec fn spec_segment(from: Point, to: Point) -> Ray {
    Ray {
        origin: from,
        direction: Vector {
            x: (to.x - from.x) as i64,
            y: (to.y - from.y) as i64,
            z: (to.z - from.z) as i64,
        },
    }
}

/// What a visibility query must return: two equal points see each other,
/// and otherwise nothing may block the segment between them.
pub open spec fn spec_visible(s: Seq<Instance>, from: Point, to: Point) -> bool {
    from == to || clear_of(s, spec_segment(from, to))
}

impl BoundingVolumeHierarchy {
    /// Whether nothing in this subtree blocks the segment. The same
    /// box-ordering walk as the nearest-hit query, but it stops at the
    /// first blocker; a missed box clears the whole branch.
    pub fn visible_ray(&self, ray: &Ray) -> (r: bool)
        requires
            self.wf(),
            ray.wf(),
        ensures
            r == clear_of(node_insts(self.root), *ray),
        decreases *self,
    {
        let box_hit = self.bbox.intersect(ray);
        if box_hit.is_none() {
            proof {
                lemma_prune(*self, *ray);
            }
            return true;
        }
        match &self.root {
            BVHNode::Leaf(instances) => {
                proof {
                    lemma_wf_insts(*self);
                }
                let mut k: usize = 0;
                while k < instances.len()
                    invariant
                        k <= instances@.len(),
                        ray.wf(),
                        node_insts(self.root) == instances@,
                        forall|i: int| 0 <= i < instances@.len() ==> (#[trigger] instances@[i]).wf(),
                        forall|i: int| 0 <= i < k ==> !occludes(#[trigger] instances@[i], *ray),
                    decreases instances@.len() - k,
                {
                    let hit = instances[k].intersect(ray);
                    if let Option::Some(h) = hit {
                        if h.t.num < h.t.den {
                            proof {
                                assert(occludes(instances@[k as int], *ray));
                                assert(node_insts(self.root)[k as int] == instances@[k as int]);
                                assert(!clear_of(node_insts(self.root), *ray));
                            }
                            return false;
                        }
                    }
                    k = k + 1;
                }
                true
            },
            BVHNode::Composite(bvh1, bvh2) => {
                proof {
                    assert(bvh1.wf() && bvh2.wf());
                    assert(bvh1.bbox.wf() && bvh2.bbox.wf());
                }
                let int1 = bvh1.bbox.intersect(ray);
                let int2 = bvh2.bbox.intersect(ray);
                let ghost s1 = node_insts(bvh1.root);
                let ghost s2 = node_insts(bvh2.root);
                proof {
                    assert(node_insts(self.root) == s1 + s2);
                    assert(forall|i: int| 0 <= i < s1.len() ==> (s1 + s2)[i] == s1[i]);
                    assert(forall|i: int| 0 <= i < s2.len() ==> (s1 + s2)[s1.len() + i] == s2[i]);
                }
                let r = match (int1, int2) {
                    (Option::None, Option::None) => {
                        proof {
                            lemma_prune(**bvh1, *ray);
                            lemma_prune(**bvh2, *ray);
                        }
                        true
                    },
                    (Option::Some(_), Option::None) => {
                        proof {
                            lemma_prune(**bvh2, *ray);
                        }
                        bvh1.visible_ray(ray)
                    },
                    (Option::None, Option::Some(_)) => {
                        proof {
                            lemma_prune(**bvh1, *ray);
                        }
                        bvh2.visible_ray(ray)
                    },
                    (Option::Some(h1), Option::Some(h2)) => {
                        // walk the closer box first; a blocker on either
                        // side settles the answer
                        if h1.t.lt(h2.t) {
                            if !bvh1.visible_ray(ray) {
                                false
                            } else {
                                bvh2.visible_ray(ray)
                            }
                        } else {
                            if !bvh2.visible_ray(ray) {
                                false
                            } else {
                                bvh1.visible_ray(ray)
                            }
                        }
                    },
                };
                proof {
                    assert forall|i: int| 0 <= i < (s1 + s2).len() && r implies !occludes(
                        #[trigger] (s1 + s2)[i],
                        *ray,
                    ) by {
                        if i < s1.len() {
                            assert((s1 + s2)[i] == s1[i]);
                        } else {
                            assert((s1 + s2)[i] == s2[i - s1.len()]);
                        }
                    }
                    if !r {
                        assert(!clear_of(s1, *ray) || !clear_of(s2, *ray));
                        if !clear_of(s1, *ray) {
                            let i = choose|i: int| 0 <= i < s1.len() && occludes(#[trigger] s1[i], *ray);
                            assert((s1 + s2)[i] == s1[i]);
                            assert(!clear_of(s1 + s2, *ray));
                        } else {
                            let i = choose|i: int| 0 <= i < s2.len() && occludes(#[trigger] s2[i], *ray);
                            assert((s1 + s2)[s1.len() + i] == s2[i]);
                            assert(!clear_of(s1 + s2, *ray));
                        }
                    }
                }
                r
            },
        }
    }

    /// Whether the destination point is visible from the source point:
    /// no instance blocks the open segment between them.
    pub fn visible(&self, from: Point, to: Point) -> (r: bool)
        requires
            self.wf(),
            from.wf(),
            to.wf(),
        ensures
            r == spec_visible(node_insts(self.root), from, to),
    {
        if from == to {
            return true;
        }
        let dir = Vector::between(from, to);
        let ray = Ray::new(from, dir);
        self.visible_ray(&ray)
    }
}

/// The linear fallback: the same queries answered by scanning every
/// instance, used as the oracle the hierarchy is proved against.
pub struct BruteForce {
    pub instances: Vec<Instance>,
}

impl BruteForce {
    pub open spec fn wf(self) -> bool {
        forall|i: int| 0 <= i < self.instances@.len() ==> (#[trigger] self.instances@[i]).wf()
    }

    pub fn new(instances: Vec<Instance>) -> (r: BruteForce)
        requires
            forall|i: int| 0 <= i < instances@.len() ==> (#[trigger] instances@[i]).wf(),
        ensures
            r.wf(),
            r.instances@ == instances@,
    {
        BruteForce { instances }
    }

    /// The nearest hit, by testing every instance.
    pub fn intersect(&self, ray: &Ray) -> (r: Option<Intersection>)
        requires
            self.wf(),
            ray.wf(),
        ensures
            is_best_hit(self.instances@, *ray, r),
    {
        let instances = &self.instances;
        let mut best: Option<Intersection> = Option::None;
        let mut k: usize = 0;
        while k < instances.len()
            invariant
                k <= instances@.len(),
                ray.wf(),
                forall|i: int| 0 <= i < instances@.len() ==> (#[trigger] instances@[i]).wf(),
                is_best_hit(instances@.take(k as int), *ray, best),
            decreases instances@.len() - k,
        {
            let hit = instances[k].intersect(ray);
            let merged = Intersection::closest_intersection(best, hit);
            proof {
                let prefix = instances@.take(k as int);
                let inst = instances@[k as int];
                assert(is_best_hit(seq![inst], *ray, hit)) by {
                    if hit is Some {
                        assert(hit_of(seq![inst][0], *ray, hit->Some_0));
                    }
                }
                lemma_best_concat(prefix, seq![inst], *ray, best, hit, merged);
                assert(prefix + seq![inst] =~= instances@.take(k + 1));
            }
            best = merged;
            k = k + 1;
        }
        proof {
            assert(instances@.take(instances@.len() as int) =~= instances@);
        }
        best
    }

    /// Visibility, by testing every instance and stopping at the first
    /// blocker.
    pub fn visible(&self, from: Point, to: Point) -> (r: bool)
        requires
            self.wf(),
            from.wf(),
            to.wf(),
        ensures
            r == spec_visible(self.instances@, from, to),
    {
        if from == to {
            return true;
        }
        let dir = Vector::between(from, to);
        let ray = Ray::new(from, dir);
        let instances = &self.instances;
        let mut k: usize = 0;
        while k < instances.len()
            invariant
                k <= instances@.len(),
                ray.wf(),
                ray == spec_segment(from, to),
                from != to,
                instances@ == self.instances@,
                forall|i: int| 0 <= i < instances@.len() ==> (#[trigger] instances@[i]).wf(),
                forall|i: int| 0 <= i < k ==> !occludes(#[trigger] instances@[i], ray),
            decreases instances@.len() - k,
        {
            let hit = instances[k].intersect(&ray);
            if let Option::Some(h) = hit {
                if h.t.num < h.t.den {
                    proof {
                        assert(occludes(instances@[k as int], ray));
                        assert(self.instances@[k as int] == instances@[k as int]);
                        assert(!clear_of(self.instances@, ray));
                    }
                    return false;
                }
            }
            k = k + 1;
        }
        true
    }
}

/// Which acceleration structure a scene is built with.
#[derive(Clone, Copy, Debug)]
pub enum AccelerationStructureKind {
    BruteForce,
    BVH,
}

/// The acceleration structure behind a scene: a closed choice between the
/// hierarchy and the linear fallback, fixed at scene-build time. Call
/// sites do not care which variant answers.
pub enum AccelerationStructure {
    BruteForce(BruteForce),
    Bvh(BoundingVolumeHierarchy),
}

impl AccelerationStructure {
    pub open spec fn wf(self) -> bool {
        match self {
            AccelerationStructure::BruteForce(b) => b.wf(),
            AccelerationStructure::Bvh(t) => t.wf(),
        }
    }

    /// The instances the structure indexes.
    pub open spec fn insts(self) -> Seq<Instance> {
        match self {
            AccelerationStructure::BruteForce(b) => b.instances@,
            AccelerationStructure::Bvh(t) => node_insts(t.root),
        }
    }

    pub fn intersect(&self, ray: &Ray) -> (r: Option<Intersection>)
        requires
            self.wf(),
            ray.wf(),
        ensures
            is_best_hit(self.insts(), *ray, r),
    {
        match self {
            AccelerationStructure::BruteForce(b) => b.intersect(ray),
            AccelerationStructure::Bvh(t) => t.intersect(ray),
        }
    }

    pub fn visible(&self, from: Point, to: Point) -> (r: bool)
        requires
            self.wf(),
            from.wf(),
            to.wf(),
        ensures
            r == spec_visible(self.insts(), from, to),
    {
        match self {
            AccelerationStructure::BruteForce(b) => b.visible(from, to),
            AccelerationStructure::Bvh(t) => t.visible(from, to),
        }
    }
}

/// Builds the structure the configuration asks for over the given
/// instances: the chosen kind decides the variant, and whichever is built
/// indexes exactly the given instances.
pub fn create_acceleration_structure(
    instances: Vec<Instance>,
    kind: AccelerationStructureKind,
) -> (r: AccelerationStructure)
    requires
        forall|i: int| 0 <= i < instances@.len() ==> (#[trigger] instances@[i]).wf(),
    ensures
        r.wf(),
        r.insts().to_multiset() == instances@.to_multiset(),
        kind is BVH ==> (r matches AccelerationStructure::Bvh(t) && t.wf() && split_ok(t, Axis::X)),
        kind is BruteForce ==> (r matches AccelerationStructure::BruteForce(b) && b.instances@
            == instances@),
{
    match kind {
        AccelerationStructureKind::BruteForce => AccelerationStructure::BruteForce(
            BruteForce::new(instances),
        ),
        AccelerationStructureKind::BVH => AccelerationStructure::Bvh(
            BoundingVolumeHierarchy::new(instances),
        ),
    }
}

/// A well-formed node's box is exactly the union fold of the cached boxes
/// of the instances beneath it, grown from the inverted seed: `wf` pins a
/// leaf's box to that fold and a composite's box to the union of its
/// children's, and the folds concatenate.
pub proof fn lemma_wf_bbox_is_union(t: BoundingVolumeHierarchy)
    requires
        t.wf(),
    ensures
        t.bbox == boxes_union(node_insts(t.root)),
    decreases t,
{
    match t.root {
        BVHNode::Leaf(_) => {},
        BVHNode::Composite(l, r) => {
            lemma_wf_bbox_is_union(*l);
            lemma_wf_bbox_is_union(*r);
            lemma_wf_insts(*r);
            lemma_boxes_union_concat(node_insts(l.root), node_insts(r.root));
        },
    }
}

/// The union fold over a concatenation is the union of the folds, when
/// both parts are nonempty and hold well-formed instances (the seed of
/// the right part's fold is absorbed by its first bounded box).
proof fn lemma_boxes_union_concat(s1: Seq<Instance>, s2: Seq<Instance>)
    requires
        s1.len() > 0,
        s2.len() > 0,
        forall|i: int| 0 <= i < s2.len() ==> (#[trigger] s2[i]).wf(),
    ensures
        boxes_union(s1 + s2) == box_union_of(boxes_union(s1), boxes_union(s2)),
    decreases s2.len(),
{
    if s2.len() == 1 {
        assert((s1 + s2).drop_last() =~= s1);
        assert((s1 + s2).last() == s2[0]);
        assert(s2.drop_last() =~= Seq::<Instance>::empty());
        assert(boxes_union(s2.drop_last()) == spec_empty_box());
        assert(s2.last() == s2[0]);
        // union with the seed leaves a bounded box unchanged, so the fold
        // of the single instance is its own box
        assert(s2[0].bbox.wf());
        assert(boxes_union(s2) == box_union_of(spec_empty_box(), s2[0].bbox));
        assert(box_union_of(spec_empty_box(), s2[0].bbox) == s2[0].bbox);
    } else {
        lemma_boxes_union_concat(s1, s2.drop_last());
        assert((s1 + s2).drop_last() =~= s1 + s2.drop_last());
        assert((s1 + s2).last() == s2.last());
        // re-associating one trailing union: both sides take the min/max
        // of the same three boxes componentwise
        assert(box_union_of(
            box_union_of(boxes_union(s1), boxes_union(s2.drop_last())),
            s2.last().bbox,
        ) == box_union_of(
            boxes_union(s1),
            box_union_of(boxes_union(s2.drop_last()), s2.last().bbox),
        ));
    }
}

impl BoundingVolumeHierarchy {
    /// The bounding box of everything the hierarchy holds: the root's box,
    /// which is the union fold of every instance's box and encloses each.
    pub fn bounding_box(&self) -> (r: BoundingBox)
        requires
            self.wf(),
        ensures
            r == self.bbox,
            r == boxes_union(node_insts(self.root)),
            r.wf(),
            forall|i: int|
                0 <= i < node_insts(self.root).len() ==> (#[trigger] node_insts(
                    self.root,
                )[i]).bbox.spec_enclosed_by(r),
    {
        proof {
            lemma_wf_insts(*self);
            lemma_wf_bbox_is_union(*self);
        }
        self.bbox
    }
}

impl BruteForce {
    /// The union fold of the boxes of every instance held, grown from the
    /// inverted seed; it encloses each of them.
    pub fn bounding_box(&self) -> (r: BoundingBox)
        requires
            self.wf(),
        ensures
            r == boxes_union(self.instances@),
            r.wf(),
            forall|i: int|
                0 <= i < self.instances@.len() ==> (#[trigger] self.instances@[i]).bbox.spec_enclosed_by(
                    r,
                ),
    {
        union_of_instances(&self.instances)
    }
}

impl AccelerationStructure {
    /// The bounding box of everything the structure indexes: the union
    /// fold of the instances' boxes, whichever variant answers.
    pub fn bounding_box(&self) -> (r: BoundingBox)
        requires
            self.wf(),
        ensures
            r == boxes_union(self.insts()),
            r.wf(),
            forall|i: int|
                0 <= i < self.insts().len() ==> (#[trigger] self.insts()[i]).bbox.spec_enclosed_by(
                    r,
                ),
    {
        match self {
            AccelerationStructure::BruteForce(b) => b.bounding_box(),
            AccelerationStructure::Bvh(t) => t.bounding_box(),
        }
    }
}

/// Equivalence of nearest-hit answers: any two results that are each best
/// over the same instances, in any order, agree on whether there is a hit
/// and on the hit distance. In particular the hierarchy and the linear
/// scan answer alike for every scene and every ray.
pub proof fn lemma_intersect_equivalence(
    s1: Seq<Instance>,
    s2: Seq<Instance>,
    ray: Ray,
    r1: Option<Intersection>,
    r2: Option<Intersection>,
)
    requires
        s1.to_multiset() == s2.to_multiset(),
        is_best_hit(s1, ray, r1),
        is_best_hit(s2, ray, r2),
    ensures
        r1 is Some <==> r2 is Some,
        r1 matches Some(h1) ==> r2 matches Some(h2) ==> h1.t.spec_eq(h2.t),
{
    if r1 is Some {
        let h1 = r1->Some_0;
        let k = choose|k: int| 0 <= k < s1.len() && hit_of(#[trigger] s1[k], ray, h1);
        assert(s1.contains(s1[k]));
        assert(s2.to_multiset().count(s1[k]) > 0);
        assert(s2.contains(s1[k]));
        let j = choose|j: int| 0 <= j < s2.len() && s2[j] == s1[k];
        assert(s2[j].spec_hit(ray) is Some);
        assert(r2 is Some);
    }
    if r2 is Some {
        let h2 = r2->Some_0;
        let k = choose|k: int| 0 <= k < s2.len() && hit_of(#[trigger] s2[k], ray, h2);
        assert(s2.contains(s2[k]));
        assert(s1.to_multiset().count(s2[k]) > 0);
        assert(s1.contains(s2[k]));
        let j = choose|j: int| 0 <= j < s1.len() && s1[j] == s2[k];
        assert(s1[j].spec_hit(ray) is Some);
        assert(r1 is Some);
    }
    if r1 is Some && r2 is Some {
        let h1 = r1->Some_0;
        let h2 = r2->Some_0;
        // each best parameter sits below the other's witness hit
        let k1 = choose|k: int| 0 <= k < s1.len() && hit_of(#[trigger] s1[k], ray, h1);
        let k2 = choose|k: int| 0 <= k < s2.len() && hit_of(#[trigger] s2[k], ray, h2);
        assert(s2.to_multiset().count(s1[k1]) > 0);
        assert(s2.contains(s1[k1]));
        let j1 = choose|j: int| 0 <= j < s2.len() && s2[j] == s1[k1];
        assert(s1.to_multiset().count(s2[k2]) > 0);
        assert(s1.contains(s2[k2]));
        let j2 = choose|j: int| 0 <= j < s1.len() && s1[j] == s2[k2];
        assert(h1.t.num * h2.t.den <= h2.t.num * h1.t.den) by {
            assert(s1[j2].spec_hit(ray) == Option::Some((h2.t.num as int, h2.t.den as int)));
        }
        assert(h2.t.num * h1.t.den <= h1.t.num * h2.t.den) by {
            assert(s2[j1].spec_hit(ray) == Option::Some((h1.t.num as int, h1.t.den as int)));
        }
    }
}

/// Equivalence of visibility answers over the same instances in any
/// order: the hierarchy and the linear scan agree for every pair of
/// points.
pub proof fn lemma_visible_equivalence(s1: Seq<Instance>, s2: Seq<Instance>, from: Point, to: Point)
    requires
        s1.to_multiset() == s2.to_multiset(),
    ensures
        spec_visible(s1, from, to) == spec_visible(s2, from, to),
{
    let ray = spec_segment(from, to);
    if !clear_of(s1, ray) {
        let i = choose|i: int| 0 <= i < s1.len() && occludes(#[trigger] s1[i], ray);
        assert(s1.contains(s1[i]));
        assert(s2.to_multiset().count(s1[i]) > 0);
        assert(s2.contains(s1[i]));
        let j = choose|j: int| 0 <= j < s2.len() && s2[j] == s1[i];
        assert(occludes(s2[j], ray));
        assert(!clear_of(s2, ray));
    }
    if !clear_of(s2, ray) {
        let i = choose|i: int| 0 <= i < s2.len() && occludes(#[trigger] s2[i], ray);
        assert(s2.contains(s2[i]));
        assert(s1.to_multiset().count(s2[i]) > 0);
        assert(s1.contains(s2[i]));
        let j = choose|j: int| 0 <= j < s1.len() && s1[j] == s2[i];
        assert(occludes(s1[j], ray));
        assert(!clear_of(s1, ray));
    }
}

} // verus!
