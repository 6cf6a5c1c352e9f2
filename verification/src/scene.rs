use vstd::prelude::*;
use crate::acceleration::{
    AccelerationStructure, AccelerationStructureKind, create_acceleration_structure, is_best_hit,
    spec_visible,
};
use crate::geometry::{Point, Ray};
use crate::objects::{Instance, Intersection};

verus! {

/// A scene: the instances behind one acceleration structure, chosen at
/// build time, plus the positions its lights shine from; shared read-only
/// for the whole render. Every geometric query of the renderer goes
/// through here. What else a light carries (its power, its color) belongs
/// to shading, outside this crate.
pub struct Scene {
    pub acc_structure: AccelerationStructure,
    pub lights: Vec<Point>,
}

impl Scene {
    pub open spec fn wf(self) -> bool {
        &&& self.acc_structure.wf()
        &&& forall|i: int| 0 <= i < self.lights@.len() ==> (#[trigger] self.lights@[i]).wf()
    }

    /// The instances the scene holds.
    pub open spec fn insts(self) -> Seq<Instance> {
        self.acc_structure.insts()
    }

    pub fn new(instances: Vec<Instance>, lights: Vec<Point>, kind: AccelerationStructureKind) -> (r:
        Scene)
        requires
            forall|i: int| 0 <= i < instances@.len() ==> (#[trigger] instances@[i]).wf(),
            forall|i: int| 0 <= i < lights@.len() ==> (#[trigger] lights@[i]).wf(),
        ensures
            r.wf(),
            r.insts().to_multiset() == instances@.to_multiset(),
            r.lights@ == lights@,
            kind is BVH ==> r.acc_structure is Bvh,
            kind is BruteForce ==> r.acc_structure is BruteForce,
    {
        let acc_structure = create_acceleration_structure(instances, kind);
        Scene { acc_structure, lights }
    }

    /// How many lights the scene has; a light's position is handed out by
    /// its index.
    pub fn light_count(&self) -> (r: usize)
        ensures
            r == self.lights@.len(),
    {
        self.lights.len()
    }

    pub fn light(&self, k: usize) -> (r: Point)
        requires
            k < self.lights@.len(),
        ensures
            r == self.lights@[k as int],
            self.wf() ==> r.wf(),
    {
        self.lights[k]
    }

    /// The nearest hit of the ray in the scene.
    pub fn intersect(&self, ray: &Ray) -> (r: Option<Intersection>)
        requires
            self.wf(),
            ray.wf(),
        ensures
            is_best_hit(self.insts(), *ray, r),
    {
        self.acc_structure.intersect(ray)
    }

    /// Whether the destination point is visible from the source point.
    pub fn visible(&self, from: Point, to: Point) -> (r: bool)
        requires
            self.wf(),
            from.wf(),
            to.wf(),
        ensures
            r == spec_visible(self.insts(), from, to),
    {
        self.acc_structure.visible(from, to)
    }
}

} // verus!
