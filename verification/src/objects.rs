use vstd::prelude::*;
use crate::num::{Rat, lemma_mul_bound, is_floor_sqrt, floor_sqrt, lemma_floor_sqrt_of, isqrt, FRAC_LIMIT};
use crate::geometry::{
    Point, Vector, Ray, BoundingBox, RatPoint, ray_point_at, ray_at_axis, in_box_at, in_slab_at,
    box_entry, lemma_box_entry_some, pt_axis, vec_axis, COORD_LIMIT, DIR_LIMIT,
};

verus! {

/// A geometric object placed in world space. A closed set of shapes stands
/// in for dynamic dispatch over object implementations: every query the
/// hierarchy makes goes through `Shape::intersect`.
#[derive(Clone, Copy, Debug)]
pub enum Shape {
    /// A sphere given by its center and radius.
    Sphere { center: Point, radius: i64 },
    /// An axis-aligned box.
    Aabb { bounds: BoundingBox },
}

/// The quadratic coefficient `a` of the sphere equation along a ray:
/// the squared length of the direction.
pub open spec fn sphere_a(ray: Ray) -> int {
    let d = ray.direction;
    d.x * d.x + d.y * d.y + d.z * d.z
}

pub open spec fn sphere_b(center: Point, ray: Ray) -> int {
    let o = ray.origin;
    let d = ray.direction;
    2 * ((o.x - center.x) * d.x + (o.y - center.y) * d.y + (o.z - center.z) * d.z)
}

pub open spec fn sphere_c(center: Point, radius: int, ray: Ray) -> int {
    let o = ray.origin;
    (o.x - center.x) * (o.x - center.x) + (o.y - center.y) * (o.y - center.y) + (o.z - center.z)
        * (o.z - center.z) - radius * radius
}

pub open spec fn sphere_disc(center: Point, radius: int, ray: Ray) -> int {
    sphere_b(center, ray) * sphere_b(center, ray) - 4 * (sphere_a(ray) * sphere_c(
        center,
        radius,
        ray,
    ))
}

/// Where a ray first crosses a sphere. There is a hit exactly when the
/// quadratic `a*t*t + b*t + c` has a positive real root: the discriminant
/// is nonnegative and, by integer case analysis, the smaller root is
/// positive (`b < 0` and `disc < b*b`) or only the larger one is (`b < 0`
/// or `disc > b*b`). The reported parameter replaces the root's irrational
/// square root by its integer floor, giving an exact rational that lies
/// between the two crossings, within `1 / (2 a)` of the true root.
pub open spec fn sphere_hit(center: Point, radius: int, ray: Ray) -> Option<(int, int)> {
    let a = sphere_a(ray);
    let b = sphere_b(center, ray);
    let disc = sphere_disc(center, radius, ray);
    if a == 0 {
        Option::None
    } else if disc < 0 {
        Option::None
    } else {
        let s = floor_sqrt(disc);
        if b < 0 && disc < b * b {
            Option::Some((-b - s, 2 * a))
        } else if b < 0 || disc > b * b {
            Option::Some((-b + s, 2 * a))
        } else {
            Option::None
        }
    }
}

impl Shape {
    pub open spec fn wf(self) -> bool {
        match self {
            Shape::Sphere { center, radius } => {
                &&& 0 < radius <= COORD_LIMIT
                &&& center.wf()
                &&& -COORD_LIMIT <= center.x - radius && center.x + radius <= COORD_LIMIT
                &&& -COORD_LIMIT <= center.y - radius && center.y + radius <= COORD_LIMIT
                &&& -COORD_LIMIT <= center.z - radius && center.z + radius <= COORD_LIMIT
            },
            Shape::Aabb { bounds } => bounds.wf(),
        }
    }

    /// The world-space bounding box of the shape.
    pub open spec fn spec_bounds(self) -> BoundingBox {
        match self {
            Shape::Sphere { center, radius } => BoundingBox {
                min: Point {
                    x: (center.x - radius) as i64,
                    y: (center.y - radius) as i64,
                    z: (center.z - radius) as i64,
                },
                max: Point {
                    x: (center.x + radius) as i64,
                    y: (center.y + radius) as i64,
                    z: (center.z + radius) as i64,
                },
            },
            Shape::Aabb { bounds } => bounds,
        }
    }

    /// Where a ray first hits the shape, as an exact rational parameter.
    pub open spec fn spec_hit(self, ray: Ray) -> Option<(int, int)> {
        match self {
            Shape::Sphere { center, radius } => sphere_hit(center, radius as int, ray),
            Shape::Aabb { bounds } => box_entry(bounds, ray),
        }
    }

    pub fn bounding_box(&self) -> (r: BoundingBox)
        requires
            self.wf(),
        ensures
            r == self.spec_bounds(),
            r.wf(),
    {
        match self {
            Shape::Sphere { center, radius } => BoundingBox {
                min: Point {
                    x: center.x - radius,
                    y: center.y - radius,
                    z: center.z - radius,
                },
                max: Point {
                    x: center.x + radius,
                    y: center.y + radius,
                    z: center.z + radius,
                },
            },
            Shape::Aabb { bounds } => *bounds,
        }
    }
}

/// A hit along a ray: the exact parameter, the hit point, the surface
/// normal direction (not normalized; exact), and the material of the hit
/// object, carried through for shading.
#[derive(Clone, Copy, Debug)]
pub struct Intersection {
    pub t: Rat,
    pub point: RatPoint,
    pub normal: RatPoint,
    pub material: usize,
}

impl Intersection {
    pub open spec fn wf(self) -> bool {
        &&& self.t.bounded()
        &&& self.t.spec_nonneg()
        &&& self.point.wf()
        &&& self.normal.wf()
    }

    pub fn t(&self) -> (r: Rat)
        ensures
            r == self.t,
    {
        self.t
    }

    pub fn point(&self) -> (r: RatPoint)
        ensures
            r == self.point,
    {
        self.point
    }

    pub fn normal(&self) -> (r: RatPoint)
        ensures
            r == self.normal,
    {
        self.normal
    }

    pub fn material(&self) -> (r: usize)
        ensures
            r == self.material,
    {
        self.material
    }

    /// Of two optional hits, the one with the smaller parameter; a tie
    /// keeps the second, as the fold over instances does.
    pub fn closest_intersection(
        first: Option<Intersection>,
        second: Option<Intersection>,
    ) -> (r: Option<Intersection>)
        requires
            first matches Some(i1) ==> i1.wf(),
            second matches Some(i2) ==> i2.wf(),
        ensures
            r is Some <==> (first is Some || second is Some),
            first is None ==> r == second,
            second is None ==> r == first,
            first matches Some(i1) ==> second matches Some(i2) ==> (if i1.t.spec_lt(i2.t) {
                r == first
            } else {
                r == second
            }),
    {
        match (first, second) {
            (Option::Some(i1), Option::Some(i2)) => {
                if i1.t.lt(i2.t) {
                    Option::Some(i1)
                } else {
                    Option::Some(i2)
                }
            },
            (Option::Some(i1), Option::None) => Option::Some(i1),
            _ => second,
        }
    }
}

/// Whether an optional hit carries exactly an optional rational parameter.
pub open spec fn hit_matches(r: Option<Intersection>, p: Option<(int, int)>) -> bool {
    match (r, p) {
        (Option::None, Option::None) => true,
        (Option::Some(i), Option::Some(pp)) => i.t.num == pp.0 && i.t.den == pp.1,
        _ => false,
    }
}

/// A rational vector holding exactly an integer vector.
pub open spec fn rat_vec_is(n: RatPoint, v: Vector) -> bool {
    &&& n.x.num == v.x && n.x.den == 1
    &&& n.y.num == v.y && n.y.den == 1
    &&& n.z.num == v.z && n.z.den == 1
}

/// The normal reported for a box hit: straight against the ray for an
/// origin inside the box, otherwise the face normal of the axis whose slab
/// entry decided the entry parameter.
pub open spec fn aabb_normal_ok(b: BoundingBox, ray: Ray, t: Rat, n: RatPoint) -> bool {
    if b.spec_contains(ray.origin) {
        &&& n.x.num == -ray.direction.x && n.x.den == 1
        &&& n.y.num == -ray.direction.y && n.y.den == 1
        &&& n.z.num == -ray.direction.z && n.z.den == 1
    } else {
        exists|a: int|
            0 <= a < 3 && vec_axis(ray.direction, a) != 0 && (t.num as int, t.den as int)
                == crate::geometry::slab_lo(b, ray, a) && rat_vec_is(
                n,
                crate::geometry::axis_unit(a, vec_axis(ray.direction, a) > 0),
            )
    }
}

/// The normal reported for a sphere hit: the exact vector from the center
/// to the hit point.
pub open spec fn sphere_normal_ok(center: Point, t: Rat, p: RatPoint, n: RatPoint) -> bool {
    &&& n.x.num == p.x.num - center.x * t.den && n.x.den == t.den
    &&& n.y.num == p.y.num - center.y * t.den && n.y.den == t.den
    &&& n.z.num == p.z.num - center.z * t.den && n.z.den == t.den
}

/// How the point and normal of a reported hit relate to the shape.
pub open spec fn shape_hit_geometry_ok(s: Shape, ray: Ray, h: Intersection) -> bool {
    &&& h.point.x.num == ray_at_axis(ray, h.t.num as int, h.t.den as int, 0) && h.point.x.den
        == h.t.den
    &&& h.point.y.num == ray_at_axis(ray, h.t.num as int, h.t.den as int, 1) && h.point.y.den
        == h.t.den
    &&& h.point.z.num == ray_at_axis(ray, h.t.num as int, h.t.den as int, 2) && h.point.z.den
        == h.t.den
    &&& (s matches Shape::Sphere { center, radius } ==> sphere_normal_ok(
        center,
        h.t,
        h.point,
        h.normal,
    ))
    &&& (s matches Shape::Aabb { bounds } ==> aabb_normal_ok(bounds, ray, h.t, h.normal))
}

impl Shape {
    /// Where the ray first hits the shape, with the hit point, normal and
    /// material attached. The parameter matches `spec_hit` exactly.
    pub fn intersect(&self, ray: &Ray, material: usize) -> (r: Option<Intersection>)
        requires
            self.wf(),
            ray.wf(),
        ensures
            hit_matches(r, self.spec_hit(*ray)),
            r matches Some(h) ==> h.wf() && h.material == material && shape_hit_geometry_ok(
                *self,
                *ray,
                h,
            ),
    {
        match self {
            Shape::Aabb { bounds } => {
                match bounds.intersect(ray) {
                    Option::None => Option::None,
                    Option::Some(bh) => {
                        let normal = RatPoint {
                            x: Rat { num: bh.normal.x as i128, den: 1 },
                            y: Rat { num: bh.normal.y as i128, den: 1 },
                            z: Rat { num: bh.normal.z as i128, den: 1 },
                        };
                        let res = Intersection { t: bh.t, point: bh.point, normal, material };
                        proof {
                            if !bounds.spec_contains(ray.origin) {
                                let a = choose|a: int|
                                    0 <= a < 3 && vec_axis(ray.direction, a) != 0 && (
                                    bh.t.num as int,
                                    bh.t.den as int,
                                    ) == crate::geometry::slab_lo(*bounds, *ray, a) && bh.normal
                                        == crate::geometry::axis_unit(
                                        a,
                                        vec_axis(ray.direction, a) > 0,
                                    );
                                assert(rat_vec_is(
                                    res.normal,
                                    crate::geometry::axis_unit(a, vec_axis(ray.direction, a) > 0),
                                ));
                            }
                        }
                        Option::Some(res)
                    },
                }
            },
            Shape::Sphere { center, radius } => sphere_intersect(*center, *radius, ray, material),
        }
    }
}

/// The sphere branch of `Shape::intersect`: solves the quadratic exactly,
/// reporting a hit only at an exact rational root.
fn sphere_intersect(center: Point, radius: i64, ray: &Ray, material: usize) -> (r: Option<
    Intersection,
>)
    requires
        (Shape::Sphere { center, radius }).wf(),
        ray.wf(),
    ensures
        hit_matches(r, sphere_hit(center, radius as int, *ray)),
        r matches Some(h) ==> h.wf() && h.material == material && shape_hit_geometry_ok(
            Shape::Sphere { center, radius },
            *ray,
            h,
        ),
{
    let o = ray.origin;
    let d = ray.direction;
    let dx: i128 = d.x as i128;
    let dy: i128 = d.y as i128;
    let dz: i128 = d.z as i128;
    let ocx: i128 = (o.x - center.x) as i128;
    let ocy: i128 = (o.y - center.y) as i128;
    let ocz: i128 = (o.z - center.z) as i128;
    proof {
        lemma_mul_bound(dx as int, dx as int, DIR_LIMIT as int, DIR_LIMIT as int);
        lemma_mul_bound(dy as int, dy as int, DIR_LIMIT as int, DIR_LIMIT as int);
        lemma_mul_bound(dz as int, dz as int, DIR_LIMIT as int, DIR_LIMIT as int);
        lemma_mul_bound(ocx as int, dx as int, DIR_LIMIT as int, DIR_LIMIT as int);
        lemma_mul_bound(ocy as int, dy as int, DIR_LIMIT as int, DIR_LIMIT as int);
        lemma_mul_bound(ocz as int, dz as int, DIR_LIMIT as int, DIR_LIMIT as int);
        lemma_mul_bound(ocx as int, ocx as int, DIR_LIMIT as int, DIR_LIMIT as int);
        lemma_mul_bound(ocy as int, ocy as int, DIR_LIMIT as int, DIR_LIMIT as int);
        lemma_mul_bound(ocz as int, ocz as int, DIR_LIMIT as int, DIR_LIMIT as int);
        lemma_mul_bound(radius as int, radius as int, COORD_LIMIT as int, COORD_LIMIT as int);
    }
    let a: i128 = dx * dx + dy * dy + dz * dz;
    let b: i128 = 2 * (ocx * dx + ocy * dy + ocz * dz);
    let c: i128 = ocx * ocx + ocy * ocy + ocz * ocz - (radius as i128) * (radius as i128);
    proof {
        lemma_mul_bound(b as int, b as int, 24_000_000_000_000, 24_000_000_000_000);
        lemma_mul_bound(a as int, c as int, 12_000_000_000_000, 13_000_000_000_000);
    }
    let disc: i128 = b * b - 4 * (a * c);
    if a == 0 {
        return Option::None;
    }
    if disc < 0 {
        return Option::None;
    }
    let s128: u128 = isqrt(disc as u128);
    proof {
        assert(s128 * s128 <= disc as u128);
        assert(s128 as int <= 40_000_000_000_000) by (nonlinear_arith)
            requires
                s128 as int >= 0,
                (s128 as int) * (s128 as int) <= 1_200_000_000_000_000_000_000_000_000,
        ;
    }
    let s: i128 = s128 as i128;
    proof {
        lemma_mul_bound(s as int, s as int, 40_000_000_000_000, 40_000_000_000_000);
        lemma_floor_sqrt_of(disc as int, s as int);
        assert(disc as int == sphere_disc(center, radius as int, *ray));
        assert(a > 0) by (nonlinear_arith)
            requires
                a == dx * dx + dy * dy + dz * dz,
                a != 0,
        ;
    }
    let den: i128 = 2 * a;
    if b < 0 && disc < b * b {
        // the smaller root is positive; its floored numerator is too
        proof {
            assert(s < -b) by (nonlinear_arith)
                requires
                    0 <= s,
                    b < 0,
                    (s as int) * (s as int) <= disc,
                    disc < (b as int) * (b as int),
            ;
        }
        Option::Some(sphere_hit_result(center, radius, ray, material, -b - s, den))
    } else if b < 0 || disc > b * b {
        // only the larger root is positive; its floored numerator is
        // nonnegative
        proof {
            if b >= 0 {
                assert(s >= b) by (nonlinear_arith)
                    requires
                        0 <= s,
                        b >= 0,
                        disc < (s as int + 1) * (s as int + 1),
                        (b as int) * (b as int) < disc,
                ;
            }
        }
        Option::Some(sphere_hit_result(center, radius, ray, material, -b + s, den))
    } else {
        Option::None
    }
}

/// Builds the intersection record for a sphere hit at parameter `tn / td`.
fn sphere_hit_result(center: Point, radius: i64, ray: &Ray, material: usize, tn: i128, td: i128) -> (r:
    Intersection)
    requires
        (Shape::Sphere { center, radius }).wf(),
        ray.wf(),
        0 <= tn <= 100_000_000_000_000,
        0 < td <= 100_000_000_000_000,
    ensures
        r.t.num == tn && r.t.den == td,
        r.wf(),
        r.material == material,
        shape_hit_geometry_ok(Shape::Sphere { center, radius }, *ray, r),
{
    let t = Rat { num: tn, den: td };
    let point = ray_point_at(ray, t);
    proof {
        lemma_mul_bound(ray.origin.x as int, td as int, COORD_LIMIT as int, FRAC_LIMIT as int);
        lemma_mul_bound(ray.origin.y as int, td as int, COORD_LIMIT as int, FRAC_LIMIT as int);
        lemma_mul_bound(ray.origin.z as int, td as int, COORD_LIMIT as int, FRAC_LIMIT as int);
        lemma_mul_bound(tn as int, ray.direction.x as int, FRAC_LIMIT as int, DIR_LIMIT as int);
        lemma_mul_bound(tn as int, ray.direction.y as int, FRAC_LIMIT as int, DIR_LIMIT as int);
        lemma_mul_bound(tn as int, ray.direction.z as int, FRAC_LIMIT as int, DIR_LIMIT as int);
        lemma_mul_bound(center.x as int, td as int, COORD_LIMIT as int, FRAC_LIMIT as int);
        lemma_mul_bound(center.y as int, td as int, COORD_LIMIT as int, FRAC_LIMIT as int);
        lemma_mul_bound(center.z as int, td as int, COORD_LIMIT as int, FRAC_LIMIT as int);
    }
    let normal = RatPoint {
        x: Rat { num: point.x.num - (center.x as i128) * td, den: td },
        y: Rat { num: point.y.num - (center.y as i128) * td, den: td },
        z: Rat { num: point.z.num - (center.z as i128) * td, den: td },
    };
    Intersection { t, point, normal, material }
}

/// A scene placement of an object: the shape in world space, its material,
/// and a bounding box cached at construction time. Instances are built once
/// when the scene is assembled and never change afterwards; that is what
/// makes sharing them across query threads safe.
#[derive(Clone, Copy, Debug)]
pub struct Instance {
    pub shape: Shape,
    pub material: usize,
    pub bbox: BoundingBox,
}

impl Instance {
    /// The cached box is exactly the shape's bounding box.
    pub open spec fn wf(self) -> bool {
        self.shape.wf() && self.bbox == self.shape.spec_bounds()
    }

    pub open spec fn spec_hit(self, ray: Ray) -> Option<(int, int)> {
        self.shape.spec_hit(ray)
    }

    pub fn new(shape: Shape, material: usize) -> (r: Instance)
        requires
            shape.wf(),
        ensures
            r.wf(),
            r.shape == shape,
            r.material == material,
    {
        let bbox = shape.bounding_box();
        Instance { shape, material, bbox }
    }

    pub fn intersect(&self, ray: &Ray) -> (r: Option<Intersection>)
        requires
            self.wf(),
            ray.wf(),
        ensures
            hit_matches(r, self.spec_hit(*ray)),
            r matches Some(h) ==> h.wf() && h.material == self.material && shape_hit_geometry_ok(
                self.shape,
                *ray,
                h,
            ),
    {
        self.shape.intersect(ray, self.material)
    }

    pub fn bounding_box(&self) -> (r: BoundingBox)
        ensures
            r == self.bbox,
    {
        self.bbox
    }

    pub fn material(&self) -> (r: usize)
        ensures
            r == self.material,
    {
        self.material
    }
}

/// A reported instance hit happens at a nonnegative parameter at which the
/// ray is inside the instance's cached bounding box.
pub proof fn lemma_inst_hit_in_bbox(inst: Instance, ray: Ray)
    requires
        inst.wf(),
        ray.wf(),
        inst.spec_hit(ray) is Some,
    ensures
        ({
            let (tn, td) = inst.spec_hit(ray)->Some_0;
            &&& td > 0
            &&& tn >= 0
            &&& in_box_at(inst.bbox, ray, tn, td)
        }),
{
    lemma_shape_hit_in_bounds(inst.shape, ray);
}

/// A square sitting below another square of a nonnegative value bounds the
/// base in absolute value.
proof fn lemma_abs_le_of_sq(u: int, v: int) by (nonlinear_arith)
    requires
        u * u <= v * v,
        v >= 0,
    ensures
        -v <= u <= v,
{
}

/// A hit parameter reported for a shape is a nonnegative rational at which
/// the ray is inside the shape's bounding box. This is what lets the
/// hierarchy prune: a missed box means no instance inside it can be hit.
pub proof fn lemma_shape_hit_in_bounds(s: Shape, ray: Ray)
    requires
        s.wf(),
        ray.wf(),
        s.spec_hit(ray) is Some,
    ensures
        ({
            let (tn, td) = s.spec_hit(ray)->Some_0;
            &&& td > 0
            &&& tn >= 0
            &&& in_box_at(s.spec_bounds(), ray, tn, td)
        }),
{
    match s {
        Shape::Aabb { bounds } => {
            lemma_box_entry_some(bounds, ray);
        },
        Shape::Sphere { center, radius } => {
            lemma_sphere_hit_in_bounds(center, radius as int, ray, s.spec_bounds());
        },
    }
}

/// Scaling the sphere equation by the squared denominator of a rational
/// parameter: the squared offsets of the ray's point from the center sum
/// to the quadratic's value there plus the squared scaled radius.
#[verifier::rlimit(100)]
proof fn lemma_sphere_surface(
    a: int,
    b: int,
    c: int,
    radius: int,
    tn: int,
    td: int,
    ocx: int,
    ocy: int,
    ocz: int,
    dx: int,
    dy: int,
    dz: int,
    ux: int,
    uy: int,
    uz: int,
    rtd: int,
)
    requires
        a == dx * dx + dy * dy + dz * dz,
        b == 2 * (ocx * dx + ocy * dy + ocz * dz),
        c == ocx * ocx + ocy * ocy + ocz * ocz - radius * radius,
        ux == ocx * td + tn * dx,
        uy == ocy * td + tn * dy,
        uz == ocz * td + tn * dz,
        rtd == radius * td,
    ensures
        ux * ux + uy * uy + uz * uz == a * tn * tn + b * tn * td + c * td * td + rtd * rtd,
{
    lemma_sq_expand(ocx, dx, tn, td, ux);
    lemma_sq_expand(ocy, dy, tn, td, uy);
    lemma_sq_expand(ocz, dz, tn, td, uz);
    assert(a * tn * tn == dx * dx * tn * tn + dy * dy * tn * tn + dz * dz * tn * tn)
        by (nonlinear_arith)
        requires
            a == dx * dx + dy * dy + dz * dz,
    ;
    assert(b * tn * td == 2 * (ocx * dx * tn * td) + 2 * (ocy * dy * tn * td) + 2 * (ocz * dz * tn
        * td)) by (nonlinear_arith)
        requires
            b == 2 * (ocx * dx + ocy * dy + ocz * dz),
    ;
    assert(c * td * td == ocx * ocx * td * td + ocy * ocy * td * td + ocz * ocz * td * td - radius
        * radius * td * td) by (nonlinear_arith)
        requires
            c == ocx * ocx + ocy * ocy + ocz * ocz - radius * radius,
    ;
    assert(rtd * rtd == radius * radius * td * td) by (nonlinear_arith)
        requires
            rtd == radius * td,
    ;
}

/// The value of the quadratic at a rational whose numerator is `-b` plus
/// or minus `s`, over the denominator `2 a`: it is `a` times the amount by
/// which `s * s` falls short of the discriminant. With an exact square
/// root the value is zero; with the floored root it is nonpositive, which
/// places the parameter between the two real crossings.
#[verifier::rlimit(100)]
proof fn lemma_quadratic_value(a: int, b: int, c: int, s: int, tn: int, td: int)
    requires
        tn == -b - s || tn == -b + s,
        td == 2 * a,
    ensures
        a * tn * tn + b * tn * td + c * td * td == a * (s * s - (b * b - 4 * (a * c))),
{
    assert(a * tn * tn + b * tn * td + c * td * td == a * (s * s - (b * b - 4 * (a * c))))
        by (nonlinear_arith)
        requires
            tn == -b - s || tn == -b + s,
            td == 2 * a,
    ;
}

/// How tight the floored sphere parameter is: the quadratic is
/// nonpositive at the reported parameter (the ray's point there lies on
/// or inside the sphere), and one numerator step away from it, on the
/// side of the replaced root, the quadratic is positive again (outside
/// the sphere). The reported parameter therefore differs from a true
/// crossing by less than one over its denominator, `1 / (2 a)`.
pub proof fn lemma_sphere_hit_bracketed(center: Point, radius: int, ray: Ray)
    requires
        0 < radius,
        sphere_hit(center, radius, ray) is Some,
    ensures
        ({
            let (tn, td) = sphere_hit(center, radius, ray)->Some_0;
            let a = sphere_a(ray);
            let b = sphere_b(center, ray);
            let c = sphere_c(center, radius, ray);
            &&& a * tn * tn + b * tn * td + c * td * td <= 0
            &&& (a * (tn - 1) * (tn - 1) + b * (tn - 1) * td + c * td * td > 0 || a * (tn + 1) * (tn
                + 1) + b * (tn + 1) * td + c * td * td > 0)
        }),
{
    let a = sphere_a(ray);
    let b = sphere_b(center, ray);
    let c = sphere_c(center, radius, ray);
    let disc = sphere_disc(center, radius, ray);
    lemma_floor_sqrt_exists(disc);
    let s = floor_sqrt(disc);
    assert(is_floor_sqrt(disc, s));
    let (tn, td) = sphere_hit(center, radius, ray)->Some_0;
    let d = ray.direction;
    assert(a > 0) by (nonlinear_arith)
        requires
            a == d.x * d.x + d.y * d.y + d.z * d.z,
            a != 0,
    ;
    lemma_quadratic_value(a, b, c, s, tn, td);
    assert(a * tn * tn + b * tn * td + c * td * td <= 0) by (nonlinear_arith)
        requires
            a * tn * tn + b * tn * td + c * td * td == a * (s * s - (b * b - 4 * (a * c))),
            s * s <= b * b - 4 * (a * c),
            a > 0,
    ;
    if tn == -b - s {
        // one step back stands for the root's square root rounded up
        lemma_quadratic_value(a, b, c, s + 1, tn - 1, td);
        assert(a * (tn - 1) * (tn - 1) + b * (tn - 1) * td + c * td * td > 0) by (nonlinear_arith)
            requires
                a * (tn - 1) * (tn - 1) + b * (tn - 1) * td + c * td * td == a * ((s + 1) * (s + 1)
                    - (b * b - 4 * (a * c))),
                b * b - 4 * (a * c) < (s + 1) * (s + 1),
                a > 0,
        ;
    } else {
        // one step forward stands for the root's square root rounded up
        lemma_quadratic_value(a, b, c, s + 1, tn + 1, td);
        assert(a * (tn + 1) * (tn + 1) + b * (tn + 1) * td + c * td * td > 0) by (nonlinear_arith)
            requires
                a * (tn + 1) * (tn + 1) + b * (tn + 1) * td + c * td * td == a * ((s + 1) * (s + 1)
                    - (b * b - 4 * (a * c))),
                b * b - 4 * (a * c) < (s + 1) * (s + 1),
                a > 0,
        ;
    }
}

/// Every nonnegative integer has a floor square root.
proof fn lemma_floor_sqrt_exists(n: int)
    requires
        n >= 0,
    ensures
        is_floor_sqrt(n, floor_sqrt(n)),
    decreases n,
{
    if n == 0 {
        assert(is_floor_sqrt(0, 0)) by (nonlinear_arith);
    } else {
        lemma_floor_sqrt_exists(n - 1);
        let s = floor_sqrt(n - 1);
        if (s + 1) * (s + 1) <= n {
            assert(is_floor_sqrt(n, s + 1)) by (nonlinear_arith)
                requires
                    0 <= s,
                    s * s <= n - 1,
                    n - 1 < (s + 1) * (s + 1),
                    (s + 1) * (s + 1) <= n,
            ;
        } else {
            assert(is_floor_sqrt(n, s));
        }
    }
}

/// Squaring a two-term sum of products, stated over canonical monomials.
#[verifier::rlimit(100)]
proof fn lemma_sq_expand(oc: int, dd: int, tn: int, td: int, u: int)
    requires
        u == oc * td + tn * dd,
    ensures
        u * u == oc * oc * td * td + 2 * (oc * dd * tn * td) + dd * dd * tn * tn,
{
    let p = oc * td;
    let q = tn * dd;
    assert(u * u == p * p + 2 * (p * q) + q * q) by (nonlinear_arith)
        requires
            u == p + q,
    ;
    assert(p * p == oc * oc * td * td) by (nonlinear_arith)
        requires
            p == oc * td,
    ;
    assert(p * q == oc * dd * tn * td) by (nonlinear_arith)
        requires
            p == oc * td,
            q == tn * dd,
    ;
    assert(q * q == dd * dd * tn * tn) by (nonlinear_arith)
        requires
            q == tn * dd,
    ;
}

/// The sphere case of `lemma_shape_hit_in_bounds`: a positive rational root
/// of the quadratic puts the ray on the sphere's surface, which lies inside
/// the box spanned by center plus/minus radius.
proof fn lemma_sphere_hit_in_bounds(center: Point, radius: int, ray: Ray, bounds: BoundingBox)
    requires
        0 < radius,
        sphere_hit(center, radius, ray) is Some,
        pt_axis(bounds.min, 0) == center.x - radius,
        pt_axis(bounds.min, 1) == center.y - radius,
        pt_axis(bounds.min, 2) == center.z - radius,
        pt_axis(bounds.max, 0) == center.x + radius,
        pt_axis(bounds.max, 1) == center.y + radius,
        pt_axis(bounds.max, 2) == center.z + radius,
    ensures
        ({
            let (tn, td) = sphere_hit(center, radius, ray)->Some_0;
            &&& td > 0
            &&& tn >= 0
            &&& in_box_at(bounds, ray, tn, td)
        }),
{
    let a = sphere_a(ray);
    let b = sphere_b(center, ray);
    let c = sphere_c(center, radius, ray);
    let disc = sphere_disc(center, radius, ray);
    lemma_floor_sqrt_exists(disc);
    let s = floor_sqrt(disc);
    assert(is_floor_sqrt(disc, s));
    let (tn, td) = sphere_hit(center, radius, ray)->Some_0;
    let o = ray.origin;
    let d = ray.direction;
    assert(a >= 0) by (nonlinear_arith)
        requires
            a == d.x * d.x + d.y * d.y + d.z * d.z,
    ;
    assert(td == 2 * a && td > 0);
    assert(tn == -b - s || tn == -b + s);
    // the reported numerator is nonnegative in both branches
    if b < 0 && disc < b * b {
        assert(s < -b) by (nonlinear_arith)
            requires
                0 <= s,
                b < 0,
                s * s <= disc,
                disc < b * b,
        ;
    } else {
        if b >= 0 {
            assert(s >= b) by (nonlinear_arith)
                requires
                    0 <= s,
                    b >= 0,
                    disc < (s + 1) * (s + 1),
                    b * b < disc,
            ;
        }
    }
    assert(tn >= 0);
    // the quadratic is nonpositive at the reported parameter, so the
    // ray's point there lies between the two crossings, inside the ball
    lemma_quadratic_value(a, b, c, s, tn, td);
    assert(a * tn * tn + b * tn * td + c * td * td <= 0) by (nonlinear_arith)
        requires
            a * tn * tn + b * tn * td + c * td * td == a * (s * s - (b * b - 4 * (a * c))),
            s * s <= b * b - 4 * (a * c),
            a > 0,
    ;
    let ocx = o.x - center.x;
    let ocy = o.y - center.y;
    let ocz = o.z - center.z;
    let ux = ocx * td + tn * d.x;
    let uy = ocy * td + tn * d.y;
    let uz = ocz * td + tn * d.z;
    let rtd = radius * td;
    lemma_sphere_surface(
        a, b, c, radius, tn, td, ocx, ocy, ocz, d.x as int, d.y as int, d.z as int, ux, uy, uz, rtd,
    );
    assert(rtd >= 0) by (nonlinear_arith)
        requires
            radius > 0,
            td > 0,
            rtd == radius * td,
    ;
    assert(uy * uy >= 0 && uz * uz >= 0 && ux * ux >= 0) by (nonlinear_arith);
    lemma_abs_le_of_sq(ux, rtd);
    lemma_abs_le_of_sq(uy, rtd);
    lemma_abs_le_of_sq(uz, rtd);
    // translate the offset bounds into the slab inequalities
    lemma_slab_from_offset(o.x as int, center.x as int, radius, td, tn, d.x as int, ux);
    lemma_slab_from_offset(o.y as int, center.y as int, radius, td, tn, d.y as int, uy);
    lemma_slab_from_offset(o.z as int, center.z as int, radius, td, tn, d.z as int, uz);
    assert(in_slab_at(bounds, ray, tn, td, 0));
    assert(in_slab_at(bounds, ray, tn, td, 1));
    assert(in_slab_at(bounds, ray, tn, td, 2));
}

/// A bounded offset from the center turns into the two slab inequalities of
/// the center-plus-minus-radius box.
proof fn lemma_slab_from_offset(o: int, cx: int, radius: int, td: int, tn: int, dd: int, u: int)
    requires
        u == (o - cx) * td + tn * dd,
        -(radius * td) <= u <= radius * td,
    ensures
        (cx - radius) * td <= o * td + tn * dd <= (cx + radius) * td,
{
    assert((cx - radius) * td == cx * td - radius * td) by (nonlinear_arith);
    assert((cx + radius) * td == cx * td + radius * td) by (nonlinear_arith);
    assert((o - cx) * td == o * td - cx * td) by (nonlinear_arith);
}

} // verus!
