use vstd::prelude::*;
use crate::num::{Rat, lemma_mul_bound, FRAC_LIMIT};

verus! {

/// Bound on every scene coordinate (points, box corners, sphere centers).
pub const COORD_LIMIT: i64 = 1_000_000;

/// Bound on a ray direction component: a direction may be the difference of
/// two scene points, so it gets twice the coordinate bound.
pub const DIR_LIMIT: i64 = 2_000_000;

/// A position in the scene, with bounded integer coordinates.
#[derive(Clone, Copy, Debug, PartialEq, Eq, Structural)]
pub struct Point {
    pub x: i64,
    pub y: i64,
    pub z: i64,
}

/// A displacement, e.g. a ray direction or a surface normal.
#[derive(Clone, Copy, Debug, PartialEq, Eq, Structural)]
pub struct Vector {
    pub x: i64,
    pub y: i64,
    pub z: i64,
}

impl Point {
    pub open spec fn wf(self) -> bool {
        &&& -COORD_LIMIT <= self.x <= COORD_LIMIT
        &&& -COORD_LIMIT <= self.y <= COORD_LIMIT
        &&& -COORD_LIMIT <= self.z <= COORD_LIMIT
    }

    pub fn new(x: i64, y: i64, z: i64) -> (r: Point)
        requires
            -COORD_LIMIT <= x <= COORD_LIMIT,
            -COORD_LIMIT <= y <= COORD_LIMIT,
            -COORD_LIMIT <= z <= COORD_LIMIT,
        ensures
            r == (Point { x, y, z }),
            r.wf(),
    {
        Point { x, y, z }
    }

    pub fn origin() -> (r: Point)
        ensures
            r == (Point { x: 0i64, y: 0i64, z: 0i64 }),
            r.wf(),
    {
        Point { x: 0, y: 0, z: 0 }
    }
}

impl Vector {
    pub open spec fn wf(self) -> bool {
        &&& -DIR_LIMIT <= self.x <= DIR_LIMIT
        &&& -DIR_LIMIT <= self.y <= DIR_LIMIT
        &&& -DIR_LIMIT <= self.z <= DIR_LIMIT
    }

    pub open spec fn is_zero(self) -> bool {
        self.x == 0 && self.y == 0 && self.z == 0
    }

    pub fn new(x: i64, y: i64, z: i64) -> (r: Vector)
        requires
            -DIR_LIMIT <= x <= DIR_LIMIT,
            -DIR_LIMIT <= y <= DIR_LIMIT,
            -DIR_LIMIT <= z <= DIR_LIMIT,
        ensures
            r == (Vector { x, y, z }),
            r.wf(),
    {
        Vector { x, y, z }
    }

    /// The direction from one point to another.
    pub fn between(from: Point, to: Point) -> (r: Vector)
        requires
            from.wf(),
            to.wf(),
        ensures
            r.x == to.x - from.x,
            r.y == to.y - from.y,
            r.z == to.z - from.z,
            r.wf(),
    {
        Vector { x: to.x - from.x, y: to.y - from.y, z: to.z - from.z }
    }

    pub fn invert(self) -> (r: Vector)
        requires
            self.wf(),
        ensures
            r.x == -self.x && r.y == -self.y && r.z == -self.z,
            r.wf(),
    {
        Vector { x: -self.x, y: -self.y, z: -self.z }
    }
}

/// The coordinate of a point along axis `a` (0 = x, 1 = y, 2 = z).
pub open spec fn pt_axis(p: Point, a: int) -> int {
    if a == 0 { p.x as int } else if a == 1 { p.y as int } else { p.z as int }
}

/// The component of a vector along axis `a`.
pub open spec fn vec_axis(v: Vector, a: int) -> int {
    if a == 0 { v.x as int } else if a == 1 { v.y as int } else { v.z as int }
}

/// The unit vector along axis `a`, pointing in the negative direction when
/// `neg` holds.
pub open spec fn axis_unit(a: int, neg: bool) -> Vector {
    if a == 0 {
        if neg { Vector { x: -1i64, y: 0i64, z: 0i64 } } else { Vector { x: 1i64, y: 0i64, z: 0i64 } }
    } else if a == 1 {
        if neg { Vector { x: 0i64, y: -1i64, z: 0i64 } } else { Vector { x: 0i64, y: 1i64, z: 0i64 } }
    } else {
        if neg { Vector { x: 0i64, y: 0i64, z: -1i64 } } else { Vector { x: 0i64, y: 0i64, z: 1i64 } }
    }
}

/// A parametric ray: origin plus a scaling of the direction.
#[derive(Clone, Copy, Debug, PartialEq, Eq, Structural)]
pub struct Ray {
    pub origin: Point,
    pub direction: Vector,
}

impl Ray {
    pub open spec fn wf(self) -> bool {
        self.origin.wf() && self.direction.wf()
    }

    pub fn new(origin: Point, direction: Vector) -> (r: Ray)
        ensures
            r == (Ray { origin, direction }),
    {
        Ray { origin, direction }
    }

    pub fn origin(&self) -> (r: Point)
        ensures
            r == self.origin,
    {
        self.origin
    }

    pub fn direction(&self) -> (r: Vector)
        ensures
            r == self.direction,
    {
        self.direction
    }
}

/// The numerator of the coordinate of `ray` at parameter `tn / td` along
/// axis `a`; the denominator is `td`.
pub open spec fn ray_at_axis(ray: Ray, tn: int, td: int, a: int) -> int {
    pt_axis(ray.origin, a) * td + tn * vec_axis(ray.direction, a)
}

/// An axis-aligned box given by two corner points. A box whose `min` exceeds
/// its `max` on some axis is empty; the union accumulator starts from such a
/// seed.
#[derive(Clone, Copy, Debug, PartialEq, Eq, Structural)]
pub struct BoundingBox {
    pub min: Point,
    pub max: Point,
}

/// The componentwise union of two boxes: the smallest box containing both.
pub open spec fn box_union_of(a: BoundingBox, b: BoundingBox) -> BoundingBox {
    BoundingBox {
        min: Point {
            x: if a.min.x <= b.min.x { a.min.x } else { b.min.x },
            y: if a.min.y <= b.min.y { a.min.y } else { b.min.y },
            z: if a.min.z <= b.min.z { a.min.z } else { b.min.z },
        },
        max: Point {
            x: if a.max.x >= b.max.x { a.max.x } else { b.max.x },
            y: if a.max.y >= b.max.y { a.max.y } else { b.max.y },
            z: if a.max.z >= b.max.z { a.max.z } else { b.max.z },
        },
    }
}

/// The inverted accumulator seed: union with it returns the other box.
pub open spec fn spec_empty_box() -> BoundingBox {
    BoundingBox {
        min: Point { x: COORD_LIMIT, y: COORD_LIMIT, z: COORD_LIMIT },
        max: Point { x: (-COORD_LIMIT) as i64, y: (-COORD_LIMIT) as i64, z: (-COORD_LIMIT) as i64 },
    }
}

impl BoundingBox {
    pub open spec fn wf(self) -> bool {
        self.min.wf() && self.max.wf()
    }

    pub open spec fn spec_contains(self, p: Point) -> bool {
        &&& self.min.x <= p.x <= self.max.x
        &&& self.min.y <= p.y <= self.max.y
        &&& self.min.z <= p.z <= self.max.z
    }

    /// Every point of `self` lies in `other`, corner-wise; an empty box is
    /// inside every box. The hierarchy's boxes only ever grow by unions.
    pub open spec fn spec_enclosed_by(self, other: BoundingBox) -> bool {
        &&& other.min.x <= self.min.x && self.max.x <= other.max.x
        &&& other.min.y <= self.min.y && self.max.y <= other.max.y
        &&& other.min.z <= self.min.z && self.max.z <= other.max.z
    }

    pub fn new(min: Point, max: Point) -> (r: BoundingBox)
        ensures
            r == (BoundingBox { min, max }),
    {
        BoundingBox { min, max }
    }

    /// The inverted seed for a union accumulator: it contains no point, and
    /// union with it returns the other box.
    pub fn empty() -> (r: BoundingBox)
        ensures
            r == spec_empty_box(),
            r.wf(),
            forall|p: Point| !r.spec_contains(p),
    {
        BoundingBox {
            min: Point { x: COORD_LIMIT, y: COORD_LIMIT, z: COORD_LIMIT },
            max: Point { x: -COORD_LIMIT, y: -COORD_LIMIT, z: -COORD_LIMIT },
        }
    }

    /// The box spanned by a corner point and the origin.
    pub fn new_from_origin(corner_point: Point) -> (r: BoundingBox)
        requires
            corner_point.wf(),
        ensures
            r.wf(),
            r.min.x == if corner_point.x <= 0 { corner_point.x } else { 0i64 },
            r.min.y == if corner_point.y <= 0 { corner_point.y } else { 0i64 },
            r.min.z == if corner_point.z <= 0 { corner_point.z } else { 0i64 },
            r.max.x == if corner_point.x >= 0 { corner_point.x } else { 0i64 },
            r.max.y == if corner_point.y >= 0 { corner_point.y } else { 0i64 },
            r.max.z == if corner_point.z >= 0 { corner_point.z } else { 0i64 },
    {
        let min = Point {
            x: if corner_point.x <= 0 { corner_point.x } else { 0 },
            y: if corner_point.y <= 0 { corner_point.y } else { 0 },
            z: if corner_point.z <= 0 { corner_point.z } else { 0 },
        };
        let max = Point {
            x: if corner_point.x >= 0 { corner_point.x } else { 0 },
            y: if corner_point.y >= 0 { corner_point.y } else { 0 },
            z: if corner_point.z >= 0 { corner_point.z } else { 0 },
        };
        BoundingBox { min, max }
    }

    pub fn min(&self) -> (r: Point)
        ensures
            r == self.min,
    {
        self.min
    }

    pub fn max(&self) -> (r: Point)
        ensures
            r == self.max,
    {
        self.max
    }

    /// The smallest box containing both arguments.
    pub fn union(&self, bounds: &BoundingBox) -> (r: BoundingBox)
        requires
            self.wf(),
            bounds.wf(),
        ensures
            r == box_union_of(*self, *bounds),
            r.wf(),
            self.spec_enclosed_by(r),
            bounds.spec_enclosed_by(r),
            r.min.x == if self.min.x <= bounds.min.x { self.min.x } else { bounds.min.x },
            r.max.x == if self.max.x >= bounds.max.x { self.max.x } else { bounds.max.x },
            r.min.y == if self.min.y <= bounds.min.y { self.min.y } else { bounds.min.y },
            r.max.y == if self.max.y >= bounds.max.y { self.max.y } else { bounds.max.y },
            r.min.z == if self.min.z <= bounds.min.z { self.min.z } else { bounds.min.z },
            r.max.z == if self.max.z >= bounds.max.z { self.max.z } else { bounds.max.z },
    {
        let min = Point {
            x: if self.min.x <= bounds.min.x { self.min.x } else { bounds.min.x },
            y: if self.min.y <= bounds.min.y { self.min.y } else { bounds.min.y },
            z: if self.min.z <= bounds.min.z { self.min.z } else { bounds.min.z },
        };
        let max = Point {
            x: if self.max.x >= bounds.max.x { self.max.x } else { bounds.max.x },
            y: if self.max.y >= bounds.max.y { self.max.y } else { bounds.max.y },
            z: if self.max.z >= bounds.max.z { self.max.z } else { bounds.max.z },
        };
        BoundingBox { min, max }
    }

    pub fn contains(&self, point: &Point) -> (r: bool)
        ensures
            r == self.spec_contains(*point),
    {
        self.min.x <= point.x && self.max.x >= point.x
            && self.min.y <= point.y && self.max.y >= point.y
            && self.min.z <= point.z && self.max.z >= point.z
    }
}

/// The ray parameter `tn / td` (with `td > 0`) lies within the slab
/// `[min, max]` of axis `a`: the coordinate of the ray at that parameter,
/// scaled by `td`, sits between the scaled faces.
pub open spec fn in_slab_at(b: BoundingBox, ray: Ray, tn: int, td: int, a: int) -> bool {
    pt_axis(b.min, a) * td <= ray_at_axis(ray, tn, td, a) <= pt_axis(b.max, a) * td
}

/// The ray at parameter `tn / td` (with `td > 0`) is inside the box.
pub open spec fn in_box_at(b: BoundingBox, ray: Ray, tn: int, td: int) -> bool {
    in_slab_at(b, ray, tn, td, 0) && in_slab_at(b, ray, tn, td, 1) && in_slab_at(b, ray, tn, td, 2)
}

/// Comparison of two rationals given as pairs with positive denominators.
pub open spec fn pair_le(a: (int, int), b: (int, int)) -> bool {
    a.0 * b.1 <= b.0 * a.1
}

pub open spec fn pair_max(a: (int, int), b: (int, int)) -> (int, int) {
    if pair_le(a, b) { b } else { a }
}

pub open spec fn pair_min(a: (int, int), b: (int, int)) -> (int, int) {
    if pair_le(a, b) { a } else { b }
}

/// The parameter at which the ray enters the slab of axis `a`;
/// meaningful only when the direction component is not zero.
pub open spec fn slab_lo(b: BoundingBox, ray: Ray, a: int) -> (int, int) {
    let d = vec_axis(ray.direction, a);
    if d > 0 {
        (pt_axis(b.min, a) - pt_axis(ray.origin, a), d)
    } else {
        (pt_axis(ray.origin, a) - pt_axis(b.max, a), -d)
    }
}

/// The parameter at which the ray leaves the slab of axis `a`.
pub open spec fn slab_hi(b: BoundingBox, ray: Ray, a: int) -> (int, int) {
    let d = vec_axis(ray.direction, a);
    if d > 0 {
        (pt_axis(b.max, a) - pt_axis(ray.origin, a), d)
    } else {
        (pt_axis(ray.origin, a) - pt_axis(b.min, a), -d)
    }
}

/// One step of folding the per-axis entry parameters into their maximum;
/// an axis with a zero direction component contributes nothing.
pub open spec fn fold_lo(acc: Option<(int, int)>, lo: (int, int), present: bool) -> Option<(int, int)> {
    if !present {
        acc
    } else {
        match acc {
            Option::None => Option::Some(lo),
            Option::Some(a) => Option::Some(pair_max(a, lo)),
        }
    }
}

pub open spec fn fold_hi(acc: Option<(int, int)>, hi: (int, int), present: bool) -> Option<(int, int)> {
    if !present {
        acc
    } else {
        match acc {
            Option::None => Option::Some(hi),
            Option::Some(a) => Option::Some(pair_min(a, hi)),
        }
    }
}

/// Whether the slab of an axis with a zero direction component rejects the
/// ray outright: the origin coordinate lies outside the slab.
pub open spec fn flat_axis_misses(b: BoundingBox, ray: Ray, a: int) -> bool {
    vec_axis(ray.direction, a) == 0
        && !(pt_axis(b.min, a) <= pt_axis(ray.origin, a) <= pt_axis(b.max, a))
}

/// The entry parameter of the ray into the box, as a rational pair, by the
/// slab test: `None` when the ray misses the box or the box lies behind the
/// origin, `Some((0, 1))` when the origin is inside.
pub open spec fn box_entry(b: BoundingBox, ray: Ray) -> Option<(int, int)> {
    if b.spec_contains(ray.origin) {
        Option::Some((0int, 1int))
    } else if flat_axis_misses(b, ray, 0) || flat_axis_misses(b, ray, 1) || flat_axis_misses(b, ray, 2) {
        Option::None
    } else {
        let px = vec_axis(ray.direction, 0) != 0;
        let py = vec_axis(ray.direction, 1) != 0;
        let pz = vec_axis(ray.direction, 2) != 0;
        let lo = fold_lo(fold_lo(fold_lo(Option::None, slab_lo(b, ray, 0), px), slab_lo(b, ray, 1), py), slab_lo(b, ray, 2), pz);
        let hi = fold_hi(fold_hi(fold_hi(Option::None, slab_hi(b, ray, 0), px), slab_hi(b, ray, 1), py), slab_hi(b, ray, 2), pz);
        match (lo, hi) {
            (Option::Some(l), Option::Some(h)) => {
                if !pair_le(l, h) {
                    Option::None
                } else if l.0 <= 0 {
                    Option::None
                } else {
                    Option::Some(l)
                }
            },
            _ => Option::None,
        }
    }
}

pub proof fn lemma_pair_le_trans(a: (int, int), b: (int, int), c: (int, int))
    requires
        a.1 > 0,
        b.1 > 0,
        c.1 > 0,
        pair_le(a, b),
        pair_le(b, c),
    ensures
        pair_le(a, c),
{
    assert(a.0 * c.1 <= c.0 * a.1) by (nonlinear_arith)
        requires
            a.1 > 0,
            b.1 > 0,
            c.1 > 0,
            a.0 * b.1 <= b.0 * a.1,
            b.0 * c.1 <= c.0 * b.1,
    ;
}

/// The maximum of two rational pairs sits above both.
pub proof fn lemma_pair_max_ge(x: (int, int), y: (int, int))
    requires
        x.1 > 0,
        y.1 > 0,
    ensures
        pair_le(x, pair_max(x, y)),
        pair_le(y, pair_max(x, y)),
{
}

/// The minimum of two rational pairs sits below both.
pub proof fn lemma_pair_min_le(x: (int, int), y: (int, int))
    requires
        x.1 > 0,
        y.1 > 0,
    ensures
        pair_le(pair_min(x, y), x),
        pair_le(pair_min(x, y), y),
{
}

/// A pair above a positive pair has a positive numerator.
pub proof fn lemma_pair_pos(a: (int, int), b: (int, int))
    requires
        a.1 > 0,
        b.1 > 0,
        a.0 > 0,
        pair_le(a, b),
    ensures
        b.0 > 0,
{
    assert(b.0 > 0) by (nonlinear_arith)
        requires
            a.1 > 0,
            b.1 > 0,
            a.0 > 0,
            a.0 * b.1 <= b.0 * a.1,
    ;
}

/// A nonnegative parameter cannot sit below a pair with a negative numerator.
pub proof fn lemma_pair_nonneg_le(tn: int, td: int, h: (int, int))
    requires
        td > 0,
        tn >= 0,
        h.1 > 0,
        pair_le((tn, td), h),
    ensures
        h.0 >= 0,
{
    assert(h.0 >= 0) by (nonlinear_arith)
        requires
            td > 0,
            tn >= 0,
            h.1 > 0,
            tn * h.1 <= h.0 * td,
    ;
}

/// For an axis the ray actually crosses, sitting inside the slab is the same
/// as sitting between the entry and exit parameters of that slab.
pub proof fn lemma_in_slab_iff(b: BoundingBox, ray: Ray, tn: int, td: int, a: int)
    requires
        td > 0,
        vec_axis(ray.direction, a) != 0,
    ensures
        in_slab_at(b, ray, tn, td, a) <==> (pair_le(slab_lo(b, ray, a), (tn, td)) && pair_le(
            (tn, td),
            slab_hi(b, ray, a),
        )),
{
    let mn = pt_axis(b.min, a);
    let mx = pt_axis(b.max, a);
    let o = pt_axis(ray.origin, a);
    let d = vec_axis(ray.direction, a);
    if d > 0 {
        assert((mn * td <= o * td + tn * d && o * td + tn * d <= mx * td) <==> ((mn - o) * td
            <= tn * d && tn * d <= (mx - o) * td)) by (nonlinear_arith);
    } else {
        assert((mn * td <= o * td + tn * d && o * td + tn * d <= mx * td) <==> ((o - mx) * td <= tn
            * (-d) && tn * (-d) <= (o - mn) * td)) by (nonlinear_arith);
    }
}

/// For an axis the ray does not cross, sitting inside the slab means the
/// origin coordinate sits inside it.
pub proof fn lemma_in_slab_flat(b: BoundingBox, ray: Ray, tn: int, td: int, a: int)
    requires
        td > 0,
        vec_axis(ray.direction, a) == 0,
    ensures
        in_slab_at(b, ray, tn, td, a) <==> (pt_axis(b.min, a) <= pt_axis(ray.origin, a) <= pt_axis(
            b.max,
            a,
        )),
{
    let mn = pt_axis(b.min, a);
    let mx = pt_axis(b.max, a);
    let o = pt_axis(ray.origin, a);
    assert((mn * td <= o * td + tn * 0 && o * td + tn * 0 <= mx * td) <==> (mn <= o <= mx))
        by (nonlinear_arith)
        requires
            td > 0,
    ;
}

/// The three-step fold of the slab entries: the result is one of the present
/// entries and sits above all of them.
proof fn lemma_fold3_lo(a0: (int, int), a1: (int, int), a2: (int, int), px: bool, py: bool, pz: bool)
    requires
        px ==> a0.1 > 0,
        py ==> a1.1 > 0,
        pz ==> a2.1 > 0,
        px || py || pz,
    ensures
        ({
            let lo = fold_lo(fold_lo(fold_lo(Option::None, a0, px), a1, py), a2, pz);
            &&& lo is Some
            &&& lo->Some_0.1 > 0
            &&& (lo->Some_0 == a0 || lo->Some_0 == a1 || lo->Some_0 == a2)
            &&& (px ==> pair_le(a0, lo->Some_0))
            &&& (py ==> pair_le(a1, lo->Some_0))
            &&& (pz ==> pair_le(a2, lo->Some_0))
        }),
{
    if px {
        if py {
            lemma_pair_max_ge(a0, a1);
            if pz {
                lemma_pair_max_ge(pair_max(a0, a1), a2);
                lemma_pair_le_trans(a0, pair_max(a0, a1), pair_max(pair_max(a0, a1), a2));
                lemma_pair_le_trans(a1, pair_max(a0, a1), pair_max(pair_max(a0, a1), a2));
            }
        } else {
            if pz {
                lemma_pair_max_ge(a0, a2);
            }
        }
    } else {
        if py && pz {
            lemma_pair_max_ge(a1, a2);
        }
    }
}

/// The three-step fold of the slab exits: the result is one of the present
/// exits and sits below all of them.
proof fn lemma_fold3_hi(a0: (int, int), a1: (int, int), a2: (int, int), px: bool, py: bool, pz: bool)
    requires
        px ==> a0.1 > 0,
        py ==> a1.1 > 0,
        pz ==> a2.1 > 0,
        px || py || pz,
    ensures
        ({
            let hi = fold_hi(fold_hi(fold_hi(Option::None, a0, px), a1, py), a2, pz);
            &&& hi is Some
            &&& hi->Some_0.1 > 0
            &&& (hi->Some_0 == a0 || hi->Some_0 == a1 || hi->Some_0 == a2)
            &&& (px ==> pair_le(hi->Some_0, a0))
            &&& (py ==> pair_le(hi->Some_0, a1))
            &&& (pz ==> pair_le(hi->Some_0, a2))
        }),
{
    if px {
        if py {
            lemma_pair_min_le(a0, a1);
            if pz {
                lemma_pair_min_le(pair_min(a0, a1), a2);
                lemma_pair_le_trans(pair_min(pair_min(a0, a1), a2), pair_min(a0, a1), a0);
                lemma_pair_le_trans(pair_min(pair_min(a0, a1), a2), pair_min(a0, a1), a1);
            }
        } else {
            if pz {
                lemma_pair_min_le(a0, a2);
            }
        }
    } else {
        if py && pz {
            lemma_pair_min_le(a1, a2);
        }
    }
}

/// A missed slab test is sound: when `box_entry` reports no entry, no point
/// of the ray at a nonnegative parameter lies inside the box.
pub proof fn lemma_box_entry_none(b: BoundingBox, ray: Ray, tn: int, td: int)
    requires
        b.wf(),
        ray.wf(),
        td > 0,
        tn >= 0,
        box_entry(b, ray) is None,
    ensures
        !in_box_at(b, ray, tn, td),
{
    if in_box_at(b, ray, tn, td) {
        assert(!b.spec_contains(ray.origin));
        if flat_axis_misses(b, ray, 0) {
            lemma_in_slab_flat(b, ray, tn, td, 0);
        } else if flat_axis_misses(b, ray, 1) {
            lemma_in_slab_flat(b, ray, tn, td, 1);
        } else if flat_axis_misses(b, ray, 2) {
            lemma_in_slab_flat(b, ray, tn, td, 2);
        } else {
            let px = vec_axis(ray.direction, 0) != 0;
            let py = vec_axis(ray.direction, 1) != 0;
            let pz = vec_axis(ray.direction, 2) != 0;
            if !px && !py && !pz {
                lemma_in_slab_flat(b, ray, tn, td, 0);
                lemma_in_slab_flat(b, ray, tn, td, 1);
                lemma_in_slab_flat(b, ray, tn, td, 2);
                assert(b.spec_contains(ray.origin));
            } else {
                let l0 = slab_lo(b, ray, 0);
                let l1 = slab_lo(b, ray, 1);
                let l2 = slab_lo(b, ray, 2);
                let h0 = slab_hi(b, ray, 0);
                let h1 = slab_hi(b, ray, 1);
                let h2 = slab_hi(b, ray, 2);
                lemma_fold3_lo(l0, l1, l2, px, py, pz);
                lemma_fold3_hi(h0, h1, h2, px, py, pz);
                let lo = fold_lo(fold_lo(fold_lo(Option::None, l0, px), l1, py), l2, pz);
                let hi = fold_hi(fold_hi(fold_hi(Option::None, h0, px), h1, py), h2, pz);
                let l = lo->Some_0;
                let h = hi->Some_0;
                if px {
                    lemma_in_slab_iff(b, ray, tn, td, 0);
                } else {
                    lemma_in_slab_flat(b, ray, tn, td, 0);
                }
                if py {
                    lemma_in_slab_iff(b, ray, tn, td, 1);
                } else {
                    lemma_in_slab_flat(b, ray, tn, td, 1);
                }
                if pz {
                    lemma_in_slab_iff(b, ray, tn, td, 2);
                } else {
                    lemma_in_slab_flat(b, ray, tn, td, 2);
                }
                // The parameter sits above every present entry and below
                // every present exit, hence between the folded bounds.
                assert(pair_le(l, (tn, td)));
                assert(pair_le((tn, td), h));
                if !pair_le(l, h) {
                    lemma_pair_le_trans(l, (tn, td), h);
                } else {
                    assert(l.0 <= 0);
                    // The origin lies outside some axis slab; that axis is a
                    // crossed one, and its entry is positive or its exit is
                    // negative, both impossible here.
                    if !(b.min.x <= ray.origin.x <= b.max.x) {
                        assert(px);
                        lemma_slab_outside_contra(b, ray, tn, td, 0, l);
                    } else if !(b.min.y <= ray.origin.y <= b.max.y) {
                        assert(py);
                        lemma_slab_outside_contra(b, ray, tn, td, 1, l);
                    } else {
                        assert(!(b.min.z <= ray.origin.z <= b.max.z));
                        assert(pz);
                        lemma_slab_outside_contra(b, ray, tn, td, 2, l);
                    }
                }
            }
        }
    }
}

/// Helper for the slab test: when the origin lies outside the slab of a
/// crossed axis, a nonnegative in-slab parameter forces the folded entry,
/// which sits above this axis' entry, to be positive.
proof fn lemma_slab_outside_contra(b: BoundingBox, ray: Ray, tn: int, td: int, a: int, l: (int, int))
    requires
        td > 0,
        tn >= 0,
        0 <= a < 3,
        vec_axis(ray.direction, a) != 0,
        !(pt_axis(b.min, a) <= pt_axis(ray.origin, a) <= pt_axis(b.max, a)),
        in_slab_at(b, ray, tn, td, a),
        l.1 > 0,
        pair_le(slab_lo(b, ray, a), l),
    ensures
        l.0 > 0,
{
    let mn = pt_axis(b.min, a);
    let mx = pt_axis(b.max, a);
    let o = pt_axis(ray.origin, a);
    let d = vec_axis(ray.direction, a);
    lemma_in_slab_iff(b, ray, tn, td, a);
    let lo = slab_lo(b, ray, a);
    let hi = slab_hi(b, ray, a);
    if o < mn {
        if d > 0 {
            // entry (mn - o) / d is positive
            lemma_pair_pos(lo, l);
        } else {
            // exit (o - mn) / (-d) is negative, yet tn / td <= exit
            lemma_pair_nonneg_le(tn, td, hi);
        }
    } else {
        if d > 0 {
            lemma_pair_nonneg_le(tn, td, hi);
        } else {
            lemma_pair_pos(lo, l);
        }
    }
}

/// A reported entry is sound and minimal: it is a nonnegative bounded
/// parameter at which the ray is inside the box, and no nonnegative
/// parameter inside the box sits below it.
pub proof fn lemma_box_entry_some(b: BoundingBox, ray: Ray)
    requires
        b.wf(),
        ray.wf(),
        box_entry(b, ray) is Some,
    ensures
        ({
            let e = box_entry(b, ray)->Some_0;
            &&& 0 < e.1 <= 2 * DIR_LIMIT
            &&& 0 <= e.0 <= 2 * DIR_LIMIT
            &&& in_box_at(b, ray, e.0, e.1)
            &&& forall|tn: int, td: int|
                td > 0 && tn >= 0 && in_box_at(b, ray, tn, td) ==> pair_le(e, (tn, td))
        }),
{
    let e = box_entry(b, ray)->Some_0;
    if b.spec_contains(ray.origin) {
        assert(in_box_at(b, ray, 0, 1)) by {
            lemma_in_box_zero(b, ray);
        }
        assert forall|tn: int, td: int| td > 0 && tn >= 0 && in_box_at(b, ray, tn, td) implies pair_le(
            e,
            (tn, td),
        ) by {
            assert(0 * td <= tn * 1);
        }
    } else {
        let px = vec_axis(ray.direction, 0) != 0;
        let py = vec_axis(ray.direction, 1) != 0;
        let pz = vec_axis(ray.direction, 2) != 0;
        let l0 = slab_lo(b, ray, 0);
        let l1 = slab_lo(b, ray, 1);
        let l2 = slab_lo(b, ray, 2);
        let h0 = slab_hi(b, ray, 0);
        let h1 = slab_hi(b, ray, 1);
        let h2 = slab_hi(b, ray, 2);
        assert(px || py || pz) by {
            if !px && !py && !pz {
                assert(box_entry(b, ray) is None);
            }
        }
        lemma_fold3_lo(l0, l1, l2, px, py, pz);
        lemma_fold3_hi(h0, h1, h2, px, py, pz);
        let lo = fold_lo(fold_lo(fold_lo(Option::None, l0, px), l1, py), l2, pz);
        let hi = fold_hi(fold_hi(fold_hi(Option::None, h0, px), h1, py), h2, pz);
        let l = lo->Some_0;
        let h = hi->Some_0;
        assert(e == l);
        assert(pair_le(l, h) && l.0 > 0);
        // bounds: the entry is one of the slab entries, whose numerator and
        // denominator are differences of bounded coordinates
        assert(0 <= e.0 <= 2 * DIR_LIMIT && 0 < e.1 <= 2 * DIR_LIMIT);
        // soundness: the entry parameter is inside every slab
        assert(in_box_at(b, ray, e.0, e.1)) by {
            lemma_entry_in_axis(b, ray, 0, px, l, h);
            lemma_entry_in_axis(b, ray, 1, py, l, h);
            lemma_entry_in_axis(b, ray, 2, pz, l, h);
        }
        // minimality: any nonnegative in-box parameter sits above the entry
        assert forall|tn: int, td: int| td > 0 && tn >= 0 && in_box_at(b, ray, tn, td) implies pair_le(
            e,
            (tn, td),
        ) by {
            if px {
                lemma_in_slab_iff(b, ray, tn, td, 0);
            }
            if py {
                lemma_in_slab_iff(b, ray, tn, td, 1);
            }
            if pz {
                lemma_in_slab_iff(b, ray, tn, td, 2);
            }
        }
    }
}

/// At parameter zero the ray sits exactly at its origin.
proof fn lemma_in_box_zero(b: BoundingBox, ray: Ray)
    requires
        b.spec_contains(ray.origin),
    ensures
        in_box_at(b, ray, 0, 1),
{
}

/// The folded entry parameter lies inside the slab of each axis.
proof fn lemma_entry_in_axis(b: BoundingBox, ray: Ray, a: int, present: bool, l: (int, int), h: (int, int))
    requires
        0 <= a < 3,
        l.1 > 0,
        h.1 > 0,
        l.0 > 0,
        pair_le(l, h),
        present == (vec_axis(ray.direction, a) != 0),
        present ==> pair_le(slab_lo(b, ray, a), l) && pair_le(h, slab_hi(b, ray, a)),
        !present ==> !flat_axis_misses(b, ray, a),
    ensures
        in_slab_at(b, ray, l.0, l.1, a),
{
    if present {
        lemma_in_slab_iff(b, ray, l.0, l.1, a);
        lemma_pair_le_trans(l, h, slab_hi(b, ray, a));
    } else {
        lemma_in_slab_flat(b, ray, l.0, l.1, a);
    }
}

/// Being inside a box carries over to any box that encloses it.
pub proof fn lemma_in_box_monotone(b1: BoundingBox, b2: BoundingBox, ray: Ray, tn: int, td: int)
    requires
        b1.spec_enclosed_by(b2),
        td > 0,
        in_box_at(b1, ray, tn, td),
    ensures
        in_box_at(b2, ray, tn, td),
{
    lemma_scale_le(pt_axis(b2.min, 0), pt_axis(b1.min, 0), td);
    lemma_scale_le(pt_axis(b2.min, 1), pt_axis(b1.min, 1), td);
    lemma_scale_le(pt_axis(b2.min, 2), pt_axis(b1.min, 2), td);
    lemma_scale_le(pt_axis(b1.max, 0), pt_axis(b2.max, 0), td);
    lemma_scale_le(pt_axis(b1.max, 1), pt_axis(b2.max, 1), td);
    lemma_scale_le(pt_axis(b1.max, 2), pt_axis(b2.max, 2), td);
}

/// Multiplying both sides of an inequality by a positive factor.
pub proof fn lemma_scale_le(x: int, y: int, c: int) by (nonlinear_arith)
    requires
        x <= y,
        c > 0,
    ensures
        x * c <= y * c,
{
}

/// A point with exact rational coordinates: a hit point along a ray.
#[derive(Clone, Copy, Debug)]
pub struct RatPoint {
    pub x: Rat,
    pub y: Rat,
    pub z: Rat,
}

impl RatPoint {
    pub open spec fn wf(self) -> bool {
        self.x.wf() && self.y.wf() && self.z.wf()
    }
}

/// The point of a ray at a given parameter, with exact coordinates.
pub fn ray_point_at(ray: &Ray, t: Rat) -> (r: RatPoint)
    requires
        ray.wf(),
        t.bounded(),
    ensures
        r.wf(),
        r.x.num == ray_at_axis(*ray, t.num as int, t.den as int, 0) && r.x.den == t.den,
        r.y.num == ray_at_axis(*ray, t.num as int, t.den as int, 1) && r.y.den == t.den,
        r.z.num == ray_at_axis(*ray, t.num as int, t.den as int, 2) && r.z.den == t.den,
{
    proof {
        lemma_mul_bound(ray.origin.x as int, t.den as int, COORD_LIMIT as int, FRAC_LIMIT as int);
        lemma_mul_bound(ray.origin.y as int, t.den as int, COORD_LIMIT as int, FRAC_LIMIT as int);
        lemma_mul_bound(ray.origin.z as int, t.den as int, COORD_LIMIT as int, FRAC_LIMIT as int);
        lemma_mul_bound(t.num as int, ray.direction.x as int, FRAC_LIMIT as int, DIR_LIMIT as int);
        lemma_mul_bound(t.num as int, ray.direction.y as int, FRAC_LIMIT as int, DIR_LIMIT as int);
        lemma_mul_bound(t.num as int, ray.direction.z as int, FRAC_LIMIT as int, DIR_LIMIT as int);
    }
    RatPoint {
        x: Rat { num: (ray.origin.x as i128) * t.den + t.num * (ray.direction.x as i128), den: t.den },
        y: Rat { num: (ray.origin.y as i128) * t.den + t.num * (ray.direction.y as i128), den: t.den },
        z: Rat { num: (ray.origin.z as i128) * t.den + t.num * (ray.direction.z as i128), den: t.den },
    }
}

/// What the slab test reports: the entry parameter, the entry point, and
/// the normal of the face through which the ray enters.
#[derive(Clone, Copy, Debug)]
pub struct BoxHit {
    pub t: Rat,
    pub point: RatPoint,
    pub normal: Vector,
}

/// How the reported entry normal relates to the box and the ray: straight
/// against the ray for an origin inside the box, otherwise the face normal
/// of the axis whose slab entry decided the entry parameter.
pub open spec fn box_entry_normal_ok(b: BoundingBox, ray: Ray, h: BoxHit) -> bool {
    if b.spec_contains(ray.origin) {
        h.normal.x == -ray.direction.x && h.normal.y == -ray.direction.y && h.normal.z
            == -ray.direction.z
    } else {
        exists|a: int|
            0 <= a < 3 && vec_axis(ray.direction, a) != 0 && (h.t.num as int, h.t.den as int)
                == slab_lo(b, ray, a) && h.normal == axis_unit(a, vec_axis(ray.direction, a) > 0)
    }
}

/// Whether an optional rational matches an optional pair exactly.
pub open spec fn rat_pair_is(r: Option<Rat>, p: Option<(int, int)>) -> bool {
    match (r, p) {
        (Option::None, Option::None) => true,
        (Option::Some(rt), Option::Some(pp)) => rt.num == pp.0 && rt.den == pp.1,
        _ => false,
    }
}

impl BoundingBox {
    /// The slab intersection test. Reports the parameter at which the ray
    /// enters the box (zero for an origin inside it), together with the
    /// entry point and face normal, or nothing when the ray misses the box
    /// or the box lies strictly behind the origin.
    pub fn intersect(&self, ray: &Ray) -> (r: Option<BoxHit>)
        requires
            self.wf(),
            ray.wf(),
        ensures
            r is Some <==> box_entry(*self, *ray) is Some,
            r matches Some(h) ==> {
                let e = box_entry(*self, *ray)->Some_0;
                &&& h.t.num == e.0 && h.t.den == e.1
                &&& h.t.bounded() && h.t.spec_nonneg()
                &&& h.point.wf()
                &&& h.point.x.num == ray_at_axis(*ray, e.0, e.1, 0) && h.point.x.den == e.1
                &&& h.point.y.num == ray_at_axis(*ray, e.0, e.1, 1) && h.point.y.den == e.1
                &&& h.point.z.num == ray_at_axis(*ray, e.0, e.1, 2) && h.point.z.den == e.1
                &&& h.normal.wf()
                &&& box_entry_normal_ok(*self, *ray, h)
            },
    {
        let o = ray.origin;
        let d = ray.direction;
        if self.contains(&o) {
            let t = Rat { num: 0, den: 1 };
            let point = ray_point_at(ray, t);
            return Option::Some(
                BoxHit { t, point, normal: Vector { x: -d.x, y: -d.y, z: -d.z } },
            );
        }
        if d.x == 0 && !(self.min.x <= o.x && o.x <= self.max.x) {
            return Option::None;
        }
        if d.y == 0 && !(self.min.y <= o.y && o.y <= self.max.y) {
            return Option::None;
        }
        if d.z == 0 && !(self.min.z <= o.z && o.z <= self.max.z) {
            return Option::None;
        }
        let ghost px = vec_axis(d, 0) != 0;
        let ghost py = vec_axis(d, 1) != 0;
        let ghost pz = vec_axis(d, 2) != 0;
        let mut lo: Option<Rat> = Option::None;
        let mut hi: Option<Rat> = Option::None;
        let mut axis: u8 = 0;
        if d.x != 0 {
            let ln: i64 = if d.x > 0 { self.min.x - o.x } else { o.x - self.max.x };
            let hn: i64 = if d.x > 0 { self.max.x - o.x } else { o.x - self.min.x };
            let den: i64 = if d.x > 0 { d.x } else { -d.x };
            lo = Option::Some(Rat { num: ln as i128, den: den as i128 });
            hi = Option::Some(Rat { num: hn as i128, den: den as i128 });
            axis = 0;
        }
        assert(rat_pair_is(lo, fold_lo(Option::None, slab_lo(*self, *ray, 0), px)));
        assert(rat_pair_is(hi, fold_hi(Option::None, slab_hi(*self, *ray, 0), px)));
        let ghost lo1 = fold_lo(Option::None, slab_lo(*self, *ray, 0), px);
        let ghost hi1 = fold_hi(Option::None, slab_hi(*self, *ray, 0), px);
        if d.y != 0 {
            let ln: i64 = if d.y > 0 { self.min.y - o.y } else { o.y - self.max.y };
            let hn: i64 = if d.y > 0 { self.max.y - o.y } else { o.y - self.min.y };
            let den: i64 = if d.y > 0 { d.y } else { -d.y };
            let l_new = Rat { num: ln as i128, den: den as i128 };
            let h_new = Rat { num: hn as i128, den: den as i128 };
            match lo {
                Option::None => {
                    lo = Option::Some(l_new);
                    hi = Option::Some(h_new);
                    axis = 1;
                },
                Option::Some(a_lo) => {
                    if a_lo.le(l_new) {
                        lo = Option::Some(l_new);
                        axis = 1;
                    }
                    let h_cur = hi.unwrap();
                    if !h_cur.le(h_new) {
                        hi = Option::Some(h_new);
                    }
                },
            }
        }
        assert(rat_pair_is(lo, fold_lo(lo1, slab_lo(*self, *ray, 1), py)));
        assert(rat_pair_is(hi, fold_hi(hi1, slab_hi(*self, *ray, 1), py)));
        let ghost lo2 = fold_lo(lo1, slab_lo(*self, *ray, 1), py);
        let ghost hi2 = fold_hi(hi1, slab_hi(*self, *ray, 1), py);
        if d.z != 0 {
            let ln: i64 = if d.z > 0 { self.min.z - o.z } else { o.z - self.max.z };
            let hn: i64 = if d.z > 0 { self.max.z - o.z } else { o.z - self.min.z };
            let den: i64 = if d.z > 0 { d.z } else { -d.z };
            let l_new = Rat { num: ln as i128, den: den as i128 };
            let h_new = Rat { num: hn as i128, den: den as i128 };
            match lo {
                Option::None => {
                    lo = Option::Some(l_new);
                    hi = Option::Some(h_new);
                    axis = 2;
                },
                Option::Some(a_lo) => {
                    if a_lo.le(l_new) {
                        lo = Option::Some(l_new);
                        axis = 2;
                    }
                    let h_cur = hi.unwrap();
                    if !h_cur.le(h_new) {
                        hi = Option::Some(h_new);
                    }
                },
            }
        }
        assert(rat_pair_is(lo, fold_lo(lo2, slab_lo(*self, *ray, 2), pz)));
        assert(rat_pair_is(hi, fold_hi(hi2, slab_hi(*self, *ray, 2), pz)));
        match (lo, hi) {
            (Option::Some(l), Option::Some(h)) => {
                if !l.le(h) {
                    Option::None
                } else if l.num <= 0 {
                    Option::None
                } else {
                    let point = ray_point_at(ray, l);
                    let normal = if axis == 0 {
                        if d.x > 0 { Vector { x: -1, y: 0, z: 0 } } else { Vector { x: 1, y: 0, z: 0 } }
                    } else if axis == 1 {
                        if d.y > 0 { Vector { x: 0, y: -1, z: 0 } } else { Vector { x: 0, y: 1, z: 0 } }
                    } else {
                        if d.z > 0 { Vector { x: 0, y: 0, z: -1 } } else { Vector { x: 0, y: 0, z: 1 } }
                    };
                    let res = BoxHit { t: l, point, normal };
                    proof {
                        let a = axis as int;
                        assert(0 <= a < 3 && vec_axis(ray.direction, a) != 0 && (
                        res.t.num as int,
                        res.t.den as int,
                        ) == slab_lo(*self, *ray, a) && res.normal == axis_unit(
                            a,
                            vec_axis(ray.direction, a) > 0,
                        ));
                    }
                    Option::Some(res)
                }
            },
            _ => Option::None,
        }
    }
}

} // verus!
