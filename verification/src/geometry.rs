use vstd::prelude::*;
use vstd::arithmetic::div_mod::lemma_small_mod;

verus! {

/// A point of the plane, as a pair of integers.
pub open spec fn point(c: (i32, i32)) -> (int, int) {
    (c.0 as int, c.1 as int)
}

/// The mirror image of a point across the x axis.
pub open spec fn mirror_x(p: (int, int)) -> (int, int) {
    (p.0, -p.1)
}

/// The mirror image of a point across the y axis.
pub open spec fn mirror_y(p: (int, int)) -> (int, int) {
    (-p.0, p.1)
}

/// The mirror image of a point through the origin.
pub open spec fn mirror_xy(p: (int, int)) -> (int, int) {
    (-p.0, -p.1)
}

/// Mirror image across the x axis.
pub fn reflect_x(coords: (i32, i32)) -> (r: (i32, i32))
    requires
        coords.1 != i32::MIN,
    ensures
        point(r) == mirror_x(point(coords)),
{
    (coords.0, -coords.1)
}

/// Mirror image across the y axis.
pub fn reflect_y(coords: (i32, i32)) -> (r: (i32, i32))
    requires
        coords.0 != i32::MIN,
    ensures
        point(r) == mirror_y(point(coords)),
{
    (-coords.0, coords.1)
}

/// Mirror image through the origin.
pub fn reflect_xy(coords: (i32, i32)) -> (r: (i32, i32))
    requires
        coords.0 != i32::MIN,
        coords.1 != i32::MIN,
    ensures
        point(r) == mirror_xy(point(coords)),
{
    (-coords.0, -coords.1)
}

/// The shift of one coordinate by a centre coordinate, whose bits are read as
/// an `i32`.
pub open spec fn shifted(c: i32, center: u32) -> int {
    c + (center as i32)
}

/// Moves `coords` so that the origin lands on `center`.
pub fn coordinate_shift_to(coords: (i32, i32), center: (u32, u32)) -> (r: (i32, i32))
    requires
        i32::MIN <= shifted(coords.0, center.0) <= i32::MAX,
        i32::MIN <= shifted(coords.1, center.1) <= i32::MAX,
    ensures
        r.0 == shifted(coords.0, center.0),
        r.1 == shifted(coords.1, center.1),
{
    (coords.0 + center.0 as i32, coords.1 + center.1 as i32)
}

/// When one coordinate can be wrapped: a negative one must lie within one
/// period below zero, and a non-negative one needs a non-empty period.
pub open spec fn wrappable(c: i32, limit: u32) -> bool {
    if c < 0 {
        c > i32::MIN && -c <= limit
    } else {
        limit > 0
    }
}

/// The wrapped coordinate: a negative one counts down from the limit, a
/// non-negative one is reduced modulo the limit.
pub open spec fn wrapped(c: i32, limit: u32) -> int {
    if c < 0 {
        limit + c
    } else {
        (c as int) % (limit as int)
    }
}

/// Brings a point back onto a torus of the given size.
pub fn wrap_coordinates(coord: (i32, i32), limit: (u32, u32)) -> (r: (u32, u32))
    requires
        wrappable(coord.0, limit.0),
        wrappable(coord.1, limit.1),
    ensures
        r.0 == wrapped(coord.0, limit.0),
        r.1 == wrapped(coord.1, limit.1),
{
    (wrap_one(coord.0, limit.0), wrap_one(coord.1, limit.1))
}

fn wrap_one(c: i32, limit: u32) -> (r: u32)
    requires
        wrappable(c, limit),
    ensures
        r == wrapped(c, limit),
{
    if c < 0 {
        limit - ((-c) as u32)
    } else {
        (c as u32) % limit
    }
}

/// Each reflection undoes itself, and reflecting through the origin is
/// reflecting across both axes, in either order.
pub proof fn lemma_reflections(p: (int, int))
    ensures
        mirror_x(mirror_x(p)) == p,
        mirror_y(mirror_y(p)) == p,
        mirror_xy(mirror_xy(p)) == p,
        mirror_xy(p) == mirror_x(mirror_y(p)),
        mirror_xy(p) == mirror_y(mirror_x(p)),
{
}

/// A wrapped coordinate lies on the torus, and one already on it is kept.
pub proof fn lemma_wrapped_in_range(c: i32, limit: u32)
    requires
        wrappable(c, limit),
    ensures
        0 <= wrapped(c, limit) < limit,
        0 <= c < limit ==> wrapped(c, limit) == c,
{
    if 0 <= c < limit {
        lemma_small_mod(c as nat, limit as nat);
    }
}

} // verus!
