use vstd::prelude::*;

verus! {

/// A triangle of the room's surface, with the share of sound energy that it
/// absorbs at each reflection.
pub struct Triangle<P, A> {
    pub v0: P,
    pub v1: P,
    pub v2: P,
    pub absorption: A,
}

/// The triangle `v0 v1 v2` with the given absorption.
pub open spec fn triangle<P, A>(v0: P, v1: P, v2: P, absorption: A) -> Triangle<P, A> {
    Triangle { v0, v1, v2, absorption }
}

/// Splits the rectangle `a b c d` (corners in order around it) into the two
/// triangles `a b c` and `a c d`, both carrying the rectangle's absorption,
/// and appends them to `triangles`, in that order.
pub fn add_rect_as_two_triangles<P: Copy, A: Copy>(
    triangles: &mut Vec<Triangle<P, A>>,
    a: P,
    b: P,
    c: P,
    d: P,
    absorption: A,
)
    ensures
        final(triangles)@ == old(triangles)@.push(triangle(a, b, c, absorption)).push(
            triangle(a, c, d, absorption),
        ),
{
    triangles.push(Triangle { v0: a, v1: b, v2: c, absorption });
    triangles.push(Triangle { v0: a, v1: c, v2: d, absorption });
}

} // verus!
