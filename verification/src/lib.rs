//! Verified core of a 3D acoustic ray tracer: how a room's walls are cut into
//! triangles, which surface a ray reflects on, how the hits that reach the
//! microphone are gathered (by one worker or by many), and the metadata of the
//! impulse-response export.
use vstd::prelude::*;

pub mod export;
pub mod geometry;
pub mod simulation;

verus! {

} // verus!
