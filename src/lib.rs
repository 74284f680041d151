//! The integer side of a Monte-Carlo ray tracer: the order in which pixels are
//! rendered, the choice of the nearest surface a ray hits, and the ASCII
//! image format the finished pixels are written in.
use vstd::prelude::*;

pub mod axis;
pub mod ppm;
pub mod render;
pub mod scene;

verus! {

} // verus!
