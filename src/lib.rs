//! A 2D collision and motion core with integer coordinates: convex polygons
//! and circles, separating-axis collision tests with minimum push vectors,
//! axis-aligned bounding boxes, accelerated and friction-damped motion under
//! a speed cap, and a per-frame step that bounces moving bodies off solid
//! static ones.
use vstd::prelude::*;

pub mod bounding_box;
pub mod collider;
pub mod collision_facts;
pub mod dynamic_object;
pub mod geom;
pub mod physics;
pub mod shape;
pub mod state;
pub mod transform;
pub mod util;

verus! {

} // verus!
