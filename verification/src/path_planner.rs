use vstd::prelude::*;

verus! {

/// Marker for the path representations that planners may return.
pub trait PathTag {}

/// A path sampled at a fixed number of points.
pub struct DiscretizedPath {
    pub sample: i32,
}

impl PathTag for DiscretizedPath {}

} // verus!
