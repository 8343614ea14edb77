use vstd::prelude::*;

verus! {

/// Whitted-style ray tracing: direct light from every light source plus
/// perfect specular reflection and transmission, followed to a fixed depth.
pub struct WhittedIntegrator {
    max_depth: i32,
}

impl WhittedIntegrator {
    /// How many bounces of specular light are followed.
    pub closed spec fn spec_max_depth(&self) -> i32 {
        self.max_depth
    }

    pub fn new() -> (r: WhittedIntegrator)
        ensures
            r.spec_max_depth() == 5,
    {
        WhittedIntegrator { max_depth: 5 }
    }

    pub fn with_depth(d: i32) -> (r: WhittedIntegrator)
        ensures
            r.spec_max_depth() == d,
    {
        WhittedIntegrator { max_depth: d }
    }
}

} // verus!
