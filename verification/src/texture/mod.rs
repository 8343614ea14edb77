use vstd::prelude::*;

verus! {

/// A texture that has the same value everywhere.
#[derive(Clone, Debug, PartialEq, PartialOrd)]
pub struct ConstantTexture<T: Clone> {
    value: T,
}

impl<T: Clone> ConstantTexture<T> {
    /// The value of the texture at every point.
    pub closed spec fn spec_value(&self) -> T {
        self.value
    }

    pub fn new(t: T) -> (r: ConstantTexture<T>)
        ensures
            r.spec_value() == t,
    {
        ConstantTexture { value: t }
    }

    /// The texture's value at the point that `_dg` describes: the same
    /// value, cloned, wherever it is evaluated.
    pub fn evaluate<G>(&self, _dg: &G) -> (r: T)
        ensures
            cloned::<T>(self.spec_value(), r),
    {
        self.value.clone()
    }
}

} // verus!
