use vstd::prelude::*;

verus! {

/// Something that maps values of type `T` to values of type `T`.
pub trait ApplyTransform<T: Clone> {
    fn xf(&self, v: T) -> T;

    /// By default, `xf` applied to a clone of `v`.
    fn t(&self, v: &T) -> (r: T)
        default_ensures
            exists|c: T| cloned(*v, c) && call_ensures(Self::xf, (self, c), r),
    {
        let c = v.clone();
        let ghost c_copy = c;
        let r = self.xf(c);
        assert(cloned(*v, c_copy));
        assert(call_ensures(Self::xf, (self, c_copy), r));
        r
    }
}

} // verus!
