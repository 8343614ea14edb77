use vstd::prelude::*;
use vstd::std_specs::cmp::PartialOrdSpec;
use core::cmp::Ordering;

verus! {

/// Values that can be limited to a range.
pub trait Clamp<T = Self>: Sized {
    /// The value that `clamp` gives.
    spec fn clamped(self, a: T, b: T) -> Self;

    fn clamp(self, a: T, b: T) -> (r: Self)
        ensures
            r == self.clamped(a, b),
    ;
}

/// `a` when `x` is less than `a`, else `b` when `x` is greater than `b`,
/// else `x`.
pub fn clamp_num<T: Copy + PartialOrd>(x: T, a: T, b: T) -> (r: T)
    requires
        T::obeys_partial_cmp_spec(),
    ensures
        r == (if x.partial_cmp_spec(&a) == Some(Ordering::Less) {
            a
        } else if x.partial_cmp_spec(&b) == Some(Ordering::Greater) {
            b
        } else {
            x
        }),
{
    if x.lt(&a) { a } else if x.gt(&b) { b } else { x }
}

impl Clamp for i8 {
    open spec fn clamped(self, a: i8, b: i8) -> i8 {
        if self < a { a } else if self > b { b } else { self }
    }

    fn clamp(self, a: i8, b: i8) -> i8
    {
        clamp_num(self, a, b)
    }
}

impl Clamp for i16 {
    open spec fn clamped(self, a: i16, b: i16) -> i16 {
        if self < a { a } else if self > b { b } else { self }
    }

    fn clamp(self, a: i16, b: i16) -> i16
    {
        clamp_num(self, a, b)
    }
}

impl Clamp for i32 {
    open spec fn clamped(self, a: i32, b: i32) -> i32 {
        if self < a { a } else if self > b { b } else { self }
    }

    fn clamp(self, a: i32, b: i32) -> i32
    {
        clamp_num(self, a, b)
    }
}

impl Clamp for i64 {
    open spec fn clamped(self, a: i64, b: i64) -> i64 {
        if self < a { a } else if self > b { b } else { self }
    }

    fn clamp(self, a: i64, b: i64) -> i64
    {
        clamp_num(self, a, b)
    }
}

impl Clamp for u8 {
    open spec fn clamped(self, a: u8, b: u8) -> u8 {
        if self < a { a } else if self > b { b } else { self }
    }

    fn clamp(self, a: u8, b: u8) -> u8
    {
        clamp_num(self, a, b)
    }
}

impl Clamp for u16 {
    open spec fn clamped(self, a: u16, b: u16) -> u16 {
        if self < a { a } else if self > b { b } else { self }
    }

    fn clamp(self, a: u16, b: u16) -> u16
    {
        clamp_num(self, a, b)
    }
}

impl Clamp for u32 {
    open spec fn clamped(self, a: u32, b: u32) -> u32 {
        if self < a { a } else if self > b { b } else { self }
    }

    fn clamp(self, a: u32, b: u32) -> u32
    {
        clamp_num(self, a, b)
    }
}

impl Clamp for u64 {
    open spec fn clamped(self, a: u64, b: u64) -> u64 {
        if self < a { a } else if self > b { b } else { self }
    }

    fn clamp(self, a: u64, b: u64) -> u64
    {
        clamp_num(self, a, b)
    }
}

impl Clamp for usize {
    open spec fn clamped(self, a: usize, b: usize) -> usize {
        if self < a { a } else if self > b { b } else { self }
    }

    fn clamp(self, a: usize, b: usize) -> usize
    {
        clamp_num(self, a, b)
    }
}

} // verus!
