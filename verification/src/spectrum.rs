use vstd::prelude::*;

verus! {

/// What a spectrum given as RGB describes: light that a surface reflects,
/// or light that a source emits.
#[derive(Debug, Copy, Clone, PartialEq, Eq, Structural, PartialOrd, Ord)]
pub enum SpectrumType {
    Reflectance,
    Illumination,
}

} // verus!
