pub mod shape;
pub mod spectrum;
pub mod texture;
pub mod transform;
pub mod utils;
pub mod whitted;
pub mod sampler;
