pub mod raster;
pub mod utils;
