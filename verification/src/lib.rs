//! RGBA image transformations (mirroring, blur neighbourhoods) and the
//! buffer checks that guard a plugin call, with their contracts.

pub mod pixels;
pub mod mirror;
pub mod blur;
pub mod loader;
