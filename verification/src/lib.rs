//! Turns a triangle mesh stored as STL into a raster thumbnail: reads both
//! encodings of the format, bounds the mesh, fits it to the picture,
//! decides per pixel what is seen, and draws into an RGBA8 picture.
//!
//! Single-precision values never appear as machine floats here. A value is
//! carried as its IEEE-754 bit pattern in a `u32`. The [`single`] module
//! classifies and orders such patterns; [`rounding`] and [`arith`] add,
//! subtract, multiply, divide and convert them, and [`decimal`] reads them
//! from text, all with whole numbers and rounded as the standard asks.
//! What is more than that (the camera's matrices and the light at a
//! fragment) is left to the caller, who hands in the results: matrices as
//! their entries, and colours one at a time as the [`raster`] machine asks
//! for them.

pub mod aabb;
pub mod arith;
pub mod ascii;
pub mod binary;
pub mod caption;
pub mod coverage;
pub mod decimal;
pub mod fit;
pub mod font;
pub mod line;
pub mod matrix;
pub mod mesh;
pub mod parser;
pub mod picture;
pub mod raster;
pub mod rounding;
pub mod scale;
pub mod single;
pub mod stroke;
pub mod thick;
pub mod vector;
pub mod whole;
pub mod zbuffer;
