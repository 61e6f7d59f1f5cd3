//! A software rasterizer with a depth buffer and baked irradiance maps.
//!
//! The library holds the rules of rendering that are decided on whole
//! numbers: which pixels a triangle covers, which triangle is culled, which
//! sample passes the depth test, which triangle a texel of an irradiance
//! map comes from, where the glyphs of a line of text go. Arithmetic on
//! real numbers stays with the caller, who hands its results over as the
//! bit patterns of single-precision numbers; `binary32` orders them and
//! rounds them to whole numbers.
//!
//! The functions are proved against their contracts, and none of them
//! panics. What is taken on trust is marked where it stands: a lock of the
//! standard library and the glyph tables of the font.

pub mod binary32;
pub mod camera;
pub mod gimap;
pub mod object;
pub mod raster;
pub mod render;
pub mod text;
