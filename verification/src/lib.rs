//! Locating, extracting and replacing DDS chunks inside AFB containers, the
//! pixel work that prepares textures for DDS compression, and the wide-string
//! helpers of the C interface.

pub mod chunks;
pub mod wide;
pub mod texture;
pub mod afb;
