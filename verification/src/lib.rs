//! Codec for the PAC game-archive container and the TTP animation-metadata
//! format: parsing an archive's directory and entry bodies, the zlib-wrapped
//! compressed-bitmap body variant, building archives with computed offsets,
//! and the shared Shift-JIS text handling.

pub mod errors;
mod le;
pub mod text;
pub mod zlib;
pub mod pac;
pub mod ttp;
