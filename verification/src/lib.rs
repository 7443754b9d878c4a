//! Image transcoding toolkit: a uniform raw image value, centred crop,
//! aspect-aware resize, content hashing and the rules that tie them together.

pub mod avif;
pub mod binary64;
pub mod crop;
pub mod error;
pub mod ffi;
pub mod hash;
pub mod image;
pub mod jpeg;
pub mod manifest;
pub mod outside;
pub mod pipeline;
pub mod png;
pub mod resize;
pub mod rounding;
pub mod text;
pub mod webp;
