//! Photometric data files (IES LM-63 and EULUMDAT) for luminaire light profiles.

pub mod ies;
pub mod interp;
pub mod ldt;
pub mod loader;
pub mod number;
pub mod render;
pub mod text;
pub mod tokens;
