//! The loaders, their settings and errors, and the plugins that register them.
use vstd::prelude::*;

verus! {

/// Declares `std::io::Error`, the error of reading a file, which the loaders'
/// errors carry; the library holds it without looking inside.
#[verifier::external_type_specification]
#[verifier::external_body]
pub struct ExIoError(std::io::Error);

/// Loader of IES photometric files (IESNA LM-63: 1986, 1991, 1995, 2002 and 2019).
/// Type C, Type B and Type A photometry are all turned into Type C at load time.
#[derive(Debug, Clone, Copy, Default)]
pub struct IesLoader;

/// Settings for the IES loader: the resolution of the intensity texture.
#[derive(Debug, Clone, Copy, PartialEq, Eq)]
pub struct IesLoaderSettings {
    /// Resolution of the output texture in C-plane steps.
    pub c_steps: u32,
    /// Resolution of the output texture in gamma steps.
    pub g_steps: u32,
}

impl Default for IesLoaderSettings {
    /// One-degree resolution: 361 C-plane steps (0°–360°) and 181 gamma steps (0°–180°).
    fn default() -> (s: Self)
        ensures
            s.c_steps == 361,
            s.g_steps == 181,
    {
        IesLoaderSettings { c_steps: 361, g_steps: 181 }
    }
}

/// Why an IES file could not be loaded.
#[non_exhaustive]
#[derive(Debug)]
pub enum IesLoaderError {
    /// Reading the file failed.
    Io(std::io::Error),
    /// The file is no valid IES file; the message says why.
    Parse(String),
}

/// Loader of EULUMDAT (LDT) photometric files, the European standard format.
/// EULUMDAT is Type C natively (C0 along the luminaire's length).
#[derive(Debug, Clone, Copy, Default)]
pub struct LdtLoader;

/// Settings for the LDT loader: the resolution of the intensity texture.
#[derive(Debug, Clone, Copy, PartialEq, Eq)]
pub struct LdtLoaderSettings {
    /// Resolution of the output texture in C-plane steps.
    pub c_steps: u32,
    /// Resolution of the output texture in gamma steps.
    pub g_steps: u32,
}

impl Default for LdtLoaderSettings {
    /// One-degree resolution: 361 C-plane steps (0°–360°) and 181 gamma steps (0°–180°).
    fn default() -> (s: Self)
        ensures
            s.c_steps == 361,
            s.g_steps == 181,
    {
        LdtLoaderSettings { c_steps: 361, g_steps: 181 }
    }
}

/// Why an LDT file could not be loaded.
#[non_exhaustive]
#[derive(Debug)]
pub enum LdtLoaderError {
    /// Reading the file failed.
    Io(std::io::Error),
    /// The file is no valid EULUMDAT file; the message says why.
    Parse(String),
}

/// Plugin that registers the photometric profile asset and its IES and LDT loaders.
#[derive(Debug, Clone, Copy, Default)]
pub struct PhotometricPlugin;

/// Plugin that registers the GPU-side photometric resources and their upload.
#[derive(Debug, Clone, Copy, Default)]
pub struct PhotometricRenderPlugin;

} // verus!
