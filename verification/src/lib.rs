//! Image-processing plugin system: the blur plugin's algorithm, the mirror
//! plugin's parameters, and the host's rule for locating a plugin library.

pub mod blur;
pub mod blur_laws;
pub mod host;
pub mod mirror;
