use vstd::prelude::*;

verus! {

/// Parameters of the mirror plugin, as read from its YAML file.
#[derive(Debug, Clone, Copy, PartialEq, Eq)]
pub struct Params {
    /// Flip vertically (top and bottom swap places).
    pub flip_v: bool,
    /// Flip horizontally (left and right swap places).
    pub flip_h: bool,
}

impl Default for Params {
    /// The parameters used when none can be read: no flip at all.
    fn default() -> (p: Self)
        ensures
            !p.flip_v,
            !p.flip_h,
    {
        Params { flip_v: false, flip_h: false }
    }
}

} // verus!
