//! Options of the box-blur tool: which image to read, where to write the
//! result, and the radius of the box.
use vstd::prelude::*;

verus! {

/// The box radius used when none is given.
pub const DEFAULT_RADIUS: u32 = 3;

/// What the box-blur tool is asked to do.
pub struct Opts {
    /// Path of the image to blur.
    pub in_path: String,
    /// Path to write the blurred image to.
    pub out_path: String,
    /// Radius of the box blur, in pixels.
    pub radius: u32,
}

impl Opts {
    /// Options for blurring `in_path` into `out_path` with the default radius.
    pub fn new(in_path: String, out_path: String) -> (r: Opts)
        ensures
            r.in_path@ == in_path@,
            r.out_path@ == out_path@,
            r.radius == DEFAULT_RADIUS,
    {
        Opts { in_path, out_path, radius: DEFAULT_RADIUS }
    }

    /// The same options with the box radius set to `radius`.
    pub fn with_radius(self, radius: u32) -> (r: Opts)
        ensures
            r.in_path@ == self.in_path@,
            r.out_path@ == self.out_path@,
            r.radius == radius,
    {
        Opts { radius, ..self }
    }
}

} // verus!
