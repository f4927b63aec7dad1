//! Annotation types: image shapes and segmentation masks.

pub mod contour;
pub mod mask;

use vstd::prelude::*;

use crate::model::{decimal, decimal_string};

verus! {

/// Represents the full image dimensions [height, width].
#[derive(Debug, Clone, Copy, PartialEq, Eq, Structural)]
pub struct FullShape {
    /// Image height in pixels.
    pub height: u32,
    /// Image width in pixels.
    pub width: u32,
}

impl FullShape {
    /// Create a new full shape.
    pub fn new(height: u32, width: u32) -> (s: Self)
        ensures
            s.height == height,
            s.width == width,
    {
        FullShape { height, width }
    }

    /// Create from [height, width] array.
    pub fn from_hw(hw: [u32; 2]) -> (s: Self)
        ensures
            s.height == hw@[0],
            s.width == hw@[1],
    {
        FullShape { height: hw[0], width: hw[1] }
    }

    /// Convert to [height, width] array.
    pub fn to_hw(&self) -> (hw: [u32; 2])
        ensures
            hw@ == seq![self.height, self.width],
    {
        let hw = [self.height, self.width];
        assert(hw@ =~= seq![self.height, self.width]);
        hw
    }

    /// Get as (width, height) tuple.
    pub fn to_wh(&self) -> (wh: (u32, u32))
        ensures
            wh == (self.width, self.height),
    {
        (self.width, self.height)
    }

    /// Create a new full shape (the Python constructor).
    pub fn py_new(height: u32, width: u32) -> (s: Self)
        ensures
            s == (FullShape { height, width }),
    {
        Self::new(height, width)
    }

    /// `FullShape(height=H, width=W)`, with both numbers in decimal.
    pub fn __repr__(&self) -> (r: String)
        ensures
            r@ == full_shape_text(self.height, self.width),
    {
        full_shape_repr(self.height, self.width)
    }
}

/// The text `FullShape(height=H, width=W)` with both numbers in decimal.
pub open spec fn full_shape_text(height: u32, width: u32) -> Seq<char> {
    "FullShape(height="@ + decimal(height as nat) + ", width="@ + decimal(width as nat) + ")"@
}

/// The text `FullShape(height={}, width={})`.
fn full_shape_repr(height: u32, width: u32) -> (r: String)
    ensures
        r@ == full_shape_text(height, width),
{
    let h = decimal_string(height);
    let w = decimal_string(width);
    String::from_str("FullShape(height=").concat(h.as_str()).concat(", width=").concat(
        w.as_str(),
    ).concat(")")
}

/// The shape of a `[height, width]` array.
pub open spec fn shape_of_hw(hw: [u32; 2]) -> FullShape {
    FullShape { height: hw@[0], width: hw@[1] }
}

/// A shape read back from its `[height, width]` array (`to_hw`, then `from_hw` or `from`) is
/// the same shape.
pub proof fn lemma_hw_round_trip(s: FullShape, hw: [u32; 2])
    requires
        hw@ == seq![s.height, s.width],
    ensures
        shape_of_hw(hw) == s,
{
}

impl From<[u32; 2]> for FullShape {
    fn from(hw: [u32; 2]) -> (s: Self) {
        Self::from_hw(hw)
    }
}

impl vstd::std_specs::convert::FromSpecImpl<[u32; 2]> for FullShape {
    open spec fn obeys_from_spec() -> bool {
        true
    }

    open spec fn from_spec(hw: [u32; 2]) -> Self {
        shape_of_hw(hw)
    }
}

impl From<(u32, u32)> for FullShape {
    fn from(hw: (u32, u32)) -> (s: Self) {
        FullShape { height: hw.0, width: hw.1 }
    }
}

impl vstd::std_specs::convert::FromSpecImpl<(u32, u32)> for FullShape {
    open spec fn obeys_from_spec() -> bool {
        true
    }

    open spec fn from_spec(hw: (u32, u32)) -> Self {
        FullShape { height: hw.0, width: hw.1 }
    }
}

impl Default for FullShape {
    /// The empty shape, `0 x 0`.
    fn default() -> (s: Self)
        ensures
            s == (FullShape { height: 0, width: 0 }),
    {
        FullShape { height: 0, width: 0 }
    }
}

} // verus!
