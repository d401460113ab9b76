use vstd::prelude::*;

verus! {

/// An affine 2D transform. Scale and skew components are 16.16 fixed-point
/// numbers stored by their exact bit pattern (`epsilons`: the value times
/// 2^16); translation components are in sub-pixel units. Copying a transform
/// copies the bit patterns, it never recomputes them.
#[derive(Copy, Clone, PartialEq, Eq, Structural, Debug)]
pub struct Matrix {
    pub scale_x: i32,
    pub scale_y: i32,
    pub rotate_skew0: i32,
    pub rotate_skew1: i32,
    pub translate_x: i32,
    pub translate_y: i32,
}

impl Matrix {
    /// The identity transform: scale 1.0/1.0, skew 0/0, translate 0/0.
    pub fn identity() -> (r: Matrix)
        ensures
            r == Matrix::spec_identity(),
    {
        Matrix {
            scale_x: 0x10000,
            scale_y: 0x10000,
            rotate_skew0: 0,
            rotate_skew1: 0,
            translate_x: 0,
            translate_y: 0,
        }
    }

    pub open spec fn spec_identity() -> Matrix {
        Matrix {
            scale_x: 0x10000,
            scale_y: 0x10000,
            rotate_skew0: 0,
            rotate_skew1: 0,
            translate_x: 0,
            translate_y: 0,
        }
    }
}

} // verus!
