//! The operations that a transformation token carries.
use vstd::prelude::*;

verus! {

/// A resampling kernel used by a resize.
#[derive(Clone, Copy, Debug, PartialEq, Eq, Structural)]
pub enum ResamplingFilter {
    Nearest,
    Triangle,
    CatmullRom,
    Gaussian,
    Lanczos3,
}

/// A named colour-grading preset.
#[derive(Clone, Copy, Debug, PartialEq, Eq, Structural)]
pub enum FilterKind {
    Oceanic,
    Islands,
    Marine,
    Seagreen,
    Vintage,
}

/// One step of a transformation pipeline.
#[derive(Clone, Copy, Debug, PartialEq, Eq, Structural)]
pub enum Operation {
    Resize { width: u32, height: u32, filter: ResamplingFilter },
    Watermark { x: u32, y: u32 },
    ColorFilter { kind: FilterKind },
}

/// An ordered list of operations, applied left to right.
#[derive(Clone, Debug, PartialEq, Eq)]
pub struct ImageSpec {
    pub specs: Vec<Operation>,
}

/// An operation is valid unless it is a resize to a zero width or height.
pub open spec fn valid_op(op: Operation) -> bool {
    match op {
        Operation::Resize { width, height, .. } => width > 0 && height > 0,
        _ => true,
    }
}

pub open spec fn valid_ops(ops: Seq<Operation>) -> bool {
    forall|i: int| 0 <= i < ops.len() ==> valid_op(#[trigger] ops[i])
}

impl ImageSpec {
    pub open spec fn view(&self) -> Seq<Operation> {
        self.specs@
    }

    /// Wraps a list of operations.
    pub fn new(specs: Vec<Operation>) -> (r: ImageSpec)
        ensures
            r@ == specs@,
    {
        ImageSpec { specs }
    }
}

impl Operation {
    /// A resize to `width` by `height` with the given kernel.
    pub fn new_resize(width: u32, height: u32, filter: ResamplingFilter) -> (r: Operation)
        ensures
            r == (Operation::Resize { width, height, filter }),
    {
        Operation::Resize { width, height, filter }
    }

    /// A watermark whose top-left corner lies at `(x, y)`.
    pub fn new_watermark(x: u32, y: u32) -> (r: Operation)
        ensures
            r == (Operation::Watermark { x, y }),
    {
        Operation::Watermark { x, y }
    }

    /// A colour-grading preset.
    pub fn new_filter(kind: FilterKind) -> (r: Operation)
        ensures
            r == (Operation::ColorFilter { kind }),
    {
        Operation::ColorFilter { kind }
    }
}

} // verus!
