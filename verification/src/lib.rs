//! Fitting of a segmented deformable mirror to wavefront-error maps.
//!
//! The mirror is made of seven segments. Each segment comes with a basis of
//! modes, sampled on the points of the grid that its pupil mask selects. A
//! wavefront-error map is fitted segment by segment, either by projection on
//! the modes or by least squares, the mirror shape is rebuilt from the fitted
//! coefficients, and what the mirror cannot reproduce is left as the residual
//! map.

pub mod assembly;
pub mod mask;
pub mod mirror;
pub mod opd;
pub mod record;
pub mod scalar;
pub mod segment;
pub mod stats;

pub use assembly::ASM;
pub use mirror::ASMS;
pub use opd::OPD;
pub use record::{OpdRecord, OpdStats};
pub use scalar::Scalar;
pub use segment::{KarhunenLoeve, PseudoInverse, Segment};

use vstd::prelude::*;
use vstd::string::StringExecFns;

verus! {

/// The number of samples of the grid: 512 rows of 512 samples.
pub const GRID: usize = 262144;

/// The number of segments of the mirror.
pub const SEGMENTS: usize = 7;

/// What can go wrong in the library.
#[derive(Debug)]
pub enum GlaoError {
    /// The map handed to a fit has neither the length of the grid nor the
    /// number of points of the segment.
    Projection,
    /// A segment was given an identifier outside of 1 to 7, or the segments
    /// handed over for a mirror are not the seven, in the order of their
    /// identifiers.
    Bin2Asm,
    /// The modes of a segment have no pseudo-inverse; the message tells why.
    PseudoInverse(String),
}

/// The text that describes `error`.
pub open spec fn message_of(error: GlaoError) -> Seq<char> {
    match error {
        GlaoError::Projection => "mode projection failed"@,
        GlaoError::Bin2Asm => "ASM from bincode failed"@,
        GlaoError::PseudoInverse(why) => "pseudo-inverse failed with "@ + why@,
    }
}

impl GlaoError {
    /// A description of the error.
    pub fn message(&self) -> (text: String)
        ensures
            text@ == message_of(*self),
    {
        match self {
            GlaoError::Projection => String::from_str("mode projection failed"),
            GlaoError::Bin2Asm => String::from_str("ASM from bincode failed"),
            GlaoError::PseudoInverse(why) => {
                String::from_str("pseudo-inverse failed with ").concat(why.as_str())
            },
        }
    }
}

} // verus!
