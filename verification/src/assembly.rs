//! A segment of the mirror with its identifier.

use crate::mask::{count, scatter};
use crate::scalar::Scalar;
use crate::segment::{
    is_basis, is_inverse, is_solution, is_subtracted, KarhunenLoeve, PseudoInverse, Segment,
};
use crate::{GlaoError, SEGMENTS};
use vstd::prelude::*;
use vstd::string::StringExecFns;

verus! {

/// The name of the segment with the identifier `sid`.
pub open spec fn tag_of(sid: usize) -> Seq<char>
    recommends
        1 <= sid <= SEGMENTS,
{
    "M2S"@.push(seq!['1', '2', '3', '4', '5', '6', '7'][sid - 1])
}

/// A segment of the mirror with its identifier, from 1 to 7.
#[derive(Debug)]
pub struct ASM<T, P> {
    /// The identifier of the segment.
    pub sid: usize,
    /// The segment.
    pub segment: Segment<T, P>,
}

impl<T: Scalar, P: PseudoInverse<T>> ASM<T, P> {
    /// The identifier is one of the seven, and the segment holds a basis.
    pub open spec fn wf(&self) -> bool {
        1 <= self.sid <= SEGMENTS && self.segment.wf()
    }

    /// Tells whether the identifier is one of the seven and the segment
    /// holds a basis.
    pub fn is_valid(&self) -> (ok: bool)
        ensures
            ok == self.wf(),
    {
        1 <= self.sid && self.sid <= SEGMENTS && self.segment.is_valid()
    }

    /// Gives `segment` the identifier `sid`, which must be one of 1 to 7.
    pub fn new(sid: usize, segment: Segment<T, P>) -> (r: Result<Self, GlaoError>)
        ensures
            match r {
                Ok(tagged) => {
                    &&& 1 <= sid <= SEGMENTS
                    &&& tagged.sid == sid
                    &&& tagged.segment == segment
                },
                Err(error) => error == GlaoError::Bin2Asm && !(1 <= sid <= SEGMENTS),
            },
    {
        if 1 <= sid && sid <= SEGMENTS {
            Ok(Self { sid, segment })
        } else {
            Err(GlaoError::Bin2Asm)
        }
    }

    /// Makes the segment with the identifier `sid` of a stored basis. An
    /// identifier that is none of 1 to 7 is refused before anything is
    /// computed.
    pub fn from_kl(sid: usize, kl: KarhunenLoeve<T>) -> (r: Result<Self, GlaoError>)
        requires
            is_basis(kl.modes@, kl.n_mode, kl.mask@),
        ensures
            match r {
                Ok(tagged) => {
                    &&& 1 <= sid <= SEGMENTS
                    &&& tagged.sid == sid
                    &&& tagged.wf()
                    &&& tagged.segment.modes == kl.modes
                    &&& tagged.segment.n_mode == kl.n_mode
                    &&& tagged.segment.mask == kl.mask
                    &&& tagged.segment.coefficients@.len() == 0
                    &&& is_inverse(kl.modes, kl.n_mode, Ok::<P, String>(tagged.segment.modes_pinv))
                },
                Err(error) => if 1 <= sid <= SEGMENTS {
                    exists|why: String|
                        is_inverse(kl.modes, kl.n_mode, Err::<P, String>(why)) && error
                            == GlaoError::PseudoInverse(why)
                } else {
                    error == GlaoError::Bin2Asm
                },
            },
    {
        if 1 <= sid && sid <= SEGMENTS {
            let segment = Segment::from_kl(kl)?;
            Ok(Self { sid, segment })
        } else {
            Err(GlaoError::Bin2Asm)
        }
    }

    /// Fits `opd` by projection on the modes of the segment, and keeps the
    /// coefficients.
    pub fn project(&mut self, opd: &[T]) -> (r: Result<&mut Self, GlaoError>)
        requires
            old(self).segment.wf(),
        ensures
            match r {
                Ok(tagged) => {
                    &&& old(self).segment.accepts(opd@.len())
                    &&& old(self).segment.is_projected(
                        old(self).segment.samples(opd@),
                        tagged.segment.coefficients@,
                    )
                    &&& tagged.segment.same_basis(&old(self).segment)
                    &&& tagged.sid == old(self).sid
                    &&& *final(tagged) == *final(self)
                },
                Err(error) => {
                    &&& error == GlaoError::Projection
                    &&& !old(self).segment.accepts(opd@.len())
                    &&& *final(self) == *old(self)
                },
            },
    {
        self.segment.project(opd)?;
        Ok(self)
    }

    /// Fits the modes of the segment to `opd` by least squares, and keeps
    /// the coefficients.
    pub fn least_square(&mut self, opd: &[T]) -> (r: Result<&mut Self, GlaoError>)
        requires
            old(self).segment.wf(),
        ensures
            match r {
                Ok(tagged) => {
                    &&& old(self).segment.accepts(opd@.len())
                    &&& is_solution(
                        old(self).segment.modes_pinv,
                        old(self).segment.samples(opd@),
                        tagged.segment.coefficients,
                    )
                    &&& tagged.segment.same_basis(&old(self).segment)
                    &&& tagged.sid == old(self).sid
                    &&& *final(tagged) == *final(self)
                },
                Err(error) => {
                    &&& error == GlaoError::Projection
                    &&& !old(self).segment.accepts(opd@.len())
                    &&& *final(self) == *old(self)
                },
            },
    {
        self.segment.least_square(opd)?;
        Ok(self)
    }

    /// The projection of `opd` on every mode of the segment.
    pub fn project_out(&self, opd: &[T]) -> (r: Result<Vec<T>, GlaoError>)
        requires
            self.segment.wf(),
        ensures
            match r {
                Ok(coefficients) => {
                    &&& self.segment.accepts(opd@.len())
                    &&& self.segment.is_projected(self.segment.samples(opd@), coefficients@)
                },
                Err(error) => error == GlaoError::Projection && !self.segment.accepts(opd@.len()),
            },
    {
        self.segment.project_out(opd)
    }

    /// The least-squares fit of the modes of the segment to `opd`.
    pub fn least_square_out(&self, opd: &[T]) -> (r: Result<Vec<T>, GlaoError>)
        requires
            self.segment.wf(),
        ensures
            match r {
                Ok(coefficients) => {
                    &&& self.segment.accepts(opd@.len())
                    &&& is_solution(
                        self.segment.modes_pinv,
                        self.segment.samples(opd@),
                        coefficients,
                    )
                },
                Err(error) => error == GlaoError::Projection && !self.segment.accepts(opd@.len()),
            },
    {
        self.segment.least_square_out(opd)
    }

    /// The number of points of the segment.
    pub fn n_point(&self) -> (n: usize)
        requires
            self.segment.n_mode > 0,
        ensures
            n == self.segment.points(),
    {
        self.segment.n_point()
    }

    /// The number of samples of the grid that the mask selects.
    pub fn n_in_mask(&self) -> (n: usize)
        ensures
            n == count(self.segment.mask@),
    {
        self.segment.n_in_mask()
    }

    /// The shape of the segment, made of the modes `idx`, or of every mode
    /// that has a coefficient where no mode is chosen.
    pub fn shape(&self, idx: Option<&[usize]>) -> (shape: Vec<T>)
        requires
            self.segment.wf(),
            idx matches Some(chosen) ==> self.segment.has_modes(chosen@),
        ensures
            self.segment.is_shape(self.segment.used_modes(idx), shape@),
    {
        self.segment.shape(idx)
    }

    /// The coefficients of the last fit.
    pub fn coefficients(&self) -> (coefficients: &[T])
        ensures
            coefficients@ == self.segment.coefficients@,
    {
        self.segment.coefficients.as_slice()
    }

    /// The modes of the segment, one after the other.
    pub fn modes(&self) -> (modes: &[T])
        ensures
            modes@ == self.segment.modes@,
    {
        self.segment.modes.as_slice()
    }

    /// The pupil mask of the segment.
    pub fn mask(&self) -> (mask: &[bool])
        ensures
            mask@ == self.segment.mask@,
    {
        self.segment.mask.as_slice()
    }

    /// Replaces the samples of `old_data` that belong to the segment by those
    /// of `new_data`, in the order of the mask.
    pub fn masked_replace(&self, old_data: &mut [T], new_data: Vec<T>)
        requires
            old(old_data).len() == self.segment.mask.len(),
            new_data.len() == count(self.segment.mask@),
        ensures
            final(old_data)@ == scatter(self.segment.mask@, old(old_data)@, new_data@),
    {
        self.segment.masked_replace(old_data, new_data)
    }

    /// Subtracts the samples of `new_data` from the samples of `old_data` that
    /// belong to the segment, in the order of the mask.
    pub fn masked_sub(&self, old_data: &mut [T], new_data: Vec<T>)
        requires
            old(old_data).len() == self.segment.mask.len(),
            new_data.len() == count(self.segment.mask@),
        ensures
            is_subtracted(self.segment.mask@, old(old_data)@, new_data@, final(old_data)@),
    {
        self.segment.masked_sub(old_data, new_data)
    }

    /// The name of the segment.
    pub fn tag(&self) -> (text: String)
        requires
            1 <= self.sid <= SEGMENTS,
        ensures
            text@ == tag_of(self.sid),
    {
        proof {
            reveal_strlit("M2S");
            reveal_strlit("M2S1");
            reveal_strlit("M2S2");
            reveal_strlit("M2S3");
            reveal_strlit("M2S4");
            reveal_strlit("M2S5");
            reveal_strlit("M2S6");
            reveal_strlit("M2S7");
        }
        let text = if self.sid == 1 {
            String::from_str("M2S1")
        } else if self.sid == 2 {
            String::from_str("M2S2")
        } else if self.sid == 3 {
            String::from_str("M2S3")
        } else if self.sid == 4 {
            String::from_str("M2S4")
        } else if self.sid == 5 {
            String::from_str("M2S5")
        } else if self.sid == 6 {
            String::from_str("M2S6")
        } else {
            String::from_str("M2S7")
        };
        assert(text@ =~= tag_of(self.sid));
        text
    }
}

} // verus!
