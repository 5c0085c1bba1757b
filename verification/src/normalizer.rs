//! Normalizers: pure transformations of a `NormalizedString` that
//! keep its alignment to the original text.

use vstd::prelude::*;

use crate::error::TokenizerError;
use crate::normalized::{spec_stripped, NormalizedString, NsModel};

verus! {

/// The pre-processing interface of the pipeline. Implementations must
/// keep the alignment of the `NormalizedString` they transform.
pub trait Normalizer {
    fn normalize(&self, normalized: &mut NormalizedString) -> (r: Result<(), TokenizerError>)
        requires
            old(normalized).wf(),
        ensures
            final(normalized).wf(),
    ;
}

/// Removes leading and/or trailing whitespace from the normalized
/// form.
#[derive(Clone, Copy, Debug, PartialEq, Eq, Structural)]
pub struct Strip {
    pub strip_left: bool,
    pub strip_right: bool,
}

impl Strip {
    pub fn new(strip_left: bool, strip_right: bool) -> (r: Strip)
        ensures
            r.strip_left == strip_left,
            r.strip_right == strip_right,
    {
        Strip { strip_left, strip_right }
    }
}

/// The set of normalizers this pipeline ships.
#[derive(Clone, Copy, Debug, PartialEq, Eq, Structural)]
pub enum NormalizerWrapper {
    StripNormalizer(Strip),
}

/// What a normalizer does to the normalized text and its alignment.
pub open spec fn spec_normalize(w: NormalizerWrapper, m: NsModel) -> NsModel {
    match w {
        NormalizerWrapper::StripNormalizer(s) => spec_stripped(m, s.strip_left, s.strip_right),
    }
}

impl NormalizerWrapper {
    /// Apply this normalizer. Never fails.
    pub fn apply(&self, normalized: &mut NormalizedString) -> (r: Result<(), TokenizerError>)
        requires
            old(normalized).wf(),
        ensures
            r is Ok,
            final(normalized)@ == spec_normalize(*self, old(normalized)@),
            final(normalized).wf(),
    {
        match self {
            NormalizerWrapper::StripNormalizer(s) => {
                normalized.strip(s.strip_left, s.strip_right);
                Ok(())
            },
        }
    }
}

impl Normalizer for NormalizerWrapper {
    fn normalize(&self, normalized: &mut NormalizedString) -> Result<(), TokenizerError> {
        self.apply(normalized)
    }
}

impl Normalizer for Strip {
    fn normalize(&self, normalized: &mut NormalizedString) -> Result<(), TokenizerError> {
        let w = NormalizerWrapper::StripNormalizer(*self);
        w.apply(normalized)
    }
}

} // verus!
