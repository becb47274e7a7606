//! Errors of the sharing layer, each of one kind of the taxonomy below.
use vstd::prelude::*;

verus! {

/// The kind of a failure: what a caller may branch on.
#[derive(Clone, Copy, Debug, PartialEq, Eq, Structural)]
pub enum ErrorKind {
    /// A bad threshold or party count, or an unsupported scheme pair.
    Configuration,
    /// A malformed literal or share file.
    Parse,
    /// Input containers that cannot be combined.
    Merge,
    /// A multi-party operation that cannot proceed.
    Protocol,
    /// A failure of the transport between parties.
    Network,
}

#[derive(Clone, Debug, PartialEq, Eq)]
pub enum ShareError {
    /// REP3 runs with threshold 1 only.
    Rep3Threshold,
    /// REP3 runs with exactly three parties.
    Rep3PartyCount,
    /// Shamir sharing needs `0 < t < n`.
    ShamirThreshold,
    /// REP3 to Shamir is the only supported translation.
    UnsupportedTranslation,
    /// A literal that is not a field element; holds the offending text.
    Parse(String),
    /// A share file that does not decode.
    MalformedShareFile,
    /// A secret-shared name that both merged inputs hold.
    DuplicateKey(String),
    /// A public name that the merged inputs give different values.
    Conflict(String),
    /// A merge of fewer than two inputs.
    TooFewInputs,
    /// Fewer shares than the scheme needs to reconstruct.
    InsufficientShares,
    /// Shares that do not belong together (lengths or parties differ).
    MismatchedShares,
    /// More correlated randomness consumed than was preprocessed.
    RandomnessExhausted,
    /// A message from a peer of the wrong shape.
    MalformedMessage,
    /// The transport failed.
    Network,
}

impl ShareError {
    pub open spec fn spec_kind(&self) -> ErrorKind {
        match self {
            ShareError::Rep3Threshold | ShareError::Rep3PartyCount | ShareError::ShamirThreshold
            | ShareError::UnsupportedTranslation => ErrorKind::Configuration,
            ShareError::Parse(_) | ShareError::MalformedShareFile => ErrorKind::Parse,
            ShareError::DuplicateKey(_) | ShareError::Conflict(_) | ShareError::TooFewInputs =>
                ErrorKind::Merge,
            ShareError::InsufficientShares | ShareError::MismatchedShares
            | ShareError::RandomnessExhausted | ShareError::MalformedMessage =>
                ErrorKind::Protocol,
            ShareError::Network => ErrorKind::Network,
        }
    }

    #[verifier::when_used_as_spec(spec_kind)]
    pub fn kind(&self) -> (r: ErrorKind)
        ensures
            r == self.spec_kind(),
    {
        match self {
            ShareError::Rep3Threshold | ShareError::Rep3PartyCount | ShareError::ShamirThreshold
            | ShareError::UnsupportedTranslation => ErrorKind::Configuration,
            ShareError::Parse(_) | ShareError::MalformedShareFile => ErrorKind::Parse,
            ShareError::DuplicateKey(_) | ShareError::Conflict(_) | ShareError::TooFewInputs =>
                ErrorKind::Merge,
            ShareError::InsufficientShares | ShareError::MismatchedShares
            | ShareError::RandomnessExhausted | ShareError::MalformedMessage =>
                ErrorKind::Protocol,
            ShareError::Network => ErrorKind::Network,
        }
    }
}

/// An error together with the stages it passed through, innermost first.
#[derive(Clone, Debug)]
pub struct Report {
    pub error: ShareError,
    pub stages: Vec<String>,
}

impl Report {
    pub fn new(error: ShareError) -> (r: Report)
        ensures
            r.error == error,
            r.stages@.len() == 0,
    {
        Report { error, stages: Vec::new() }
    }

    /// Records one more enclosing stage ("while translating the witness").
    pub fn context(self, stage: String) -> (r: Report)
        ensures
            r.error == self.error,
            r.stages@ == self.stages@.push(stage),
    {
        let mut stages = self.stages;
        stages.push(stage);
        Report { error: self.error, stages }
    }
}

} // verus!
