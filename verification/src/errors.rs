use vstd::prelude::*;

verus! {

/// Failure taxonomy of a run: configuration (a store path without the
/// recognized extension), state (an operation invoked out of order),
/// data (too few participants, or a name that is not in the registry),
/// and concealment (the hashing primitive reported a failure).
#[derive(Clone, Copy, Debug, PartialEq, Eq, Structural)]
pub enum Error {
    BadExtension,
    NotShuffled,
    TooFewParticipants,
    RecipientNotFound,
    HashFailure,
}

impl Error {
    /// A short description, in place of a `Display` impl.
    pub fn describe(&self) -> (r: &'static str)
        ensures
            r@ == self.spec_describe(),
    {
        match self {
            Error::BadExtension => "bad extension, only .json files",
            Error::NotShuffled => "participants not shuffled",
            Error::TooFewParticipants => "not enough participants",
            Error::RecipientNotFound => "participant is not in list",
            Error::HashFailure => "error creating hash",
        }
    }

    pub open spec fn spec_describe(&self) -> Seq<char> {
        match self {
            Error::BadExtension => "bad extension, only .json files"@,
            Error::NotShuffled => "participants not shuffled"@,
            Error::TooFewParticipants => "not enough participants"@,
            Error::RecipientNotFound => "participant is not in list"@,
            Error::HashFailure => "error creating hash"@,
        }
    }
}

} // verus!
