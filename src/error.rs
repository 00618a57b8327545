use vstd::prelude::*;

verus! {

/// Failures of a reconciliation run.
#[derive(Debug)]
pub enum DynHashError {
    /// The reconciled text could not be written back.
    FailedToWriteUpdated,
    /// Listing a directory or reading or writing the route file failed.
    StdIoError(std::io::Error),
    /// A route has to be synthesized but the route text imports no error type.
    MissingErrorTypeName,
}

#[verifier::external_type_specification]
#[verifier::external_body]
pub struct ExIoError(std::io::Error);

impl From<std::io::Error> for DynHashError {
    fn from(err: std::io::Error) -> (r: DynHashError)
        ensures
            r == DynHashError::StdIoError(err),
    {
        DynHashError::StdIoError(err)
    }
}

impl vstd::std_specs::convert::FromSpecImpl<std::io::Error> for DynHashError {
    open spec fn obeys_from_spec() -> bool {
        true
    }

    open spec fn from_spec(v: std::io::Error) -> DynHashError {
        DynHashError::StdIoError(v)
    }
}

} // verus!
