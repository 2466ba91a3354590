use vstd::prelude::*;

verus! {

/// The closed set of failure kinds this framework reports.  Server-side
/// kinds travel on the wire in a reply header's `error` field; the
/// client-local kind `ClientNotAvailableError` is raised directly to the
/// caller and never framed.
#[derive(Debug)]
pub enum Error {
    /// The addressed service has no method of the requested name.
    NoSuchMethodError,
    /// The client refused to register a call: it is closing or shut down.
    ClientNotAvailableError,
    /// The request body did not decode into the method's argument tuple;
    /// the detail names the method and the expected argument types.
    ArgumentsNotMatchError(String),
    /// A transport-level read or write failed.
    SystemIOError(),
    /// Any unclassified failure, with a short description.
    OtherError(String),
}

impl Clone for Error {
    fn clone(&self) -> (r: Self)
        ensures
            r == *self,
    {
        match self {
            Error::NoSuchMethodError => Error::NoSuchMethodError,
            Error::ClientNotAvailableError => Error::ClientNotAvailableError,
            Error::ArgumentsNotMatchError(d) => Error::ArgumentsNotMatchError(d.clone()),
            Error::SystemIOError() => Error::SystemIOError(),
            Error::OtherError(d) => Error::OtherError(d.clone()),
        }
    }
}

impl Error {
    /// A short human-readable description, in place of a `Display` impl.
    pub fn describe(&self) -> (r: String)
        ensures
            r@.len() > 0,
    {
        let r = match self {
            Error::NoSuchMethodError => "SRPC inner error occurred: NoSuchMethodError",
            Error::ClientNotAvailableError => "SRPC inner error occurred: ClientNotAvailableError",
            Error::ArgumentsNotMatchError(_) => "SRPC inner error occurred: ArgumentsNotMatchError",
            Error::SystemIOError() => "SRPC inner error occurred: SystemIOError",
            Error::OtherError(_) => "SRPC inner error occurred: OtherError",
        };
        proof {
            reveal_strlit("SRPC inner error occurred: NoSuchMethodError");
            reveal_strlit("SRPC inner error occurred: ClientNotAvailableError");
            reveal_strlit("SRPC inner error occurred: ArgumentsNotMatchError");
            reveal_strlit("SRPC inner error occurred: SystemIOError");
            reveal_strlit("SRPC inner error occurred: OtherError");
        }
        r.to_owned()
    }
}

} // verus!
