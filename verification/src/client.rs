//! Errors that the wallet client reports to its callers.

use vstd::prelude::*;
use vstd::string::StringExecFns;

verus! {

/// Why a request to the wallet client failed.
#[derive(Debug, Clone)]
pub enum RpcError {
    /// The client answered with a response that does not fit the request.
    InvalidResponse,
    /// The client has stopped; the payload says why.
    ClientStopped(String),
}

impl RpcError {
    /// The text shown for the error. The reason carried by `ClientStopped`
    /// is kept for the log and is not part of the text.
    pub open spec fn text(self) -> Seq<char> {
        match self {
            RpcError::InvalidResponse => "Invalid response"@,
            RpcError::ClientStopped(_) => "Client stopped"@,
        }
    }

    /// The reason why the client stopped, if it did.
    pub open spec fn reason(self) -> Option<Seq<char>> {
        match self {
            RpcError::InvalidResponse => None,
            RpcError::ClientStopped(why) => Some(why@),
        }
    }

    /// The error for a client that stopped for the given reason.
    pub fn client_stopped(why: String) -> (r: RpcError)
        ensures
            r.reason() == Some(why@),
            r.text() == "Client stopped"@,
    {
        RpcError::ClientStopped(why)
    }

    /// The text shown for the error.
    pub fn message(&self) -> (r: String)
        ensures
            r@ == self.text(),
    {
        match self {
            RpcError::InvalidResponse => String::from_str("Invalid response"),
            RpcError::ClientStopped(_) => String::from_str("Client stopped"),
        }
    }
}

} // verus!
