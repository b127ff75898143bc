//! The error of a request for peers.

use vstd::prelude::*;

verus! {

/// An error met while looking for the peers in a cluster.
#[derive(Debug)]
pub struct GetPeersError(pub String);

impl GetPeersError {
    /// The error as it is shown to people.
    pub fn message(&self) -> (text: String)
        ensures
            text@ == "Failed to get peers due to error: "@ + self.0@,
    {
        let mut text = String::from_str("Failed to get peers due to error: ");
        text.append(self.0.as_str());
        text
    }
}

/// An error is shown with its cause behind what failed.
pub proof fn law_message(error: GetPeersError, text: String)
    requires
        call_ensures(GetPeersError::message, (&error,), text),
    ensures
        text@ == "Failed to get peers due to error: "@ + error.0@,
{
}

} // verus!
