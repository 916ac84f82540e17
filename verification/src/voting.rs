//! The decision core of a voting service: given a vote value and the voted
//! URL, either a confirmation message or a rejection.
//!
//! A transport in front of it turns wire requests into the plain values
//! taken here and the result back into responses.

use vstd::prelude::*;
use vstd::string::StringExecFns;

verus! {

/// Why a vote was rejected.
#[derive(Clone, Copy, Debug, PartialEq, Eq, Structural)]
pub enum VoteError {
    /// The vote value is neither an upvote (0) nor a downvote (1).
    OutOfRange,
}

impl VoteError {
    /// The wording the service reports for this rejection.
    pub fn message(&self) -> (r: &'static str)
        ensures
            r@ == "Invalid vote provided"@,
    {
        "Invalid vote provided"
    }
}

/// The voting service.  It keeps no state: each vote is judged on its own.
#[derive(Debug)]
pub struct VotingService {}

impl VotingService {
    /// A fresh service.
    pub fn new() -> (s: VotingService) {
        VotingService {  }
    }

    /// Judges one vote: `0` confirms an upvote for `url`, `1` a downvote,
    /// and anything else is rejected as out of range.
    pub fn vote(&self, vote: i32, url: &str) -> (r: Result<String, VoteError>)
        ensures
            vote == 0 ==> (r matches Ok(msg) && msg@ == "Happy to confirm that you upvoted for "@
                + url@),
            vote == 1 ==> (r matches Ok(msg) && msg@ == "Happy to confirm that you downvoted for "@
                + url@),
            !(vote == 0 || vote == 1) ==> r == Err::<String, VoteError>(VoteError::OutOfRange),
    {
        match vote {
            0 => {
                let mut msg = "Happy to confirm that you upvoted for ".to_owned();
                msg.append(url);
                Ok(msg)
            },
            1 => {
                let mut msg = "Happy to confirm that you downvoted for ".to_owned();
                msg.append(url);
                Ok(msg)
            },
            _ => Err(VoteError::OutOfRange),
        }
    }
}

impl Default for VotingService {
    /// The same service `VotingService::new` builds.
    fn default() -> (s: VotingService)
        ensures
            s == (VotingService {  }),
    {
        VotingService {  }
    }
}

} // verus!
