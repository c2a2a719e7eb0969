//! The state a front end keeps between interactions: the roster being
//! edited, the search text, and the pairs already drawn. The default state
//! starts from a generated roster of fifty participants.

use vstd::prelude::*;

verus! {

use vstd::string::StringExecFns;
use crate::participant::Participant;
use crate::participant::generate_participants;
use crate::participant::participant_name;

/// Front-end session state.
pub struct SecretSanta {
    pub searched_participant: String,
    pub participants: Vec<Participant>,
    pub exclusions: Vec<(Participant, Participant)>,
}

impl Default for SecretSanta {
    /// A fresh session: empty search text, no pairs drawn yet, and a roster
    /// of fifty numbered participants.
    fn default() -> (s: Self)
        ensures
            s.searched_participant@ == Seq::<char>::empty(),
            s.participants@.len() == 50,
            forall|i: int|
                0 <= i < 50 ==> s.participants@[i].name@ == participant_name((i + 1) as nat),
            s.exclusions@.len() == 0,
    {
        let searched_participant = String::from_str("");
        proof {
            reveal_strlit("");
            assert(searched_participant@ =~= Seq::<char>::empty());
        }
        SecretSanta {
            searched_participant,
            participants: generate_participants(50),
            exclusions: Vec::new(),
        }
    }
}

} // verus!
