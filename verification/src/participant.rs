//! Participants and the constraint check that decides whether one may
//! give to another.

use vstd::prelude::*;

use crate::model::view_of_names;

verus! {

/// One person in a gift exchange: their name, their current assignment
/// state, and the set of names they refuse to give to.
#[derive(Debug, Clone, Default, PartialEq)]
pub struct Participant {
    pub name: String,
    pub giving_to: Option<String>,
    pub receiving_from: Option<String>,
    pub excluding: Vec<String>,
    pub drawn: bool,
}

/// Everything that can go wrong while pairing givers with recipients.
/// The constraint violations are handled inside the assignment engine;
/// only `AssignmentExhausted` ever reaches a caller.
#[derive(Debug, Clone, PartialEq)]
pub enum SecretSatanError {
    ParticipantAlreadyDrawn,
    ParticipantDoesNotExist,
    ParticipantAlreadyGivingToSomeone,
    ParticipantAlreadyReceivingFromSomeone,
    ParticipantCannotGiveToThemself,
    ParticipantCannotReceiveFromThemself,
    ParticipantCannotGiveToSomeoneTheyAreReceivingFrom,
    ParticipantCannotReceiveFromSomeoneTheyAreGivingTo,
    ParticipantCannotGiveToSomeoneTheyAreExcluding,
    ParticipantCannotReceiveFromSomeoneTheyAreExcluding,
    AssignmentExhausted,
}

/// The outcome of the constraint check `giver may give to recipient`,
/// with the individual checks applied in a fixed order, so that the
/// first failing check decides the error.
pub open spec fn spec_validate(giver: Participant, recipient: Participant) -> Result<
    (),
    SecretSatanError,
> {
    if giver.name@ == recipient.name@ {
        Err(SecretSatanError::ParticipantCannotGiveToThemself)
    } else if giver.giving_to is Some {
        Err(SecretSatanError::ParticipantAlreadyGivingToSomeone)
    } else if recipient.receiving_from is Some {
        Err(SecretSatanError::ParticipantAlreadyReceivingFromSomeone)
    } else if giver.receiving_from matches Some(n) && n@ == recipient.name@ {
        Err(SecretSatanError::ParticipantCannotGiveToSomeoneTheyAreReceivingFrom)
    } else if view_of_names(giver.excluding@).contains(recipient.name@) {
        Err(SecretSatanError::ParticipantCannotGiveToSomeoneTheyAreExcluding)
    } else if recipient.drawn {
        Err(SecretSatanError::ParticipantAlreadyDrawn)
    } else {
        Ok(())
    }
}

impl Participant {
    /// A fresh participant with no assignment and no exclusions.
    pub fn new(name: String) -> (p: Participant)
        ensures
            p.name == name,
            p.giving_to is None,
            p.receiving_from is None,
            p.excluding@.len() == 0,
            !p.drawn,
    {
        Participant {
            name,
            giving_to: None,
            receiving_from: None,
            excluding: Vec::new(),
            drawn: false,
        }
    }

    /// Decides whether `self` may give to `recipient`, given the current
    /// partial assignment state of both. A pure check with no side effects:
    /// the result is a function of the two participant snapshots alone.
    pub fn validate_giving_to(&self, recipient: &Participant) -> (r: Result<(), SecretSatanError>)
        ensures
            r == spec_validate(*self, *recipient),
    {
        // Cannot give to yourself
        if self.name == recipient.name {
            return Err(SecretSatanError::ParticipantCannotGiveToThemself);
        }
        // Cannot give twice
        if self.giving_to.is_some() {
            return Err(SecretSatanError::ParticipantAlreadyGivingToSomeone);
        }
        // Cannot give to someone who is already receiving a gift
        if recipient.receiving_from.is_some() {
            return Err(SecretSatanError::ParticipantAlreadyReceivingFromSomeone);
        }
        // Cannot give to someone who is giving to you
        match &self.receiving_from {
            Some(n) => {
                if *n == recipient.name {
                    return Err(SecretSatanError::ParticipantCannotGiveToSomeoneTheyAreReceivingFrom);
                }
            },
            None => {},
        }
        // Cannot give to someone you've excluded
        if excludes_name(&self.excluding, &recipient.name) {
            return Err(SecretSatanError::ParticipantCannotGiveToSomeoneTheyAreExcluding);
        }
        // Cannot give to someone who has already been drawn
        if recipient.drawn {
            return Err(SecretSatanError::ParticipantAlreadyDrawn);
        }
        Ok(())
    }
}

/// Whether `target` occurs in the given list of names.
fn excludes_name(list: &Vec<String>, target: &String) -> (b: bool)
    ensures
        b == view_of_names(list@).contains(target@),
{
    let n = list.len();
    let mut k: usize = 0;
    while k < n
        invariant
            n == list@.len(),
            k <= n,
            forall|t: int| 0 <= t < k ==> view_of_names(list@)[t] != target@,
        decreases n - k,
    {
        if list[k] == *target {
            assert(view_of_names(list@)[k as int] == target@);
            return true;
        }
        k += 1;
    }
    assert(forall|t: int| 0 <= t < list@.len() ==> view_of_names(list@)[t] != target@);
    false
}

} // verus!
