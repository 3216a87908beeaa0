//! Properties of the assignment model that hold of every roster.

use vstd::prelude::*;

use crate::model::{gives, gives_within, giving, pname, valid_assignment};
use crate::participant::Participant;

verus! {

/// A roster of one or two participants admits no valid assignment at
/// all: a single participant could only give to themself, and a pair
/// could only give to each other, both of which `valid_assignment`
/// rules out. Since the engine only ever returns rosters that satisfy
/// `valid_assignment`, a run on such a roster always reports failure.
pub proof fn lemma_tiny_roster_infeasible(r: Seq<Participant>, out: Seq<Participant>)
    requires
        1 <= r.len() <= 2,
    ensures
        !valid_assignment(r, out),
{
    if valid_assignment(r, out) {
        assert(gives_within(out, 0));
        let j = choose|j: int| 0 <= j < out.len() && gives(out, 0, j);
        if j == 0 {
            // a self-gift
            assert(giving(out, 0) != Some(pname(out, 0)));
            assert(false);
        }
        assert(j == 1);
        assert(gives_within(out, 1));
        let j1 = choose|j: int| 0 <= j < out.len() && gives(out, 1, j);
        if j1 == 1 {
            // a self-gift
            assert(giving(out, 1) != Some(pname(out, 1)));
            assert(false);
        }
        assert(j1 == 0);
        // the pair would give to each other
        assert(gives(out, 0, 1));
        assert(!gives(out, 1, 0));
        assert(false);
    }
}

} // verus!
