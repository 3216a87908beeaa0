//! The mathematical vocabulary used by the contracts: how a roster is read
//! as a sequence of names, partial assignments, and exclusion lists.

use vstd::prelude::*;

use crate::participant::Participant;

verus! {

/// A list of names, read as the sequence of their character sequences.
pub open spec fn view_of_names(v: Seq<String>) -> Seq<Seq<char>> {
    v.map_values(|s: String| s@)
}

/// The name of the participant at position `i`.
pub open spec fn pname(r: Seq<Participant>, i: int) -> Seq<char> {
    r[i].name@
}

/// The recipient recorded for the participant at position `i`, if any.
pub open spec fn giving(r: Seq<Participant>, i: int) -> Option<Seq<char>> {
    match r[i].giving_to {
        Some(t) => Some(t@),
        None => None,
    }
}

/// The giver recorded for the participant at position `i`, if any.
pub open spec fn receiving(r: Seq<Participant>, i: int) -> Option<Seq<char>> {
    match r[i].receiving_from {
        Some(t) => Some(t@),
        None => None,
    }
}

/// The name the participant at position `j` receives from;
/// meaningful only when `receiving(r, j)` is set.
pub open spec fn recv_name(r: Seq<Participant>, j: int) -> Seq<char> {
    match r[j].receiving_from {
        Some(t) => t@,
        None => Seq::empty(),
    }
}

/// The exclusion list of the participant at position `i`.
pub open spec fn excluded(r: Seq<Participant>, i: int) -> Seq<Seq<char>> {
    view_of_names(r[i].excluding@)
}

/// Participant `i` is recorded as giving to participant `j`.
pub open spec fn gives(r: Seq<Participant>, i: int, j: int) -> bool {
    giving(r, i) == Some(pname(r, j))
}

/// Some participant of `r` is recorded as giving to participant `j`.
pub open spec fn has_giver(r: Seq<Participant>, j: int) -> bool {
    exists|i: int| 0 <= i < r.len() && gives(r, i, j)
}

/// Participant `i` is recorded as giving to some participant of `r`.
pub open spec fn gives_within(r: Seq<Participant>, i: int) -> bool {
    exists|j: int| 0 <= j < r.len() && gives(r, i, j)
}

/// No two participants of the roster share a name.
pub open spec fn names_distinct(r: Seq<Participant>) -> bool {
    forall|i: int, j: int|
        0 <= i < j < r.len() ==> #[trigger] pname(r, i) != #[trigger] pname(r, j)
}

/// What a successfully returned roster `out` promises about the input
/// roster `r`: the same participants in the same positions, `giving_to`
/// a derangement of the names that honors the supplied exclusions and
/// never pairs two participants with each other, `receiving_from` its
/// inverse, every participant drawn, and each exclusion list extended
/// by exactly the name of the participant's giver.
pub open spec fn valid_assignment(r: Seq<Participant>, out: Seq<Participant>) -> bool {
    &&& out.len() == r.len()
    // the participants and their positions are those of the input roster
    &&& forall|i: int| 0 <= i < out.len() ==> #[trigger] pname(out, i) == pname(r, i)
    // everyone gives, and gives to a participant of the roster
    &&& forall|i: int| 0 <= i < out.len() ==> (#[trigger] giving(out, i)) is Some
    &&& forall|i: int| 0 <= i < out.len() ==> #[trigger] gives_within(out, i)
    // everyone receives, from a participant of the roster
    &&& forall|j: int| 0 <= j < out.len() ==> (#[trigger] receiving(out, j)) is Some
    &&& forall|j: int| 0 <= j < out.len() ==> #[trigger] has_giver(out, j)
    // giving and receiving record the same pairs
    &&& forall|i: int, j: int|
            0 <= i < out.len() && 0 <= j < out.len() ==> (#[trigger] gives(out, i, j)
                <==> receiving(out, j) == Some(pname(out, i)))
    // no one gives to themself
    &&& forall|i: int| 0 <= i < out.len() ==> #[trigger] giving(out, i) != Some(pname(out, i))
    // no two participants give to the same recipient
    &&& forall|i: int, j: int|
            0 <= i < out.len() && 0 <= j < out.len() && i != j ==> #[trigger] giving(out, i)
                != #[trigger] giving(out, j)
    // the exclusions supplied with the input roster are honored
    &&& forall|i: int, j: int|
            0 <= i < out.len() && 0 <= j < out.len() && #[trigger] gives(out, i, j)
                ==> !excluded(r, i).contains(pname(out, j))
    // no two participants give to each other
    &&& forall|i: int, j: int|
            0 <= i < out.len() && 0 <= j < out.len() && #[trigger] gives(out, i, j) ==> !gives(
                out,
                j,
                i,
            )
    // everyone has been drawn as a recipient
    &&& forall|j: int| 0 <= j < out.len() ==> #[trigger] is_drawn(out, j)
    // each exclusion list is the supplied one extended with the giver's name
    &&& forall|j: int|
            0 <= j < out.len() ==> #[trigger] excluded(out, j) == excluded(r, j).push(
                recv_name(out, j),
            )
}

/// The participant at position `j` has been claimed as a recipient.
pub open spec fn is_drawn(r: Seq<Participant>, j: int) -> bool {
    r[j].drawn
}

/// The participant at position `i` carries no assignment state and no
/// exclusions.
pub open spec fn unassigned_at(r: Seq<Participant>, i: int) -> bool {
    &&& giving(r, i) is None
    &&& receiving(r, i) is None
    &&& !is_drawn(r, i)
    &&& excluded(r, i).len() == 0
}

/// Every participant of the roster still has its assignment fields
/// unset and an empty exclusion list: a roster as callers are asked to
/// hand it in, before any pass has run and with nobody excluding anyone.
pub open spec fn reset_no_exclusions(r: Seq<Participant>) -> bool {
    forall|i: int| 0 <= i < r.len() ==> #[trigger] unassigned_at(r, i)
}

/// The rosters on which a pass succeeds whatever orders the random
/// shuffles return: the empty roster, and a reset roster of exactly
/// three participants with no exclusions. (With one or two participants
/// no valid assignment exists at all, and from four participants up a
/// pass can paint itself into a corner, so that only the retry loop's
/// odds remain.)
pub open spec fn always_assignable(r: Seq<Participant>) -> bool {
    ||| r.len() == 0
    ||| r.len() == 3 && reset_no_exclusions(r)
}

/// What holds of the working roster `w` after the first `g` givers of a
/// pass have been paired: positions `0..g` give, positions `g..` do not,
/// and every pair recorded so far already satisfies the promises of
/// `valid_assignment`, with `receiving_from`, `drawn` and the extended
/// exclusion lists kept in step with `giving_to`.
pub(crate) open spec fn pass_inv(r: Seq<Participant>, w: Seq<Participant>, g: int) -> bool {
    &&& w.len() == r.len()
    &&& forall|i: int| 0 <= i < w.len() ==> #[trigger] pname(w, i) == pname(r, i)
    &&& forall|i: int| 0 <= i < g ==> (#[trigger] giving(w, i)) is Some
    &&& forall|i: int| g <= i < w.len() ==> (#[trigger] giving(w, i)) is None
    &&& forall|i: int|
            0 <= i < w.len() && (#[trigger] giving(w, i)) is Some ==> gives_within(w, i)
    &&& forall|j: int|
            0 <= j < w.len() && (#[trigger] receiving(w, j)) is Some ==> has_giver(w, j)
    &&& forall|i: int, j: int|
            0 <= i < w.len() && 0 <= j < w.len() ==> (#[trigger] gives(w, i, j) <==> receiving(
                w,
                j,
            ) == Some(pname(w, i)))
    &&& forall|i: int| 0 <= i < w.len() ==> #[trigger] giving(w, i) != Some(pname(w, i))
    &&& forall|i: int, j: int|
            0 <= i < w.len() && 0 <= j < w.len() && i != j && (#[trigger] giving(w, i)) is Some
                && (#[trigger] giving(w, j)) is Some ==> giving(w, i) != giving(w, j)
    &&& forall|i: int, j: int|
            0 <= i < w.len() && 0 <= j < w.len() && #[trigger] gives(w, i, j) ==> !excluded(
                r,
                i,
            ).contains(pname(w, j))
    &&& forall|i: int, j: int|
            0 <= i < w.len() && 0 <= j < w.len() && #[trigger] gives(w, i, j) ==> !gives(w, j, i)
    &&& forall|j: int|
            0 <= j < w.len() ==> (#[trigger] is_drawn(w, j) <==> receiving(w, j) is Some)
    &&& forall|j: int|
            0 <= j < w.len() ==> #[trigger] excluded(w, j) == if receiving(w, j) is Some {
                excluded(r, j).push(recv_name(w, j))
            } else {
                excluded(r, j)
            }
}

} // verus!
