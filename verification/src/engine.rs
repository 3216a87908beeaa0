//! The assignment engine: one stateless pass pairs the givers of a roster
//! in order, each with the first acceptable candidate of a freshly
//! shuffled ordering; a failed pass is retried from scratch, a bounded
//! number of times.

use vstd::prelude::*;
use vstd::pervasive::VecAdditionalExecFns;

use crate::model::{
    always_assignable, excluded, gives, gives_within, giving, has_giver, is_drawn, names_distinct,
    pass_inv, pname, receiving, recv_name, reset_no_exclusions, unassigned_at, valid_assignment,
};
use crate::laws::lemma_tiny_roster_infeasible;
use crate::participant::{spec_validate, Participant, SecretSatanError};

verus! {

/// The roster of one gift exchange: the owned collection of participants.
#[derive(Debug, Clone, Default, PartialEq)]
pub struct SecretSatan {
    pub participants: Vec<Participant>,
}

/// How many full passes the engine attempts before reporting exhaustion.
const MAX_ASSIGNMENT_ATTEMPTS: usize = 64;

impl SecretSatan {
    /// An empty roster.
    pub fn new() -> (s: SecretSatan)
        ensures
            s.participants@.len() == 0,
    {
        SecretSatan { participants: Vec::new() }
    }

    /// Appends one participant to the roster.
    pub fn add_participant(&mut self, participant: Participant)
        ensures
            final(self).participants@ == old(self).participants@.push(participant),
    {
        self.participants.push(participant);
    }

    /// Computes one full assignment for the roster, or reports failure.
    ///
    /// Each attempt is a fresh pass over the roster; the only variety
    /// between attempts is the random order in which candidates are
    /// offered. A returned roster always satisfies `valid_assignment`
    /// against the input; the engine never returns a partial assignment,
    /// and the only error that reaches the caller is exhaustion of the
    /// retry budget. Where the randomness does not decide, the outcome
    /// is owed: the engine succeeds on every roster that is
    /// `always_assignable` (the empty roster, and a reset roster of
    /// three participants without exclusions), and it always reports
    /// failure, after its fixed number of passes, on a roster of one or
    /// two participants, which admits no valid assignment at all. On
    /// larger rosters success depends on the shuffles. Name uniqueness
    /// is assumed, not enforced.
    pub fn assign_participants(self) -> (r: Result<Vec<Participant>, SecretSatanError>)
        requires
            names_distinct(self.participants@),
        ensures
            r matches Ok(out) ==> valid_assignment(self.participants@, out@),
            r matches Err(e) ==> e == SecretSatanError::AssignmentExhausted,
            always_assignable(self.participants@) ==> r is Ok,
            1 <= self.participants@.len() <= 2 ==> r is Err,
    {
        let mut attempt: usize = 0;
        while attempt < MAX_ASSIGNMENT_ATTEMPTS
            invariant
                names_distinct(self.participants@),
                attempt > 0 ==> !always_assignable(self.participants@),
            decreases MAX_ASSIGNMENT_ATTEMPTS - attempt,
        {
            match attempt_assignment(&self.participants) {
                Some(assigned) => {
                    proof {
                        if 1 <= self.participants@.len() <= 2 {
                            lemma_tiny_roster_infeasible(self.participants@, assigned@);
                        }
                    }
                    return Ok(assigned);
                },
                None => {
                    proof {
                        // a failed pass refutes the rosters on which
                        // every pass succeeds
                        assert(!always_assignable(self.participants@));
                    }
                    attempt += 1;
                },
            }
        }
        Err(SecretSatanError::AssignmentExhausted)
    }
}

/// One full pass: reset every participant, then pair the givers in roster
/// order, each with the first candidate of a fresh random ordering that
/// the constraint check accepts. Returns the completed roster, or `None`
/// as soon as one giver runs out of candidates; a failed pass leaves no
/// trace, the caller retries from the supplied roster. On the rosters
/// where no shuffle outcome can derail a pass, the pass succeeds.
fn attempt_assignment(roster: &Vec<Participant>) -> (r: Option<Vec<Participant>>)
    requires
        names_distinct(roster@),
    ensures
        r matches Some(out) ==> valid_assignment(roster@, out@),
        always_assignable(roster@) ==> r is Some,
{
    let n = roster.len();
    let mut working: Vec<Participant> = Vec::new();
    let mut k: usize = 0;
    while k < n
        invariant
            n == roster@.len(),
            k <= n,
            working@.len() == k,
            forall|i: int| 0 <= i < k ==> #[trigger] pname(working@, i) == pname(roster@, i),
            forall|i: int| 0 <= i < k ==> (#[trigger] giving(working@, i)) is None,
            forall|i: int| 0 <= i < k ==> (#[trigger] receiving(working@, i)) is None,
            forall|i: int| 0 <= i < k ==> !(#[trigger] is_drawn(working@, i)),
            forall|i: int|
                0 <= i < k ==> #[trigger] excluded(working@, i) == excluded(roster@, i),
        decreases n - k,
    {
        let ghost prev = working@;
        let p = reset_participant(&roster[k]);
        working.push(p);
        proof {
            assert(working@[k as int] == p);
            assert forall|i: int| 0 <= i <= k implies #[trigger] pname(working@, i) == pname(
                roster@,
                i,
            ) by {
                if i < k {
                    assert(working@[i] == prev[i]);
                    assert(pname(prev, i) == pname(roster@, i));
                }
            }
            assert forall|i: int| 0 <= i <= k implies (#[trigger] giving(working@, i)) is None by {
                if i < k {
                    assert(working@[i] == prev[i]);
                    assert(giving(prev, i) is None);
                }
            }
            assert forall|i: int| 0 <= i <= k implies (#[trigger] receiving(working@, i))
                is None by {
                if i < k {
                    assert(working@[i] == prev[i]);
                    assert(receiving(prev, i) is None);
                }
            }
            assert forall|i: int| 0 <= i <= k implies !(#[trigger] is_drawn(working@, i)) by {
                if i < k {
                    assert(working@[i] == prev[i]);
                    assert(!is_drawn(prev, i));
                }
            }
            assert forall|i: int| 0 <= i <= k implies #[trigger] excluded(working@, i) == excluded(
                roster@,
                i,
            ) by {
                if i < k {
                    assert(working@[i] == prev[i]);
                    assert(excluded(prev, i) == excluded(roster@, i));
                }
            }
        }
        k += 1;
    }
    assert(pass_inv(roster@, working@, 0));
    let mut g: usize = 0;
    while g < n
        invariant
            n == roster@.len(),
            g <= n,
            working@.len() == n,
            names_distinct(roster@),
            pass_inv(roster@, working@, g as int),
        decreases n - g,
    {
        let order = shuffled_positions(n);
        match find_recipient(&working, g, &order) {
            Some(c) => {
                let ghost w1 = working@;
                assert(pname(w1, g as int) != pname(w1, c as int));
                assert(c != g);
                let new_giver = Participant {
                    name: working[g].name.clone(),
                    giving_to: Some(working[c].name.clone()),
                    receiving_from: clone_opt_name(&working[g].receiving_from),
                    excluding: clone_names(&working[g].excluding),
                    drawn: working[g].drawn,
                };
                let giver_name_for_list = working[g].name.clone();
                let giver_name_for_pair = working[g].name.clone();
                working.set(g, new_giver);
                let mut new_excluding = clone_names(&working[c].excluding);
                new_excluding.push(giver_name_for_list);
                let new_recipient = Participant {
                    name: working[c].name.clone(),
                    giving_to: clone_opt_name(&working[c].giving_to),
                    receiving_from: Some(giver_name_for_pair),
                    excluding: new_excluding,
                    drawn: true,
                };
                working.set(c, new_recipient);
                proof {
                    assert(excluded(working@, c as int) =~= excluded(w1, c as int).push(
                        pname(w1, g as int),
                    ));
                    lemma_commit_preserves_inv(roster@, w1, working@, g as int, c as int);
                }
            },
            None => {
                proof {
                    // on a reset three-participant roster without
                    // exclusions a valid candidate exists and was in the
                    // shuffled order, so the scan cannot have failed
                    if roster@.len() == 3 && reset_no_exclusions(roster@) {
                        lemma_three_fresh_has_candidate(roster@, working@, g as int);
                        let c = choose|c: int|
                            0 <= c < 3 && spec_validate(working@[g as int], working@[c]) == Ok::<
                                (),
                                SecretSatanError,
                            >(());
                        assert(order@.contains(c as usize));
                        let k = choose|k: int| 0 <= k < order@.len() && order@[k] == c as usize;
                        assert(rejected_at(working@, g as int, order@, k));
                        assert(false);
                    }
                }
                return None;
            },
        }
        g += 1;
    }
    proof {
        lemma_pass_complete(roster@, working@);
    }
    Some(working)
}

/// The participant as it enters a fresh pass: assignment state cleared,
/// exclusions exactly as supplied with the roster.
fn reset_participant(p: &Participant) -> (r: Participant)
    ensures
        r.name == p.name,
        r.giving_to is None,
        r.receiving_from is None,
        r.excluding@ == p.excluding@,
        !r.drawn,
{
    Participant {
        name: p.name.clone(),
        giving_to: None,
        receiving_from: None,
        excluding: clone_names(&p.excluding),
        drawn: false,
    }
}

/// An owned copy of a list of names.
fn clone_names(list: &Vec<String>) -> (r: Vec<String>)
    ensures
        r@ == list@,
{
    let n = list.len();
    let mut r: Vec<String> = Vec::new();
    let mut k: usize = 0;
    while k < n
        invariant
            n == list@.len(),
            k <= n,
            r@.len() == k,
            forall|t: int| 0 <= t < k ==> r@[t] == list@[t],
        decreases n - k,
    {
        r.push(list[k].clone());
        k += 1;
    }
    assert(r@ =~= list@);
    r
}

/// An owned copy of an optional name.
fn clone_opt_name(o: &Option<String>) -> (r: Option<String>)
    ensures
        r == *o,
{
    match o {
        Some(n) => Some(n.clone()),
        None => None,
    }
}

/// The candidate positions `0`, `1`, ... up to `n`, each once, in place.
pub(crate) open spec fn position_range(n: nat) -> Seq<usize> {
    Seq::new(n, |i: int| i as usize)
}

/// A uniformly shuffled ordering of the candidate positions `0..n`:
/// a permutation, so every position occurs in it.
fn shuffled_positions(n: usize) -> (order: Vec<usize>)
    ensures
        order@.len() == n,
        forall|t: int| 0 <= t < order@.len() ==> order@[t] < n,
        order@.to_multiset() == position_range(n as nat).to_multiset(),
        forall|v: usize| v < n ==> order@.contains(v),
{
    let mut order: Vec<usize> = Vec::new();
    let mut k: usize = 0;
    while k < n
        invariant
            k <= n,
            order@.len() == k,
            forall|t: int| 0 <= t < k ==> order@[t] == t,
        decreases n - k,
    {
        order.push(k);
        k += 1;
    }
    assert(order@ =~= position_range(n as nat));
    let ghost before = order@;
    shuffle_order(&mut order);
    proof {
        lemma_permuted_positions_bounded(before, order@, n);
    }
    order
}

/// Relies on `rand::seq::SliceRandom::shuffle` with `rand::thread_rng`:
/// the slice is permuted in place by element swaps, so the multiset of
/// its elements is unchanged. Nothing is assumed about the resulting
/// order.
#[verifier::external_body]
fn shuffle_order(order: &mut Vec<usize>)
    ensures
        final(order)@.to_multiset() == old(order)@.to_multiset(),
{
    rand::seq::SliceRandom::shuffle(order.as_mut_slice(), &mut rand::thread_rng())
}

/// After an in-place permutation of the positions `0..n`, the length is
/// still `n`, every element still lies below `n`, and every position
/// still occurs.
proof fn lemma_permuted_positions_bounded(before: Seq<usize>, after: Seq<usize>, n: usize)
    requires
        after.to_multiset() == before.to_multiset(),
        before.len() == n,
        forall|t: int| 0 <= t < before.len() ==> before[t] == t,
    ensures
        after.len() == n,
        forall|t: int| 0 <= t < after.len() ==> after[t] < n,
        forall|v: usize| v < n ==> after.contains(v),
{
    broadcast use vstd::seq_lib::group_to_multiset_ensures;

    assert(after.len() == after.to_multiset().len());
    assert(before.len() == before.to_multiset().len());
    assert forall|t: int| 0 <= t < after.len() implies after[t] < n by {
        assert(after.contains(after[t]));
        assert(after.to_multiset().count(after[t]) > 0);
        assert(before.to_multiset().count(after[t]) > 0);
        assert(before.contains(after[t]));
        let w = choose|w: int| 0 <= w < before.len() && before[w] == after[t];
        assert(before[w] == w);
    }
    assert forall|v: usize| v < n implies after.contains(v) by {
        assert(before[v as int] == v);
        assert(before.contains(v));
        assert(before.to_multiset().count(v) > 0);
        assert(after.to_multiset().count(v) > 0);
    }
}

/// The constraint check rejects the candidate at position `order[t]`
/// as a recipient for giver `g`.
spec fn rejected_at(w: Seq<Participant>, g: int, order: Seq<usize>, t: int) -> bool {
    spec_validate(w[g], w[order[t] as int]) is Err
}

/// Scans the candidate positions in the given order and returns the
/// first one that the constraint check accepts for giver `g`: every
/// candidate before it was rejected, and `None` means every candidate
/// of the ordering was.
fn find_recipient(working: &Vec<Participant>, g: usize, order: &Vec<usize>) -> (r: Option<usize>)
    requires
        g < working@.len(),
        forall|t: int| 0 <= t < order@.len() ==> order@[t] < working@.len(),
    ensures
        r matches Some(c) ==> c < working@.len() && spec_validate(
            working@[g as int],
            working@[c as int],
        ) == Ok::<(), SecretSatanError>(()) && exists|k: int|
            0 <= k < order@.len() && order@[k] == c && forall|t: int|
                0 <= t < k ==> #[trigger] rejected_at(working@, g as int, order@, t),
        r is None ==> forall|t: int|
            0 <= t < order@.len() ==> #[trigger] rejected_at(working@, g as int, order@, t),
{
    let n = order.len();
    let mut k: usize = 0;
    while k < n
        invariant
            n == order@.len(),
            k <= n,
            g < working@.len(),
            forall|t: int| 0 <= t < order@.len() ==> order@[t] < working@.len(),
            forall|t: int| 0 <= t < k ==> #[trigger] rejected_at(working@, g as int, order@, t),
        decreases n - k,
    {
        let cand = order[k];
        if working[g].validate_giving_to(&working[cand]).is_ok() {
            return Some(cand);
        }
        k += 1;
    }
    None
}

/// The single step of a pass: after giver `g` commits to recipient `c`,
/// the pass invariant advances from `g` to `g + 1`.
proof fn lemma_commit_preserves_inv(
    r: Seq<Participant>,
    w1: Seq<Participant>,
    w2: Seq<Participant>,
    g: int,
    c: int,
)
    requires
        names_distinct(r),
        pass_inv(r, w1, g),
        0 <= g < w1.len(),
        0 <= c < w1.len(),
        g != c,
        spec_validate(w1[g], w1[c]) == Ok::<(), SecretSatanError>(()),
        w2.len() == w1.len(),
        forall|i: int| 0 <= i < w1.len() && i != g && i != c ==> (#[trigger] w2[i]) == w1[i],
        pname(w2, g) == pname(w1, g),
        giving(w2, g) == Some(pname(w1, c)),
        receiving(w2, g) == receiving(w1, g),
        excluded(w2, g) == excluded(w1, g),
        is_drawn(w2, g) == is_drawn(w1, g),
        pname(w2, c) == pname(w1, c),
        giving(w2, c) == giving(w1, c),
        receiving(w2, c) == Some(pname(w1, g)),
        excluded(w2, c) == excluded(w1, c).push(pname(w1, g)),
        is_drawn(w2, c),
    ensures
        pass_inv(r, w2, g + 1),
{
    let n = w1.len() as int;
    // what the constraint check granted
    assert(pname(w1, g) != pname(w1, c));
    assert(giving(w1, g) is None);
    assert(receiving(w1, c) is None);
    assert(receiving(w1, g) != Some(pname(w1, c)));
    assert(!excluded(w1, g).contains(pname(w1, c)));
    // names are distinct within the working roster, before and after
    assert forall|i: int, j: int| 0 <= i < n && 0 <= j < n && i != j implies pname(w1, i)
        != pname(w1, j) by {
        if i < j {
            assert(pname(r, i) != pname(r, j));
        } else {
            assert(pname(r, j) != pname(r, i));
        }
    }
    assert forall|i: int| 0 <= i < n implies #[trigger] pname(w2, i) == pname(w1, i) by {
        if i != g && i != c {
            assert(w2[i] == w1[i]);
        }
    }
    // positions other than `g` and `c` are untouched
    assert forall|i: int| 0 <= i < n && i != g && i != c implies giving(w2, i) == giving(w1, i)
        && receiving(w2, i) == receiving(w1, i) && #[trigger] excluded(w2, i) == excluded(w1, i)
        && is_drawn(w2, i) == is_drawn(w1, i) && recv_name(w2, i) == recv_name(w1, i) by {
        assert(w2[i] == w1[i]);
    }
    // giver `g` gives only to `c`, and no one else newly gives at all
    assert forall|i: int, j: int| 0 <= i < n && 0 <= j < n && i != g implies (#[trigger] gives(
        w2,
        i,
        j,
    ) <==> gives(w1, i, j)) by {
        assert(giving(w2, i) == giving(w1, i));
        assert(pname(w2, j) == pname(w1, j));
    }
    assert forall|j: int| 0 <= j < n && j != c implies !#[trigger] gives(w2, g, j) by {
        assert(pname(w2, j) == pname(w1, j));
        assert(pname(w1, j) != pname(w1, c));
    }
    assert(gives(w2, g, c));

    // the clauses of the advanced invariant, in order
    assert forall|i: int| 0 <= i < g + 1 implies (#[trigger] giving(w2, i)) is Some by {
        if i != g {
            if i != c {
                assert(w2[i] == w1[i]);
            }
            assert(giving(w2, i) == giving(w1, i));
            assert(giving(w1, i) is Some);
        }
    }
    assert forall|i: int| g + 1 <= i < n implies (#[trigger] giving(w2, i)) is None by {
        if i != c {
            assert(w2[i] == w1[i]);
        }
        assert(giving(w2, i) == giving(w1, i));
        assert(giving(w1, i) is None);
    }
    assert forall|i: int| 0 <= i < n && (#[trigger] giving(w2, i)) is Some implies gives_within(
        w2,
        i,
    ) by {
        if i == g {
            assert(gives(w2, g, c));
        } else {
            assert(giving(w2, i) == giving(w1, i));
            assert(gives_within(w1, i));
            let j = choose|j: int| 0 <= j < n && gives(w1, i, j);
            assert(gives(w2, i, j));
        }
    }
    assert forall|j: int| 0 <= j < n && (#[trigger] receiving(w2, j)) is Some implies has_giver(
        w2,
        j,
    ) by {
        if j == c {
            assert(gives(w2, g, c));
        } else {
            assert(receiving(w2, j) == receiving(w1, j));
            assert(has_giver(w1, j));
            let i = choose|i: int| 0 <= i < n && gives(w1, i, j);
            assert(giving(w1, i) is Some);
            assert(i != g);
            assert(gives(w2, i, j));
        }
    }
    assert forall|i: int, j: int| 0 <= i < n && 0 <= j < n implies (#[trigger] gives(w2, i, j)
        <==> receiving(w2, j) == Some(pname(w2, i))) by {
        if j == c {
            // only the new pair ends at `c`
            if i == g {
                assert(gives(w2, g, c));
                assert(receiving(w2, c) == Some(pname(w2, g)));
            } else {
                assert(pname(w2, i) != pname(w2, g));
                if gives(w2, i, c) {
                    assert(gives(w1, i, c));
                    assert(receiving(w1, c) == Some(pname(w1, i)));
                    assert(false);
                }
            }
        } else {
            assert(receiving(w2, j) == receiving(w1, j));
            if i == g {
                assert(!gives(w2, g, j));
                if receiving(w1, j) == Some(pname(w1, g)) {
                    assert(gives(w1, g, j));
                    assert(giving(w1, g) is Some);
                    assert(false);
                }
            } else {
                assert(gives(w2, i, j) <==> gives(w1, i, j));
            }
        }
    }
    assert forall|i: int| 0 <= i < n implies #[trigger] giving(w2, i) != Some(pname(w2, i)) by {
        if i == g {
            assert(pname(w2, g) != pname(w1, c));
        } else {
            assert(giving(w2, i) == giving(w1, i));
        }
    }
    assert forall|i: int, j: int|
        0 <= i < n && 0 <= j < n && i != j && (#[trigger] giving(w2, i)) is Some && (#[trigger] giving(
            w2,
            j,
        )) is Some implies giving(w2, i) != giving(w2, j) by {
        if i == g {
            if giving(w2, j) == Some(pname(w1, c)) {
                assert(gives(w2, j, c));
                assert(gives(w1, j, c));
                assert(receiving(w1, c) == Some(pname(w1, j)));
                assert(false);
            }
        } else if j == g {
            if giving(w2, i) == Some(pname(w1, c)) {
                assert(gives(w2, i, c));
                assert(gives(w1, i, c));
                assert(receiving(w1, c) == Some(pname(w1, i)));
                assert(false);
            }
        } else {
            assert(giving(w2, i) == giving(w1, i));
            assert(giving(w2, j) == giving(w1, j));
        }
    }
    assert forall|i: int, j: int| 0 <= i < n && 0 <= j < n && #[trigger] gives(w2, i, j) implies
        !excluded(r, i).contains(pname(w2, j)) by {
        if i == g {
            assert(j == c);
            // the supplied exclusions of `g` sit unchanged at the front of
            // the working list the constraint check consulted
            assert(excluded(w1, g) == excluded(r, g) || excluded(w1, g) == excluded(r, g).push(
                recv_name(w1, g),
            ));
            if excluded(r, g).contains(pname(w1, c)) {
                let t = choose|t: int|
                    0 <= t < excluded(r, g).len() && excluded(r, g)[t] == pname(w1, c);
                assert(excluded(w1, g)[t] == pname(w1, c));
                assert(excluded(w1, g).contains(pname(w1, c)));
                assert(false);
            }
        } else {
            assert(gives(w1, i, j));
        }
    }
    assert forall|i: int, j: int| 0 <= i < n && 0 <= j < n && #[trigger] gives(w2, i, j) implies
        !gives(w2, j, i) by {
        if i == g {
            assert(j == c);
            if gives(w2, c, g) {
                assert(gives(w1, c, g));
                assert(receiving(w1, g) == Some(pname(w1, c)));
                assert(false);
            }
        } else if j == g {
            // `i` gave to `g` in an earlier step; `g` now gives to `c != i`
            assert(gives(w1, i, g));
            if gives(w2, g, i) {
                assert(i == c);
                assert(receiving(w1, g) == Some(pname(w1, c)));
                assert(false);
            }
        } else {
            assert(gives(w1, i, j));
            assert(!gives(w1, j, i));
            assert(gives(w2, j, i) <==> gives(w1, j, i));
        }
    }
    assert forall|j: int| 0 <= j < n implies (#[trigger] is_drawn(w2, j) <==> receiving(w2, j)
        is Some) by {
        if j != c {
            if j != g {
                assert(w2[j] == w1[j]);
            }
            assert(is_drawn(w2, j) == is_drawn(w1, j));
            assert(receiving(w2, j) == receiving(w1, j));
            assert(is_drawn(w1, j) <==> receiving(w1, j) is Some);
        }
    }
    assert forall|j: int| 0 <= j < n implies #[trigger] excluded(w2, j) == if receiving(w2, j)
        is Some {
        excluded(r, j).push(recv_name(w2, j))
    } else {
        excluded(r, j)
    } by {
        if j == c {
            assert(excluded(w1, c) == excluded(r, c));
            assert(recv_name(w2, c) == pname(w1, g));
        } else if j == g {
            assert(excluded(w2, g) == excluded(w1, g));
            assert(receiving(w2, g) == receiving(w1, g));
            assert(recv_name(w2, g) == recv_name(w1, g));
        } else {
            assert(w2[j] == w1[j]);
        }
    }
}

/// A pass that has paired every giver satisfies the full promise: with
/// as many distinct givers as distinct names, a `giving_to` relation
/// that is injective and stays within the roster must also reach every
/// name, so every participant receives.
proof fn lemma_pass_complete(r: Seq<Participant>, w: Seq<Participant>)
    requires
        names_distinct(r),
        pass_inv(r, w, r.len() as int),
    ensures
        valid_assignment(r, w),
{
    let n = w.len() as int;
    assert forall|i: int, j: int| 0 <= i < n && 0 <= j < n && i != j implies pname(w, i) != pname(
        w,
        j,
    ) by {
        if i < j {
            assert(pname(r, i) != pname(r, j));
        } else {
            assert(pname(r, j) != pname(r, i));
        }
    }
    let tseq = Seq::new(n as nat, |i: int| give_name(w, i));
    let nseq = Seq::new(n as nat, |i: int| pname(w, i));
    assert(tseq.no_duplicates()) by {
        assert forall|i: int, j: int| 0 <= i < n && 0 <= j < n && i != j implies tseq[i]
            != tseq[j] by {
            assert(giving(w, i) is Some);
            assert(giving(w, j) is Some);
            assert(giving(w, i) == Some(give_name(w, i)));
            assert(giving(w, j) == Some(give_name(w, j)));
            assert(giving(w, i) != giving(w, j));
        }
    }
    assert(nseq.no_duplicates());
    tseq.unique_seq_to_set();
    nseq.unique_seq_to_set();
    broadcast use vstd::seq_lib::seq_to_set_is_finite;

    assert(tseq.to_set().subset_of(nseq.to_set())) by {
        assert forall|x: Seq<char>| tseq.to_set().contains(x) implies nseq.to_set().contains(
            x,
        ) by {
            let i = choose|i: int| 0 <= i < tseq.len() && tseq[i] == x;
            assert(giving(w, i) is Some);
            assert(gives_within(w, i));
            let j = choose|j: int| 0 <= j < n && gives(w, i, j);
            assert(giving(w, i) == Some(pname(w, j)));
            assert(give_name(w, i) == pname(w, j));
            assert(nseq[j] == x);
        }
    }
    assert forall|j: int| 0 <= j < n implies #[trigger] has_giver(w, j) by {
        if !tseq.to_set().contains(pname(w, j)) {
            assert(nseq.to_set().contains(nseq[j]));
            tseq.to_set().lemma_subset_not_in_lt(nseq.to_set(), pname(w, j));
            assert(false);
        }
        let i = choose|i: int| 0 <= i < tseq.len() && tseq[i] == pname(w, j);
        assert(giving(w, i) is Some);
        assert(giving(w, i) == Some(give_name(w, i)));
        assert(gives(w, i, j));
    }
    assert forall|j: int| 0 <= j < n implies (#[trigger] receiving(w, j)) is Some by {
        assert(has_giver(w, j));
        let i = choose|i: int| 0 <= i < n && gives(w, i, j);
        assert(receiving(w, j) == Some(pname(w, i)));
    }
    // the remaining promises follow clause by clause
    assert forall|i: int| 0 <= i < n implies (#[trigger] giving(w, i)) is Some by {}
    assert forall|i: int| 0 <= i < n implies #[trigger] gives_within(w, i) by {
        assert(giving(w, i) is Some);
    }
    assert forall|i: int, j: int| 0 <= i < n && 0 <= j < n && i != j implies #[trigger] giving(
        w,
        i,
    ) != #[trigger] giving(w, j) by {
        assert(giving(w, i) is Some);
        assert(giving(w, j) is Some);
    }
    assert forall|j: int| 0 <= j < n implies #[trigger] is_drawn(w, j) by {
        assert(receiving(w, j) is Some);
    }
    assert forall|j: int| 0 <= j < n implies #[trigger] excluded(w, j) == excluded(r, j).push(
        recv_name(w, j),
    ) by {
        assert(receiving(w, j) is Some);
    }
}

/// The name the participant at position `i` gives to; meaningful only
/// when `giving(r, i)` is set.
pub(crate) open spec fn give_name(r: Seq<Participant>, i: int) -> Seq<char> {
    match r[i].giving_to {
        Some(t) => t@,
        None => Seq::empty(),
    }
}

/// On a roster supplied without exclusions, the constraint check accepts
/// any candidate `c` for the current giver `g` that is someone else, not
/// yet claimed as a recipient, and not currently giving to `g`: the only
/// name that can sit in the working exclusion list of `g` is the name of
/// the giver of `g`, which the receiving-side checks already rule out.
proof fn lemma_fresh_validate_ok(r: Seq<Participant>, w: Seq<Participant>, g: int, c: int)
    requires
        names_distinct(r),
        reset_no_exclusions(r),
        pass_inv(r, w, g),
        0 <= g < w.len(),
        0 <= c < w.len(),
        c != g,
        receiving(w, c) is None,
        !gives(w, c, g),
    ensures
        spec_validate(w[g], w[c]) == Ok::<(), SecretSatanError>(()),
{
    let n = w.len() as int;
    assert forall|i: int, j: int| 0 <= i < n && 0 <= j < n && i != j implies pname(w, i) != pname(
        w,
        j,
    ) by {
        if i < j {
            assert(pname(r, i) != pname(r, j));
        } else {
            assert(pname(r, j) != pname(r, i));
        }
    }
    assert(pname(w, g) != pname(w, c));
    assert(giving(w, g) is None);
    assert(receiving(w, g) != Some(pname(w, c))) by {
        if receiving(w, g) == Some(pname(w, c)) {
            assert(receiving(w, g) is Some);
            assert(has_giver(w, g));
            let i = choose|i: int| 0 <= i < w.len() && gives(w, i, g);
            assert(receiving(w, g) == Some(pname(w, i)));
            assert(pname(w, i) == pname(w, c));
            assert(i == c);
            assert(gives(w, c, g));
            assert(false);
        }
    }
    assert(!excluded(w, g).contains(pname(w, c))) by {
        assert(unassigned_at(r, g));
        assert(excluded(r, g).len() == 0);
        if receiving(w, g) is Some {
            assert(excluded(w, g) == excluded(r, g).push(recv_name(w, g)));
            if excluded(w, g).contains(pname(w, c)) {
                let t = choose|t: int|
                    0 <= t < excluded(w, g).len() && excluded(w, g)[t] == pname(w, c);
                assert(t == 0);
                assert(recv_name(w, g) == pname(w, c));
                assert(receiving(w, g) == Some(recv_name(w, g)));
                assert(false);
            }
        } else {
            assert(excluded(w, g) == excluded(r, g));
            if excluded(w, g).contains(pname(w, c)) {
                let t = choose|t: int|
                    0 <= t < excluded(w, g).len() && excluded(w, g)[t] == pname(w, c);
                assert(false);
            }
        }
    }
    assert(!is_drawn(w, c));
}

/// While a pass runs on a reset roster of exactly three participants
/// with no exclusions, the current giver always has a valid recipient:
/// the first two givers can always reach someone not yet claimed, and
/// the no-reciprocal rule steers the early pairs so that the one
/// participant left undrawn at the end is never the last giver itself.
proof fn lemma_three_fresh_has_candidate(r: Seq<Participant>, w: Seq<Participant>, g: int)
    requires
        names_distinct(r),
        r.len() == 3,
        reset_no_exclusions(r),
        pass_inv(r, w, g),
        0 <= g < 3,
    ensures
        exists|c: int|
            0 <= c < 3 && spec_validate(w[g], w[c]) == Ok::<(), SecretSatanError>(()),
{
    assert(w.len() == 3);
    assert forall|i: int, j: int| 0 <= i < 3 && 0 <= j < 3 && i != j implies pname(w, i) != pname(
        w,
        j,
    ) by {
        if i < j {
            assert(pname(r, i) != pname(r, j));
        } else {
            assert(pname(r, j) != pname(r, i));
        }
    }
    if g == 0 {
        // no one has given yet, so no one receives and no check can fail
        assert(receiving(w, 1) is None) by {
            if receiving(w, 1) is Some {
                assert(has_giver(w, 1));
                let i = choose|i: int| 0 <= i < w.len() && gives(w, i, 1);
                assert(giving(w, i) is None);
                assert(false);
            }
        }
        assert(!gives(w, 1, 0)) by {
            assert(giving(w, 1) is None);
        }
        lemma_fresh_validate_ok(r, w, g, 1);
        assert(spec_validate(w[g], w[1]) == Ok::<(), SecretSatanError>(()));
    } else if g == 1 {
        // the first giver claimed `a`; the participant that is neither
        // `a` nor the giver itself is free for giver 1
        assert(giving(w, 0) is Some);
        assert(gives_within(w, 0));
        let a = choose|j: int| 0 <= j < w.len() && gives(w, 0, j);
        assert(giving(w, 0) == Some(pname(w, a)));
        assert(a != 0) by {
            assert(giving(w, 0) != Some(pname(w, 0)));
        }
        if a == 1 {
            assert(receiving(w, 2) is None) by {
                if receiving(w, 2) is Some {
                    assert(has_giver(w, 2));
                    let i = choose|i: int| 0 <= i < w.len() && gives(w, i, 2);
                    assert(giving(w, i) is Some);
                    if i >= 1 {
                        assert(giving(w, i) is None);
                    }
                    assert(i == 0);
                    assert(pname(w, 1) != pname(w, 2));
                    assert(false);
                }
            }
            assert(!gives(w, 2, 1)) by {
                assert(giving(w, 2) is None);
            }
            lemma_fresh_validate_ok(r, w, g, 2);
            assert(spec_validate(w[g], w[2]) == Ok::<(), SecretSatanError>(()));
        } else {
            assert(a == 2);
            assert(receiving(w, 0) is None) by {
                if receiving(w, 0) is Some {
                    assert(has_giver(w, 0));
                    let i = choose|i: int| 0 <= i < w.len() && gives(w, i, 0);
                    assert(giving(w, i) is Some);
                    if i >= 1 {
                        assert(giving(w, i) is None);
                    }
                    assert(i == 0);
                    assert(giving(w, 0) != Some(pname(w, 0)));
                    assert(false);
                }
            }
            assert(!gives(w, 0, 1)) by {
                assert(pname(w, 1) != pname(w, 2));
            }
            lemma_fresh_validate_ok(r, w, g, 0);
            assert(spec_validate(w[g], w[0]) == Ok::<(), SecretSatanError>(()));
        }
    } else {
        // two pairs stand; name the two claimed recipients `a` and `b`
        assert(giving(w, 0) is Some);
        assert(giving(w, 1) is Some);
        assert(gives_within(w, 0));
        assert(gives_within(w, 1));
        let a = choose|j: int| 0 <= j < w.len() && gives(w, 0, j);
        let b = choose|j: int| 0 <= j < w.len() && gives(w, 1, j);
        assert(giving(w, 0) == Some(pname(w, a)));
        assert(giving(w, 1) == Some(pname(w, b)));
        assert(a != 0) by {
            assert(giving(w, 0) != Some(pname(w, 0)));
        }
        assert(b != 1) by {
            assert(giving(w, 1) != Some(pname(w, 1)));
        }
        assert(a != b) by {
            if a == b {
                assert(giving(w, 0) != giving(w, 1));
            }
        }
        assert(!(a == 1 && b == 0)) by {
            if a == 1 && b == 0 {
                assert(gives(w, 0, 1));
                assert(!gives(w, 1, 0));
                assert(false);
            }
        }
        if a == 1 {
            assert(b == 2);
            assert(receiving(w, 0) is None) by {
                if receiving(w, 0) is Some {
                    assert(has_giver(w, 0));
                    let i = choose|i: int| 0 <= i < w.len() && gives(w, i, 0);
                    assert(giving(w, i) is Some);
                    if i >= 2 {
                        assert(giving(w, i) is None);
                    }
                    if i == 0 {
                        assert(giving(w, 0) != Some(pname(w, 0)));
                    } else {
                        assert(i == 1);
                        assert(pname(w, 0) != pname(w, 2));
                    }
                    assert(false);
                }
            }
            assert(!gives(w, 0, 2)) by {
                assert(pname(w, 1) != pname(w, 2));
            }
            lemma_fresh_validate_ok(r, w, g, 0);
            assert(spec_validate(w[g], w[0]) == Ok::<(), SecretSatanError>(()));
        } else {
            assert(a == 2);
            assert(b == 0);
            assert(receiving(w, 1) is None) by {
                if receiving(w, 1) is Some {
                    assert(has_giver(w, 1));
                    let i = choose|i: int| 0 <= i < w.len() && gives(w, i, 1);
                    assert(giving(w, i) is Some);
                    if i >= 2 {
                        assert(giving(w, i) is None);
                    }
                    if i == 0 {
                        assert(pname(w, 1) != pname(w, 2));
                    } else {
                        assert(i == 1);
                        assert(giving(w, 1) != Some(pname(w, 1)));
                    }
                    assert(false);
                }
            }
            assert(!gives(w, 1, 2)) by {
                assert(pname(w, 0) != pname(w, 2));
            }
            lemma_fresh_validate_ok(r, w, g, 1);
            assert(spec_validate(w[g], w[1]) == Ok::<(), SecretSatanError>(()));
        }
    }
}

} // verus!
