//! The ownership-safety check.
//!
//! A path is safe for the current user to own when, walking the path and
//! its ancestors from most specific to the root, the first ancestor that
//! exists on the filesystem is owned by that user. An ancestor that does
//! not exist, or that cannot exist because a non-directory blocks the
//! way, is skipped; a permission failure or any other failure decides
//! against safety at once; a walk that exhausts every ancestor decides
//! against safety too. The decision logic is verified here; only the
//! single metadata read per ancestor is trusted.

use vstd::prelude::*;

use crate::paths::{parent_path, spec_parent};
use crate::sys::{lstat_path, StatOutcome};

verus! {

/// The safety decision as a function of the metadata outcomes seen along
/// the ancestor walk, most specific ancestor first: the first outcome
/// that is neither `NotFound` nor `NotDirectory` decides, and an
/// exhausted walk is unsafe.
pub open spec fn safe_given_outcomes(outcomes: Seq<StatOutcome>, uid: u32) -> bool
    decreases outcomes.len(),
{
    if outcomes.len() == 0 {
        false
    } else {
        match outcomes[0] {
            StatOutcome::Owner { uid: u, mode: _ } => u == uid,
            StatOutcome::NotFound => safe_given_outcomes(outcomes.drop_first(), uid),
            StatOutcome::NotDirectory => safe_given_outcomes(outcomes.drop_first(), uid),
            StatOutcome::PermissionDenied => false,
            StatOutcome::OtherError => false,
        }
    }
}

/// Whether an outcome lets the walk continue to the next ancestor.
pub open spec fn is_skipped(o: StatOutcome) -> bool {
    o is NotFound || o is NotDirectory
}

/// Decides one step of the walk: a decisive outcome fixes the answer no
/// matter what deeper ancestors would have reported; a skipped outcome
/// leaves the walk open.
pub fn outcome_step(o: &StatOutcome, uid: u32) -> (r: Option<bool>)
    ensures
        r matches Some(b) ==> forall|rest: Seq<StatOutcome>|
            safe_given_outcomes(seq![*o] + rest, uid) == b,
        r is None <==> is_skipped(*o),
{
    let r = match o {
        StatOutcome::Owner { uid: u, mode: _ } => Some(*u == uid),
        StatOutcome::NotFound => None,
        StatOutcome::NotDirectory => None,
        StatOutcome::PermissionDenied => Some(false),
        StatOutcome::OtherError => Some(false),
    };
    proof {
        if r is Some {
            assert forall|rest: Seq<StatOutcome>|
                safe_given_outcomes(seq![*o] + rest, uid) == r->Some_0 by {
                assert((seq![*o] + rest)[0] == *o);
            }
        }
    }
    r
}

/// The walk decision applied to a recorded sequence of outcomes, most
/// specific ancestor first.
pub fn safe_to_own_from_outcomes(outcomes: &Vec<StatOutcome>, uid: u32) -> (b: bool)
    ensures
        b == safe_given_outcomes(outcomes@, uid),
{
    let n = outcomes.len();
    let mut i: usize = 0;
    proof {
        assert(outcomes@.subrange(0, n as int) =~= outcomes@);
    }
    while i < n
        invariant
            i <= n,
            n == outcomes@.len(),
            safe_given_outcomes(outcomes@, uid) == safe_given_outcomes(
                outcomes@.subrange(i as int, n as int),
                uid,
            ),
        decreases n - i,
    {
        let suffix_decision = outcome_step(&outcomes[i], uid);
        proof {
            let suf = outcomes@.subrange(i as int, n as int);
            assert(suf[0] == outcomes@[i as int]);
            assert(seq![outcomes@[i as int]] + suf.drop_first() =~= suf);
            assert(suf.drop_first() =~= outcomes@.subrange(i + 1, n as int));
        }
        match suffix_decision {
            Some(b) => {
                return b;
            },
            None => {},
        }
        i += 1;
    }
    proof {
        assert(outcomes@.subrange(n as int, n as int) =~= Seq::<StatOutcome>::empty());
    }
    false
}

/// The first ancestor whose outcome is not skipped decides the walk:
/// safety holds exactly when that outcome reports the walker as owner,
/// whatever outcomes follow deeper in the sequence.
pub proof fn lemma_first_existing_ancestor_decides(outcomes: Seq<StatOutcome>, uid: u32, i: int)
    requires
        0 <= i < outcomes.len(),
        forall|j: int| 0 <= j < i ==> is_skipped(outcomes[j]),
        !is_skipped(outcomes[i]),
    ensures
        safe_given_outcomes(outcomes, uid) == (outcomes[i] matches StatOutcome::Owner {
            uid: u,
            mode: _,
        } && u == uid),
    decreases i,
{
    if i > 0 {
        lemma_first_existing_ancestor_decides(outcomes.drop_first(), uid, i - 1);
    }
}

/// A walk all of whose outcomes are skipped — every ancestor absent or
/// blocked — decides against safety.
pub proof fn lemma_no_ancestor_resolves(outcomes: Seq<StatOutcome>, uid: u32)
    requires
        forall|j: int| 0 <= j < outcomes.len() ==> is_skipped(outcomes[j]),
    ensures
        !safe_given_outcomes(outcomes, uid),
    decreases outcomes.len(),
{
    if outcomes.len() > 0 {
        lemma_no_ancestor_resolves(outcomes.drop_first(), uid);
    }
}

/// A run of skipped outcomes in front of a walk does not change its
/// decision.
pub proof fn lemma_skipped_prefix(prefix: Seq<StatOutcome>, rest: Seq<StatOutcome>, uid: u32)
    requires
        forall|j: int| 0 <= j < prefix.len() ==> is_skipped(prefix[j]),
    ensures
        safe_given_outcomes(prefix + rest, uid) == safe_given_outcomes(rest, uid),
    decreases prefix.len(),
{
    if prefix.len() > 0 {
        assert((prefix + rest)[0] == prefix[0]);
        assert((prefix + rest).drop_first() =~= prefix.drop_first() + rest);
        lemma_skipped_prefix(prefix.drop_first(), rest, uid);
    }
}

/// Walks `path` and its ancestors, reading each entry's own metadata
/// (symlinks never followed), until an outcome decides or the ancestors
/// run out. Which outcomes come back is up to the filesystem; the
/// guarantee is that the returned decision is exactly the walk decision
/// over the outcomes that were observed, returned as a ghost trace.
pub fn is_safe_to_own(path: &str, uid: u32) -> (r: (bool, Ghost<Seq<StatOutcome>>))
    ensures
        r.0 == safe_given_outcomes(r.1@, uid),
{
    let mut cur = path.to_owned();
    let ghost mut seen: Seq<StatOutcome> = Seq::empty();
    loop
        invariant
            forall|j: int| 0 <= j < seen.len() ==> is_skipped(seen[j]),
        decreases cur@.len(),
    {
        let outcome = lstat_path(cur.as_str());
        let step = outcome_step(&outcome, uid);
        proof {
            seen = seen.push(outcome);
        }
        match step {
            Some(b) => {
                proof {
                    let decided = seen.drop_last();
                    assert(decided + (seq![outcome] + Seq::<StatOutcome>::empty()) =~= seen);
                    lemma_skipped_prefix(
                        decided,
                        seq![outcome] + Seq::<StatOutcome>::empty(),
                        uid,
                    );
                }
                return (b, Ghost(seen));
            },
            None => {},
        }
        match parent_path(cur.as_str()) {
            Some(p) => {
                cur = p;
            },
            None => {
                proof {
                    lemma_no_ancestor_resolves(seen, uid);
                }
                return (false, Ghost(seen));
            },
        }
    }
}

} // verus!
