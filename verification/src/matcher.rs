//! The matcher: decides whether an inbound message fires a rule, and picks
//! one response of the firing rule uniformly at random.
//!
//! A rule fires when the message contains its trigger as a substring (exact
//! characters, case sensitive, no normalization). Rules are scanned in store
//! order and the first firing rule wins; callers must not rely on which rule
//! that is when several fire.

use vstd::prelude::*;

use crate::rules::RuleStore;
use crate::text::{contains_str, is_substr};

verus! {

/// Relies on rand's `IndexedRandom::choose` (driven by `rand::rng()`): it
/// uniformly samples one element of the slice and returns `None` exactly when
/// the slice is empty.
#[verifier::external_body]
fn choose_one(v: &Vec<String>) -> (r: Option<String>)
    ensures
        r is Some <==> v@.len() > 0,
        r matches Some(x) ==> exists|i: int| 0 <= i < v@.len() && x == v@[i],
{
    rand::seq::IndexedRandom::choose(v.as_slice(), &mut rand::rng()).cloned()
}

/// `message` contains at least one of `patterns` as a substring.
#[verifier::loop_isolation(false)]
pub fn match_message(message: &str, patterns: &[&str]) -> (r: bool)
    ensures
        r == exists|i: int| 0 <= i < patterns@.len() && is_substr(message@, patterns@[i]@),
{
    let mut i: usize = 0;
    while i < patterns.len()
        invariant
            i <= patterns@.len(),
            forall|j: int| 0 <= j < i ==> !is_substr(message@, (#[trigger] patterns@[j])@),
        decreases patterns@.len() - i,
    {
        if contains_str(message, patterns[i]) {
            return true;
        }
        i += 1;
    }
    false
}

/// A response drawn from the first rule whose trigger occurs in `message`,
/// or nothing when no rule fires. A rule that (against the store invariant)
/// held no responses would be skipped rather than crash the caller.
#[verifier::loop_isolation(false)]
pub fn respond(store: &RuleStore, message: &str) -> (r: Option<String>)
    requires
        store.wf(),
    ensures
        r matches Some(x) ==> exists|i: int|
            0 <= i < store@.len() && is_substr(message@, (#[trigger] store@[i]).trigger)
                && store@[i].responses.contains(x@),
        r is None <==> forall|i: int|
            0 <= i < store@.len() ==> !is_substr(message@, (#[trigger] store@[i]).trigger),
{
    let n = store.rule_count();
    let mut i: usize = 0;
    while i < n
        invariant
            i <= n,
            forall|j: int|
                0 <= j < i ==> !is_substr(message@, (#[trigger] store@[j]).trigger),
        decreases n - i,
    {
        let rule = store.rule_at(i);
        if contains_str(message, rule.trigger.as_str()) {
            match choose_one(&rule.responses) {
                Some(pick) => {
                    proof {
                        let x = choose|k: int|
                            0 <= k < rule.responses@.len() && pick == rule.responses@[k];
                        assert(store@[i as int].responses[x] == pick@);
                    }
                    return Some(pick);
                },
                None => {
                    // Unreachable while the store invariant holds: a firing
                    // rule always has a response to offer.
                },
            }
        }
        i += 1;
    }
    None
}

} // verus!
