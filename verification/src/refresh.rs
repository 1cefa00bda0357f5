//! What the background refresh of a binding may do under a network policy.

use vstd::prelude::*;
use crate::context::NetworkPolicy;
use crate::tpk::Fingerprint;

verus! {

/// What the refresher does next for one binding.
#[derive(Clone, Copy, Debug, PartialEq, Eq, Structural)]
pub enum Action {
    /// Nothing: the store's policy allows no network traffic.
    Skip,
    /// Fetch the key with this fingerprint, by a transport that the policy allows.
    Fetch { key: Fingerprint, policy: NetworkPolicy },
}

/// The next step for a binding bound to `key`, in a store with the policy `policy`.
pub open spec fn plan_spec(policy: NetworkPolicy, key: Fingerprint) -> Action {
    if policy == NetworkPolicy::Offline {
        Action::Skip
    } else {
        Action::Fetch { key, policy }
    }
}

/// The next step for a binding bound to `key`, in a store with the policy
/// `policy`. An offline store never fetches.
pub fn plan(policy: NetworkPolicy, key: Fingerprint) -> (r: Action)
    ensures
        r == plan_spec(policy, key),
        policy == NetworkPolicy::Offline <==> r == Action::Skip,
{
    if policy.permits_network() {
        Action::Fetch { key, policy }
    } else {
        Action::Skip
    }
}

} // verus!
