//! From a resolved host name to the nftables requests it calls for: every
//! rule set the name matches gets the resolved addresses added to its sets.

use vstd::prelude::*;
use crate::config::{host_matches, matching_rules, request_matches, RuleSet};
use crate::nft::error::NftError;
use crate::nft::set::{acks_for, expected_acks};
use crate::varlink_monitor::Resolved;

verus! {

/// A request to send for one rule set.
#[derive(Debug)]
pub struct SetUpdate {
    /// The position of the rule set.
    pub rule: usize,
    /// The request that adds the resolved addresses to its sets.
    pub request: Result<Vec<u8>, NftError>,
    /// The number of acknowledgements that answer the request.
    pub acks: usize,
}

/// The requests a resolved host name calls for, one for each rule set it
/// matches, in the order of the rule sets: each adds the resolved IPv4 and
/// IPv6 addresses to the sets of that rule set.
pub fn updates_for(rules: &Vec<RuleSet>, resolved: &Resolved) -> (updates: Vec<SetUpdate>)
    requires
        forall|i: int| 0 <= i < rules.len() ==> #[trigger] rules[i].wf(),
    ensures
        forall|k: int|
            #![trigger updates[k]]
            0 <= k < updates.len() ==> {
                let i = updates[k].rule as int;
                &&& 0 <= i < rules.len()
                &&& host_matches(rules[i].patterns(), resolved.hostname@)
                &&& request_matches(
                    rules[i].table(),
                    rules[i].set_v4(),
                    rules[i].set_v6(),
                    resolved.addrs_v4@,
                    resolved.addrs_v6@,
                    updates[k].request,
                )
            },
        forall|k: int|
            0 <= k < updates.len() ==> #[trigger] updates[k].acks == acks_for(
                resolved.addrs_v4@.len(),
                resolved.addrs_v6@.len(),
            ),
        forall|k: int, l: int| 0 <= k < l < updates.len() ==> updates[k].rule < updates[l].rule,
        forall|i: int|
            0 <= i < rules.len() && host_matches(#[trigger] rules[i].patterns(), resolved.hostname@)
                ==> exists|k: int| 0 <= k < updates.len() && updates[k].rule == i,
{
    let acks = expected_acks(resolved.addrs_v4.as_slice(), resolved.addrs_v6.as_slice());
    let matched = matching_rules(rules, resolved.hostname.as_str());
    let mut updates: Vec<SetUpdate> = Vec::new();
    let mut k: usize = 0;
    while k < matched.len()
        invariant
            0 <= k <= matched.len(),
            updates.len() == k,
            acks == acks_for(resolved.addrs_v4@.len(), resolved.addrs_v6@.len()),
            forall|j: int| #![trigger updates[j]] 0 <= j < k ==> updates[j].acks == acks,
            forall|j: int| #![trigger updates[j]] 0 <= j < k ==> updates[j].rule == matched[j],
            forall|j: int|
                #![trigger updates[j]]
                0 <= j < k ==> request_matches(
                    rules[matched[j] as int].table(),
                    rules[matched[j] as int].set_v4(),
                    rules[matched[j] as int].set_v6(),
                    resolved.addrs_v4@,
                    resolved.addrs_v6@,
                    updates[j].request,
                ),
            forall|j: int|
                0 <= j < matched.len() ==> #[trigger] matched[j] < rules.len() && host_matches(
                    rules[matched[j] as int].patterns(),
                    resolved.hostname@,
                ),
        decreases matched.len() - k,
    {
        let i = matched[k];
        let request = rules[i].add_request(resolved.addrs_v4.as_slice(), resolved.addrs_v6.as_slice());
        updates.push(SetUpdate { rule: i, request, acks });
        k = k + 1;
    }
    proof {
        assert forall|i: int|
            0 <= i < rules.len() && host_matches(
                #[trigger] rules[i].patterns(),
                resolved.hostname@,
            ) implies exists|k: int| 0 <= k < updates.len() && updates[k].rule == i by {
            let k = choose|k: int| 0 <= k < matched.len() && matched[k] == i as usize;
            assert(updates[k].rule == i);
        }
    }
    updates
}

} // verus!
