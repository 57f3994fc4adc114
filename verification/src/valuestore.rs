//! Bounded capture of value previews.
//!
//! When a change is detected, the engine snapshots the bytes before and after
//! it. How much is kept is the region's retention policy: nothing, a truncated
//! window that starts at the changed offset, or the full region.

use vstd::prelude::*;

use crate::region::valid_policy;

verus! {

/// The preview that the policy keeps of `bytes`, when the changed range is
/// `[changed_offset, changed_offset + changed_len)`.
pub open spec fn preview_of(
    policy: i64,
    bytes: Seq<u8>,
    changed_offset: nat,
    changed_len: nat,
) -> Seq<u8> {
    if policy == 0 {
        Seq::empty()
    } else if policy > 0 {
        let kept = if changed_len <= policy {
            changed_len
        } else {
            policy as nat
        };
        bytes.subrange(changed_offset as int, changed_offset + kept as int)
    } else {
        bytes
    }
}

/// What the policy promises of every preview: nothing kept, at most
/// `max_value_bytes` kept, or the full region kept.
pub proof fn lemma_preview_policy(
    policy: i64,
    bytes: Seq<u8>,
    changed_offset: nat,
    changed_len: nat,
)
    requires
        valid_policy(policy),
        changed_offset + changed_len <= bytes.len(),
    ensures
        policy == 0 ==> preview_of(policy, bytes, changed_offset, changed_len).len() == 0,
        policy > 0 ==> preview_of(policy, bytes, changed_offset, changed_len).len() <= policy,
        policy == -1 ==> preview_of(policy, bytes, changed_offset, changed_len) == bytes,
{
}

/// Copies the previews of one change out of the region's old and new bytes,
/// as the region's policy directs.
pub fn capture(
    policy: i64,
    old_bytes: &[u8],
    new_bytes: &[u8],
    changed_offset: usize,
    changed_len: usize,
) -> (r: (Vec<u8>, Vec<u8>))
    requires
        valid_policy(policy),
        old_bytes@.len() == new_bytes@.len(),
        changed_offset + changed_len <= old_bytes@.len(),
    ensures
        r.0@ == preview_of(policy, old_bytes@, changed_offset as nat, changed_len as nat),
        r.1@ == preview_of(policy, new_bytes@, changed_offset as nat, changed_len as nat),
{
    if policy == 0 {
        (Vec::new(), Vec::new())
    } else if policy > 0 {
        let kept: usize = if changed_len as u64 <= policy as u64 {
            changed_len
        } else {
            policy as usize
        };
        proof {
            vstd::slice::axiom_spec_len::<u8>(old_bytes);
            assert(kept <= changed_len);
        }
        let old_window = vstd::slice::slice_subrange(old_bytes, changed_offset, changed_offset + kept);
        let new_window = vstd::slice::slice_subrange(new_bytes, changed_offset, changed_offset + kept);
        (vstd::slice::slice_to_vec(old_window), vstd::slice::slice_to_vec(new_window))
    } else {
        (vstd::slice::slice_to_vec(old_bytes), vstd::slice::slice_to_vec(new_bytes))
    }
}

} // verus!
