//! Dispatch policy: the shadow router's call split.
//!
//! In shadow mode every call is forked: the original batch, slot
//! identifiers and all, goes to the default pool and its future is the
//! one the pipeline waits on; a copy of the messages, stripped of
//! every slot identifier, goes to the shadow pool as fire-and-forget
//! no-reply work.  Because the shadow half carries no identifier,
//! nothing a shadow backend answers can ever name a client slot, so
//! shadow responses cannot influence the bytes a client receives.

use vstd::prelude::*;

use crate::queue::AssignedBatch;
use crate::queue::batch_view;
use crate::resp::RespFrame;
use crate::resp::dup_frame;

verus! {

/// The shadow dispatch policy.
///
/// The router itself carries no state: the decision it makes is the
/// pure split below, and the service handles and drainer task that
/// perform the two submissions live with the caller.
pub struct ShadowRouter {}

impl ShadowRouter {
    /// A shadow router.
    pub fn new() -> (r: ShadowRouter) {
        ShadowRouter {}
    }

    /// Split one call between the default and the shadow pool.
    ///
    /// The first half is the request batch unchanged, entry for
    /// entry: the response the client sees comes from it alone.  The
    /// second half holds copies of the same messages in the same
    /// order with no slot identifiers: the no-reply work mirrored to
    /// the shadow pool, whose outcome is discarded.
    pub fn split_call(&self, req: &AssignedBatch) -> (r: (AssignedBatch, Vec<RespFrame>))
        ensures
            batch_view(r.0@) == batch_view(req@),
            r.1@.len() == req@.len(),
            forall|i: int| 0 <= i < req@.len() ==> (#[trigger] r.1@[i])@ == req@[i].1@,
    {
        let mut default_half: AssignedBatch = Vec::new();
        let mut shadow_half: Vec<RespFrame> = Vec::new();
        let mut i: usize = 0;
        while i < req.len()
            invariant
                i <= req@.len(),
                default_half@.len() == i,
                shadow_half@.len() == i,
                forall|k: int|
                    0 <= k < i ==> (#[trigger] default_half@[k]).0 == req@[k].0
                        && default_half@[k].1@ == req@[k].1@,
                forall|k: int| 0 <= k < i ==> (#[trigger] shadow_half@[k])@ == req@[k].1@,
            decreases req@.len() - i,
        {
            default_half.push((req[i].0, dup_frame(&req[i].1)));
            shadow_half.push(dup_frame(&req[i].1));
            i = i + 1;
        }
        proof {
            assert(batch_view(default_half@) =~= batch_view(req@));
        }
        (default_half, shadow_half)
    }
}

} // verus!
