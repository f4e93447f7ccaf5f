//! The per-protocol processor capability.
//!
//! A processor supplies the cache-specific logic the queue and the
//! pipeline lean on: fragmenting client requests into routable
//! pieces, coalescing fragment groups back into one reply, and
//! shaping error text into a protocol-valid reply frame.  The
//! contracts below are exactly those of the engine's own fragmenter
//! and defragmenter, so anything proved against the trait holds of
//! its implementation.

use vstd::prelude::*;

use crate::command::ClassOut;
use crate::command::ProcessorError;
use crate::command::classify_message;
use crate::command::defragment_messages;
use crate::command::fragment_messages;
use crate::command::frames_view;
use crate::command::spec_defragment;
use crate::command::spec_fragment;
use crate::queue::MessageState;
use crate::queue::pieces_view;
use crate::resp::FrameV;
use crate::resp::RespFrame;
use crate::resp::RespScalar;
use crate::resp::ScalarV;
use crate::resp::dup_bytes;
use crate::resp::line_wf;
use crate::redis::RedisRequestTransformer;

verus! {

/// Cache-specific logic for processing requests.
pub trait Processor {
    /// Fragment a batch of client frames into queue pieces, keeping
    /// positional order across the whole batch.
    fn fragment_messages(&self, msgs: &Vec<RespFrame>) -> (r: Result<
        Vec<(MessageState, RespFrame)>,
        ProcessorError,
    >)
        ensures
            (r matches Ok(pieces) ==> spec_fragment(frames_view(msgs@)) == Some(
                pieces_view(pieces@),
            )),
            (r is Err ==> spec_fragment(frames_view(msgs@)) is None),
    ;

    /// Coalesce one full fragment group into its parent reply.
    fn defragment_messages(&self, frags: &Vec<(MessageState, RespFrame)>) -> (r: Result<
        RespFrame,
        ProcessorError,
    >)
        ensures
            (r matches Ok(f) ==> spec_defragment(pieces_view(frags@)) == Some(f@)),
            (r is Err ==> spec_defragment(pieces_view(frags@)) is None),
    ;

    /// Shape error text into a protocol-valid error reply.
    fn get_error_message_str(&self, text: &Vec<u8>) -> (r: RespFrame)
        requires
            line_wf(text@),
        ensures
            r@ == FrameV::Scalar(ScalarV::ErrorMsg(text@)),
    ;
}

impl Processor for RedisRequestTransformer {
    fn fragment_messages(&self, msgs: &Vec<RespFrame>) -> (r: Result<
        Vec<(MessageState, RespFrame)>,
        ProcessorError,
    >) {
        fragment_messages(msgs)
    }

    fn defragment_messages(&self, frags: &Vec<(MessageState, RespFrame)>) -> (r: Result<
        RespFrame,
        ProcessorError,
    >) {
        defragment_messages(frags)
    }

    fn get_error_message_str(&self, text: &Vec<u8>) -> (r: RespFrame) {
        RespFrame::Scalar(RespScalar::ErrorMsg(dup_bytes(text)))
    }
}

} // verus!
