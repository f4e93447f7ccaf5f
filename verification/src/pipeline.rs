//! The per-client pipeline core.
//!
//! A pipeline couples one client transport to one router service.  The
//! transport reads, writes and flushes, and the driving of router
//! futures in submission order, belong to the caller; everything the
//! loop decides is here: requests enter the message queue, completed
//! router batches fulfil their slots, the head-ready bytes leave in
//! request order, and the pipeline reports when it may close.

use vstd::prelude::*;

use crate::command::ProcessorError;
use crate::command::frames_view;
use crate::queue::AssignedBatch;
use crate::queue::FulfilledBatch;
use crate::queue::MessageQueue;
use crate::queue::batch_view;
use crate::queue::bufs_view;
use crate::queue::dispatch_of;
use crate::queue::fbatch_view;
use crate::queue::ids_of;
use crate::queue::spec_drain;
use crate::queue::spec_enqueue;
use crate::queue::spec_fulfill;
use crate::resp::RespFrame;

verus! {

/// A fatal pipeline fault; each carries the underlying error's text.
#[derive(Debug)]
pub enum PipelineError {
    /// The underlying transport failed to produce a request.
    TransportReceive(Vec<u8>),
    /// The underlying transport failed while sending a response.
    TransportSend(Vec<u8>),
    /// The underlying service failed to process a request.
    Service(Vec<u8>),
}

impl PipelineError {
    /// Wrap a transport send fault.
    pub fn from_sink_error(e: Vec<u8>) -> (r: Self)
        ensures
            r matches PipelineError::TransportSend(v) && v@ == e@,
    {
        PipelineError::TransportSend(e)
    }

    /// Wrap a transport receive fault.
    pub fn from_stream_error(e: Vec<u8>) -> (r: Self)
        ensures
            r matches PipelineError::TransportReceive(v) && v@ == e@,
    {
        PipelineError::TransportReceive(e)
    }

    /// Wrap a service fault.
    pub fn from_service_error(e: Vec<u8>) -> (r: Self)
        ensures
            r matches PipelineError::Service(v) && v@ == e@,
    {
        PipelineError::Service(e)
    }
}

/// The verified core of one client session.
///
/// Holds the per-client message queue and the end-of-input latch; the
/// caller owns the transport and the in-flight router futures and
/// calls in here for every decision.
pub struct Pipeline {
    /// The per-client slot queue.
    pub queue: MessageQueue,
    /// Set once the transport's input has ended; no further requests
    /// are accepted, but pending replies still drain.
    pub finish: bool,
}

impl Pipeline {
    /// A fresh pipeline around an empty queue.
    pub fn new() -> (r: Pipeline)
        ensures
            r.queue.wf(),
            r.queue.view_slots().len() == 0,
            !r.queue.close_pending,
            !r.finish,
    {
        Pipeline { queue: MessageQueue::new(), finish: false }
    }

    /// Take in one batch of decoded requests and hand back the
    /// sub-requests to submit to the router.
    ///
    /// Once the input side has finished, or the client has asked to
    /// quit, no further requests are accepted and the batch is
    /// rejected untouched.
    pub fn on_requests(&mut self, msgs: Vec<RespFrame>) -> (r: Result<
        AssignedBatch,
        ProcessorError,
    >)
        requires
            old(self).queue.wf(),
        ensures
            final(self).queue.wf(),
            final(self).finish == old(self).finish,
            (old(self).finish || old(self).queue.close_pending ==> r is Err && *final(self)
                == *old(self)),
            (!old(self).finish && !old(self).queue.close_pending ==> {
                &&& (r is Err ==> *final(self) == *old(self) && spec_enqueue(
                    old(self).queue.reply_mode,
                    frames_view(msgs@),
                ) is None)
                &&& (r matches Ok(batch) ==> {
                    let out = spec_enqueue(
                        old(self).queue.reply_mode,
                        frames_view(msgs@),
                    ).unwrap();
                    let oldn = old(self).queue.view_slots().len() as int;
                    &&& spec_enqueue(old(self).queue.reply_mode, frames_view(msgs@)) is Some
                    &&& final(self).queue.reply_mode == out.mode
                    &&& final(self).queue.close_pending == (old(self).queue.close_pending
                        || out.quit)
                    &&& final(self).queue.view_slots().len() == oldn + out.pieces.len()
                    &&& final(self).queue.view_slots().take(oldn) == old(self).queue.view_slots()
                    &&& batch_view(batch@) == dispatch_of(
                        out.pieces,
                        ids_of(final(self).queue.view_slots().skip(oldn)),
                    )
                })
            }),
    {
        if self.finish || self.queue.close_pending {
            return Err(ProcessorError::InvalidRequest);
        }
        self.queue.enqueue(msgs)
    }

    /// Install one completed router batch into its slots.
    pub fn on_response_batch(&mut self, batch: FulfilledBatch) -> (r: Result<(), PipelineError>)
        requires
            old(self).queue.wf(),
        ensures
            final(self).queue.wf(),
            final(self).finish == old(self).finish,
            (r is Ok ==> spec_fulfill(
                old(self).queue.view_slots(),
                fbatch_view(batch@),
            ) == Some(final(self).queue.view_slots())),
            (r is Err ==> spec_fulfill(old(self).queue.view_slots(), fbatch_view(batch@))
                is None),
    {
        match self.queue.fulfill(batch) {
            Ok(()) => Ok(()),
            Err(()) => {
                let text: Vec<u8> = vec![
                    117u8, 110, 107, 110, 111, 119, 110, 32, 115, 108, 111, 116,
                ];
                Err(PipelineError::Service(text))
            },
        }
    }

    /// Pop the bytes that are ready to write, in request order.
    pub fn writable(&mut self) -> (r: Option<Vec<Vec<u8>>>)
        requires
            old(self).queue.wf(),
        ensures
            final(self).queue.wf(),
            final(self).finish == old(self).finish,
            final(self).queue.close_pending == old(self).queue.close_pending,
            (r matches Some(bufs) ==> bufs_view(bufs@) == spec_drain(
                old(self).queue.view_slots(),
            ).0),
            (r is None ==> *final(self) == *old(self)),
    {
        self.queue.get_sendable_bufs()
    }

    /// Note that the transport's input has ended.
    pub fn mark_finished(&mut self)
        ensures
            *final(self) == (Pipeline { finish: true, ..*old(self) }),
    {
        self.finish = true;
    }

    /// Whether the transport must be closed now: the client asked to
    /// quit and every pending reply has been emitted.
    pub fn should_close(&self) -> (r: bool)
        ensures
            r == (self.queue.close_pending && self.queue.view_slots().len() == 0),
    {
        self.queue.close_pending && self.queue.slots.len() == 0
    }

    /// Whether the session is over: input ended, every slot emitted.
    ///
    /// The caller still owns the flush of anything already handed
    /// out.
    pub fn is_done(&self) -> (r: bool)
        ensures
            r == (self.finish && self.queue.view_slots().len() == 0),
    {
        self.finish && self.queue.slots.len() == 0
    }
}

} // verus!
