//! Per-client message queue: slots, ordering, fragmentation state.
//!
//! Every piece produced from a client request occupies one slot.  Slots
//! are kept in the order the pieces were enqueued; responses are emitted
//! only from the head, so the byte stream written back to the client
//! follows the request order exactly, whatever order the backends
//! answer in.

use vstd::prelude::*;

use crate::command::PiecesV;
use crate::command::ReplyDirective;
use crate::command::classify_message;
use crate::command::defragment_messages;
use crate::command::frames_of_pieces;
use crate::command::is_frag_group;
use crate::command::spec_defrag;
use crate::command::spec_defragment;
use crate::command::failed_frame;
use crate::command::failed_view;
use crate::command::is_quit;
use crate::command::reply_directive;
use crate::command::spec_classify;
use crate::command::spec_is_quit;
use crate::command::spec_reply_directive;
use crate::command::frames_view;
use crate::command::ProcessorError;
use crate::idalloc::slab_insert;
use crate::idalloc::slab_keys;
use crate::idalloc::slab_new;
use crate::idalloc::slab_release;
use crate::resp::FrameV;
use crate::resp::dup_frame;
use crate::resp::enc_frame;
use crate::resp::frame_to_buf;
use crate::resp::RespFrame;

verus! {

/// Which multi-key command a fragment group came from.
#[derive(Clone, Copy)]
pub enum FragmentOp {
    /// A multi-key store; the parent reply coalesces to a single status.
    MultiSet,
    /// A multi-key delete; the parent reply sums the per-key counts.
    MultiDelete,
}

/// Message state of queued messages.
pub enum MessageState {
    /// An unfragmented, standalone message: one sub-request, one response.
    Standalone,
    /// A message whose response is available the moment it is enqueued,
    /// with no backend involved.
    Inline,
    /// One fragment of a multi-key parent whose reply must be assembled
    /// from all fragments.  Carries the parent operation, this
    /// fragment's index and the total fragment count.
    Fragmented(FragmentOp, usize, usize),
    /// One fragment of a parent whose reply streams out piecewise in
    /// order; the first fragment carries the parent's header bytes.
    StreamingFragmented(Option<Vec<u8>>),
}

/// Mathematical shape of a message state.
#[verifier::ext_equal]
pub enum StateV {
    Standalone,
    Inline,
    Fragmented(FragmentOp, int, int),
    StreamingFragmented(Option<Seq<u8>>),
}

impl View for MessageState {
    type V = StateV;

    open spec fn view(&self) -> StateV {
        match self {
            MessageState::Standalone => StateV::Standalone,
            MessageState::Inline => StateV::Inline,
            MessageState::Fragmented(op, idx, cnt) => StateV::Fragmented(
                *op,
                *idx as int,
                *cnt as int,
            ),
            MessageState::StreamingFragmented(h) => StateV::StreamingFragmented(
                match h {
                    Some(v) => Some(v@),
                    None => None,
                },
            ),
        }
    }
}

/// The view of a fragmenter output: state paired with message shape.
pub open spec fn pieces_view(v: Seq<(MessageState, RespFrame)>) -> Seq<(StateV, FrameV)> {
    v.map_values(|p: (MessageState, RespFrame)| (p.0@, p.1@))
}


/// One queued slot: its identifier, fragmentation state, whether its
/// reply is swallowed by the reply mode, and the response once known.
pub struct Slot {
    /// The correlation token handed to the router for this slot.
    pub id: usize,
    /// The fragmentation state of the piece held here.
    pub state: MessageState,
    /// Whether the reply-mode machine swallows this slot's bytes.
    pub muted: bool,
    /// The response, once installed.
    pub payload: Option<RespFrame>,
}

/// Mathematical shape of a slot.
#[verifier::ext_equal]
pub struct SlotV {
    pub id: usize,
    pub state: StateV,
    pub muted: bool,
    pub payload: Option<FrameV>,
}

impl View for Slot {
    type V = SlotV;

    open spec fn view(&self) -> SlotV {
        SlotV {
            id: self.id,
            state: self.state@,
            muted: self.muted,
            payload: match &self.payload {
                Some(f) => Some(f@),
                None => None,
            },
        }
    }
}

/// The slot views of a slot vector.
pub open spec fn slots_view(v: Seq<Slot>) -> Seq<SlotV> {
    v.map_values(|s: Slot| s@)
}

/// The states of a slot view sequence.
pub open spec fn states_of(ss: Seq<SlotV>) -> Seq<StateV> {
    ss.map_values(|s: SlotV| s.state)
}

/// Whether the group around position `i` is complete and coherent.
///
/// A fragmented slot at `i` with index `idx` and count `cnt` demands
/// that positions `i - idx` through `i - idx + cnt - 1` hold exactly
/// the fragments `0` to `cnt - 1` of the same operation.
pub open spec fn group_ok_at(sts: Seq<StateV>, i: int) -> bool {
    match sts[i] {
        StateV::Fragmented(op, idx, cnt) => {
            &&& 0 <= idx < cnt
            &&& i - idx >= 0
            &&& i - idx + cnt <= sts.len()
            &&& forall|j: int|
                0 <= j < cnt ==> #[trigger] sts[i - idx + j] == StateV::Fragmented(op, j, cnt)
        },
        _ => true,
    }
}

/// Every fragment group in the sequence is contiguous and complete.
pub open spec fn groups_wf(sts: Seq<StateV>) -> bool {
    forall|i: int| 0 <= i < sts.len() ==> #[trigger] group_ok_at(sts, i)
}

/// Complete groups stay complete under concatenation.
pub proof fn lemma_groups_concat(a: Seq<StateV>, b: Seq<StateV>)
    requires
        groups_wf(a),
        groups_wf(b),
    ensures
        groups_wf(a + b),
{
    assert forall|i: int| 0 <= i < (a + b).len() implies #[trigger] group_ok_at(a + b, i) by {
        if i < a.len() {
            assert(group_ok_at(a, i));
            match a[i] {
                StateV::Fragmented(op, idx, cnt) => {
                    assert((a + b)[i] == a[i]);
                    assert forall|j: int| 0 <= j < cnt implies #[trigger] (a + b)[i - idx + j]
                        == StateV::Fragmented(op, j, cnt) by {
                        assert(a[i - idx + j] == StateV::Fragmented(op, j, cnt));
                        assert((a + b)[i - idx + j] == a[i - idx + j]);
                    }
                },
                _ => {},
            }
        } else {
            let k = i - a.len();
            assert(group_ok_at(b, k));
            match b[k] {
                StateV::Fragmented(op, idx, cnt) => {
                    assert((a + b)[i] == b[k]);
                    assert forall|j: int| 0 <= j < cnt implies #[trigger] (a + b)[i - idx + j]
                        == StateV::Fragmented(op, j, cnt) by {
                        assert(b[k - idx + j] == StateV::Fragmented(op, j, cnt));
                        assert((a + b)[i - idx + j] == b[k - idx + j]);
                    }
                },
                _ => {},
            }
        }
    }
}

/// Dropping a complete head group keeps the rest well-formed.
pub proof fn lemma_groups_skip(sts: Seq<StateV>, k: int)
    requires
        groups_wf(sts),
        0 <= k <= sts.len(),
        // the first k positions are either one complete head group or a
        // single unfragmented slot
        ((k >= 1 && (sts[0] matches StateV::Fragmented(op, idx, cnt) && idx == 0 && cnt == k))
            || (k == 1 && 0 < sts.len() && !(sts[0] is Fragmented))),
    ensures
        groups_wf(sts.skip(k)),
{
    let rest = sts.skip(k);
    assert forall|i: int| 0 <= i < rest.len() implies #[trigger] group_ok_at(rest, i) by {
        assert(rest[i] == sts[i + k]);
        assert(group_ok_at(sts, i + k));
        match sts[i + k] {
            StateV::Fragmented(op, idx, cnt) => {
                let start = i + k - idx;
                // the group of position i + k cannot straddle the cut at k
                if start < k {
                    assert(sts[i + k - idx + 0] == StateV::Fragmented(op, 0, cnt));
                    assert(sts[start] == StateV::Fragmented(op, 0, cnt));
                    if sts[0] is Fragmented {
                        // head group occupies [0, k): position start names
                        // fragment `start` of that group
                        assert(group_ok_at(sts, 0));
                        match sts[0] {
                            StateV::Fragmented(op0, idx0, cnt0) => {
                                assert(idx0 == 0 && cnt0 == k);
                                assert(sts[0 - idx0 + start] == StateV::Fragmented(
                                    op0,
                                    start,
                                    cnt0,
                                ));
                                // position start cannot be fragment 0 and
                                // fragment `start` of a group of size k at once
                                assert(start == 0 && cnt == k);
                                assert(i + k < i + k - idx + cnt);
                                assert(false);
                            },
                            _ => {
                                assert(false);
                            },
                        }
                    } else {
                        assert(k == 1 && start == 0);
                        assert(sts[0] is Fragmented);
                        assert(false);
                    }
                }
                assert(start >= k);
                assert forall|j: int| 0 <= j < cnt implies #[trigger] rest[i - idx + j]
                    == StateV::Fragmented(op, j, cnt) by {
                    assert(sts[start + j] == StateV::Fragmented(op, j, cnt));
                    assert(rest[i - idx + j] == sts[start + j]);
                }
            },
            _ => {},
        }
    }
}

/// A per-client message queue.
///
/// Slots are held in enqueue order; the `slab` allocator issues their
/// identifiers, so an identifier is never shared by two live slots and
/// may be reused once its slot has been emitted.  The queue also owns
/// the per-connection reply mode and the close latch set by the
/// connection-closing command.
pub struct MessageQueue {
    /// The slot identifier allocator.
    pub ids: slab::Slab<()>,
    /// The slots, in enqueue order.
    pub slots: Vec<Slot>,
    /// The reply mode currently in force.
    pub reply_mode: ReplyDirective,
    /// Set once the client has asked for the connection to close after
    /// the pending replies are written.
    pub close_pending: bool,
}

impl MessageQueue {
    /// The slots in enqueue order.
    pub open spec fn view_slots(self) -> Seq<SlotV> {
        slots_view(self.slots@)
    }

    /// The identifiers currently allocated.
    pub open spec fn view_ids(self) -> Set<usize> {
        slab_keys(self.ids)
    }

    /// The queue's structural invariant: distinct allocated slot
    /// identifiers, complete contiguous fragment groups, and inline
    /// slots born filled.
    pub open spec fn wf(self) -> bool {
        &&& forall|i: int, j: int|
            0 <= i < j < self.view_slots().len() ==> self.view_slots()[i].id
                != self.view_slots()[j].id
        &&& forall|i: int|
            0 <= i < self.view_slots().len() ==> self.view_ids().contains(
                #[trigger] self.view_slots()[i].id,
            )
        &&& self.view_ids().finite()
        &&& groups_wf(states_of(self.view_slots()))
        &&& forall|i: int|
            0 <= i < self.view_slots().len() && (#[trigger] self.view_slots()[i].state)
                is Inline ==> self.view_slots()[i].payload is Some
    }

    /// A fresh queue: no slots, replies on, not closing.
    pub fn new() -> (r: MessageQueue)
        ensures
            r.wf(),
            r.view_slots() == Seq::<SlotV>::empty(),
            r.reply_mode == ReplyDirective::On,
            !r.close_pending,
    {
        let q = MessageQueue {
            ids: slab_new(),
            slots: Vec::new(),
            reply_mode: ReplyDirective::On,
            close_pending: false,
        };
        proof {
            assert(q.view_slots() =~= Seq::<SlotV>::empty());
            assert(states_of(q.view_slots()) =~= Seq::<StateV>::empty());
        }
        q
    }
}


/// One piece as the queue holds it: state, message, muted flag.
pub type PieceM = (StateV, FrameV, bool);

/// Whether the reply of a frame is swallowed, given the reply mode in
/// force when it arrives.  A mode switch itself is answered only when
/// it switches replies back on.
pub open spec fn spec_mute(mode: ReplyDirective, f: FrameV) -> bool {
    match spec_reply_directive(f) {
        Some(ReplyDirective::On) => false,
        Some(_) => true,
        None => mode is Off || mode is Skip,
    }
}

/// The reply mode in force after a frame has been taken in.
pub open spec fn spec_mode_after(mode: ReplyDirective, f: FrameV) -> ReplyDirective {
    match spec_reply_directive(f) {
        Some(ReplyDirective::On) => ReplyDirective::On,
        Some(ReplyDirective::Off) => ReplyDirective::Off,
        Some(ReplyDirective::Skip) => if mode is Off {
            ReplyDirective::Off
        } else {
            ReplyDirective::Skip
        },
        None => if mode is Skip {
            ReplyDirective::On
        } else {
            mode
        },
    }
}

/// Whether the reply of a frame is swallowed under the given mode.
pub fn mute_decision(m: &RespFrame, mode: ReplyDirective) -> (r: bool)
    ensures
        r == spec_mute(mode, m@),
{
    match reply_directive(m) {
        Some(ReplyDirective::On) => false,
        Some(_) => true,
        None => match mode {
            ReplyDirective::On => false,
            _ => true,
        },
    }
}

/// The reply mode in force after taking in a frame.
pub fn mode_after(m: &RespFrame, mode: ReplyDirective) -> (r: ReplyDirective)
    ensures
        r == spec_mode_after(mode, m@),
{
    match reply_directive(m) {
        Some(ReplyDirective::On) => ReplyDirective::On,
        Some(ReplyDirective::Off) => ReplyDirective::Off,
        Some(ReplyDirective::Skip) => match mode {
            ReplyDirective::Off => ReplyDirective::Off,
            _ => ReplyDirective::Skip,
        },
        None => match mode {
            ReplyDirective::Skip => ReplyDirective::On,
            _ => mode,
        },
    }
}

/// Pieces tagged with one muted flag.
pub open spec fn mark_muted(ps: PiecesV, m: bool) -> Seq<PieceM> {
    ps.map_values(|p: (StateV, FrameV)| (p.0, p.1, m))
}

/// What taking in a batch does, before slots are assigned: the pieces
/// in order with their muted flags, the reply mode afterwards, and
/// whether a close was requested.
#[verifier::ext_equal]
pub struct EnqOutV {
    pub pieces: Seq<PieceM>,
    pub mode: ReplyDirective,
    pub quit: bool,
}

/// The effect of taking in a sequence of frames under a reply mode.
pub open spec fn spec_enqueue(mode: ReplyDirective, ms: Seq<FrameV>) -> Option<EnqOutV>
    decreases ms.len(),
{
    if ms.len() == 0 {
        Some(EnqOutV { pieces: Seq::empty(), mode, quit: false })
    } else {
        match spec_classify(ms[0]) {
            None => None,
            Some(ps) => match spec_enqueue(spec_mode_after(mode, ms[0]), ms.drop_first()) {
                None => None,
                Some(rest) => Some(
                    EnqOutV {
                        pieces: mark_muted(ps, spec_mute(mode, ms[0])) + rest.pieces,
                        mode: rest.mode,
                        quit: spec_is_quit(ms[0]) || rest.quit,
                    },
                ),
            },
        }
    }
}

/// Taking in one more frame appends its pieces under the running mode.
pub proof fn lemma_spec_enqueue_push(mode: ReplyDirective, ms: Seq<FrameV>, m: FrameV)
    ensures
        spec_enqueue(mode, ms.push(m)) == (match spec_enqueue(mode, ms) {
            None => None::<EnqOutV>,
            Some(out) => match spec_classify(m) {
                None => None::<EnqOutV>,
                Some(ps) => Some(
                    EnqOutV {
                        pieces: out.pieces + mark_muted(ps, spec_mute(out.mode, m)),
                        mode: spec_mode_after(out.mode, m),
                        quit: out.quit || spec_is_quit(m),
                    },
                ),
            },
        }),
    decreases ms.len(),
{
    if ms.len() == 0 {
        assert(ms.push(m).drop_first() =~= Seq::<FrameV>::empty());
        assert(ms.push(m)[0] == m);
        assert(ms =~= Seq::<FrameV>::empty());
        assert(spec_enqueue(mode, ms) == Some(
            EnqOutV { pieces: Seq::<PieceM>::empty(), mode, quit: false },
        ));
        assert(spec_enqueue(spec_mode_after(mode, m), Seq::<FrameV>::empty()) == Some(
            EnqOutV {
                pieces: Seq::<PieceM>::empty(),
                mode: spec_mode_after(mode, m),
                quit: false,
            },
        ));
        match spec_classify(m) {
            None => {},
            Some(ps) => {
                assert(mark_muted(ps, spec_mute(mode, m)) + Seq::<PieceM>::empty() =~= mark_muted(
                    ps,
                    spec_mute(mode, m),
                ));
                assert(Seq::<PieceM>::empty() + mark_muted(ps, spec_mute(mode, m)) =~= mark_muted(
                    ps,
                    spec_mute(mode, m),
                ));
                assert(spec_enqueue(mode, ms.push(m)) =~= (match spec_enqueue(mode, ms) {
                    None => None::<EnqOutV>,
                    Some(out) => match spec_classify(m) {
                        None => None::<EnqOutV>,
                        Some(ps2) => Some(
                            EnqOutV {
                                pieces: out.pieces + mark_muted(ps2, spec_mute(out.mode, m)),
                                mode: spec_mode_after(out.mode, m),
                                quit: out.quit || spec_is_quit(m),
                            },
                        ),
                    },
                }));
            },
        }
    } else {
        assert(ms.push(m).drop_first() =~= ms.drop_first().push(m));
        assert(ms.push(m)[0] == ms[0]);
        lemma_spec_enqueue_push(spec_mode_after(mode, ms[0]), ms.drop_first(), m);
        match spec_classify(ms[0]) {
            None => {},
            Some(h) => {
                match spec_enqueue(spec_mode_after(mode, ms[0]), ms.drop_first()) {
                    None => {},
                    Some(rest) => {
                        match spec_classify(m) {
                            None => {},
                            Some(p) => {
                                let hm = mark_muted(h, spec_mute(mode, ms[0]));
                                let pm = mark_muted(p, spec_mute(rest.mode, m));
                                assert(hm + (rest.pieces + pm) =~= (hm + rest.pieces) + pm);
                                assert(spec_enqueue(mode, ms.push(m)) =~= (match spec_enqueue(
                                    mode,
                                    ms,
                                ) {
                                    None => None::<EnqOutV>,
                                    Some(out) => match spec_classify(m) {
                                        None => None::<EnqOutV>,
                                        Some(ps2) => Some(
                                            EnqOutV {
                                                pieces: out.pieces + mark_muted(
                                                    ps2,
                                                    spec_mute(out.mode, m),
                                                ),
                                                mode: spec_mode_after(out.mode, m),
                                                quit: out.quit || spec_is_quit(m),
                                            },
                                        ),
                                    },
                                }));
                            },
                        }
                    },
                }
            },
        }
    }
}

/// If a prefix of the batch cannot be taken in, the batch cannot.
pub proof fn lemma_spec_enqueue_none(mode: ReplyDirective, ms: Seq<FrameV>, n: int)
    requires
        0 <= n <= ms.len(),
        spec_enqueue(mode, ms.take(n)) is None,
    ensures
        spec_enqueue(mode, ms) is None,
    decreases ms.len(),
{
    if n == 0 {
        assert(ms.take(0) =~= Seq::<FrameV>::empty());
    } else {
        assert(ms.take(n)[0] == ms[0]);
        if spec_classify(ms[0]) is Some {
            assert(ms.take(n).drop_first() =~= ms.drop_first().take(n - 1));
            lemma_spec_enqueue_none(spec_mode_after(mode, ms[0]), ms.drop_first(), n - 1);
        }
    }
}

/// The states of a tagged piece sequence.
pub open spec fn states_of_pieces(ps: Seq<PieceM>) -> Seq<StateV> {
    ps.map_values(|p: PieceM| p.0)
}

/// The pieces of one classified frame form complete groups.
pub proof fn lemma_classify_groups(f: FrameV)
    requires
        spec_classify(f) is Some,
    ensures
        groups_wf(spec_classify(f).unwrap().map_values(|p: (StateV, FrameV)| p.0)),
{
    let ps = spec_classify(f).unwrap();
    let sts = ps.map_values(|p: (StateV, FrameV)| p.0);
    assert forall|i: int| 0 <= i < sts.len() implies #[trigger] group_ok_at(sts, i) by {
        match sts[i] {
            StateV::Fragmented(op, idx, cnt) => {
                assert forall|j: int| 0 <= j < cnt implies #[trigger] sts[i - idx + j]
                    == StateV::Fragmented(op, j, cnt) by {
                }
            },
            _ => {},
        }
    }
}

/// The pieces of a whole batch form complete groups.
pub proof fn lemma_enqueue_groups(mode: ReplyDirective, ms: Seq<FrameV>)
    requires
        spec_enqueue(mode, ms) is Some,
    ensures
        groups_wf(states_of_pieces(spec_enqueue(mode, ms).unwrap().pieces)),
    decreases ms.len(),
{
    let out = spec_enqueue(mode, ms).unwrap();
    if ms.len() == 0 {
        assert(states_of_pieces(out.pieces) =~= Seq::<StateV>::empty());
    } else {
        let ps = spec_classify(ms[0]).unwrap();
        let rest = spec_enqueue(spec_mode_after(mode, ms[0]), ms.drop_first()).unwrap();
        lemma_classify_groups(ms[0]);
        lemma_enqueue_groups(spec_mode_after(mode, ms[0]), ms.drop_first());
        let a = ps.map_values(|p: (StateV, FrameV)| p.0);
        let b = states_of_pieces(rest.pieces);
        assert(states_of_pieces(mark_muted(ps, spec_mute(mode, ms[0]))) =~= a);
        lemma_groups_concat(a, b);
        assert(states_of_pieces(out.pieces) =~= a + b);
    }
}

/// The slot identifiers of a slot view sequence, in order.
pub open spec fn ids_of(ss: Seq<SlotV>) -> Seq<usize> {
    ss.map_values(|s: SlotV| s.id)
}

/// The sub-requests actually dispatched for a piece sequence: every
/// piece except the inline ones, paired with its assigned slot
/// identifier.
pub open spec fn dispatch_of(ps: Seq<PieceM>, ids: Seq<usize>) -> Seq<(usize, FrameV)>
    decreases ps.len(),
{
    if ps.len() == 0 {
        Seq::empty()
    } else {
        let rest = dispatch_of(ps.drop_first(), ids.drop_first());
        if ps[0].0 is Inline {
            rest
        } else {
            seq![(ids[0], ps[0].1)] + rest
        }
    }
}

/// Dispatching one more piece appends its entry unless it is inline.
pub proof fn lemma_dispatch_push(ps: Seq<PieceM>, ids: Seq<usize>, p: PieceM, id: usize)
    requires
        ps.len() == ids.len(),
    ensures
        dispatch_of(ps.push(p), ids.push(id)) == dispatch_of(ps, ids) + (if p.0 is Inline {
            Seq::<(usize, FrameV)>::empty()
        } else {
            seq![(id, p.1)]
        }),
    decreases ps.len(),
{
    if ps.len() == 0 {
        assert(ps.push(p).drop_first() =~= Seq::<PieceM>::empty());
        assert(ids.push(id).drop_first() =~= Seq::<usize>::empty());
        assert(ps.push(p)[0] == p);
        assert(ids.push(id)[0] == id);
        assert(dispatch_of(Seq::<PieceM>::empty(), Seq::<usize>::empty()) =~= Seq::<(
            usize,
            FrameV,
        )>::empty());
        assert(ps =~= Seq::<PieceM>::empty());
        assert(ids =~= Seq::<usize>::empty());
        if p.0 is Inline {
            assert(dispatch_of(ps.push(p), ids.push(id)) =~= dispatch_of(ps, ids) + Seq::<(
                usize,
                FrameV,
            )>::empty());
        } else {
            assert(dispatch_of(ps.push(p), ids.push(id)) =~= seq![(id, p.1)]);
            assert(dispatch_of(ps, ids) + seq![(id, p.1)] =~= seq![(id, p.1)]);
        }
    } else {
        assert(ps.push(p).drop_first() =~= ps.drop_first().push(p));
        assert(ids.push(id).drop_first() =~= ids.drop_first().push(id));
        assert(ps.push(p)[0] == ps[0]);
        assert(ids.push(id)[0] == ids[0]);
        lemma_dispatch_push(ps.drop_first(), ids.drop_first(), p, id);
        let tailnew = dispatch_of(ps.drop_first().push(p), ids.drop_first().push(id));
        let tail = dispatch_of(ps.drop_first(), ids.drop_first());
        let ext: Seq<(usize, FrameV)> = if p.0 is Inline {
            Seq::empty()
        } else {
            seq![(id, p.1)]
        };
        assert(tailnew == tail + ext);
        if ps[0].0 is Inline {
            assert(dispatch_of(ps.push(p), ids.push(id)) == tailnew);
        } else {
            assert(seq![(ids[0], ps[0].1)] + (tail + ext) =~= (seq![(ids[0], ps[0].1)] + tail)
                + ext);
        }
    }
}


/// A dispatchable batch: slot identifier paired with the sub-request.
pub type AssignedBatch = Vec<(usize, RespFrame)>;

/// The view of an assigned batch.
pub open spec fn batch_view(b: Seq<(usize, RespFrame)>) -> Seq<(usize, FrameV)> {
    b.map_values(|p: (usize, RespFrame)| (p.0, p.1@))
}

impl MessageQueue {
    /// Take in a batch of client frames.
    ///
    /// Every frame is fragmented into its pieces; each piece gets a
    /// fresh slot at the tail of the queue.  Inline pieces are born
    /// with their reply installed and are never dispatched; every
    /// other piece is returned, paired with its slot identifier, for
    /// the router to dispatch.  The per-connection reply mode advances
    /// over the batch and decides which slots are muted; a
    /// connection-close request latches `close_pending`.
    ///
    /// A frame that is not a command at all rejects the whole batch
    /// and leaves the queue untouched.
    pub fn enqueue(&mut self, msgs: Vec<RespFrame>) -> (r: Result<AssignedBatch, ProcessorError>)
        requires
            old(self).wf(),
        ensures
            final(self).wf(),
            (r is Err ==> *final(self) == *old(self) && spec_enqueue(
                old(self).reply_mode,
                frames_view(msgs@),
            ) is None),
            (r matches Ok(batch) ==> {
                let out = spec_enqueue(old(self).reply_mode, frames_view(msgs@)).unwrap();
                let oldn = old(self).view_slots().len() as int;
                &&& spec_enqueue(old(self).reply_mode, frames_view(msgs@)) is Some
                &&& final(self).reply_mode == out.mode
                &&& final(self).close_pending == (old(self).close_pending || out.quit)
                &&& final(self).view_slots().len() == oldn + out.pieces.len()
                &&& final(self).view_slots().take(oldn) == old(self).view_slots()
                &&& (forall|k: int|
                    0 <= k < out.pieces.len() ==> {
                        let s = #[trigger] final(self).view_slots()[oldn + k];
                        &&& s.state == out.pieces[k].0
                        &&& s.muted == out.pieces[k].2
                        &&& s.payload == (if out.pieces[k].0 is Inline {
                            Some(out.pieces[k].1)
                        } else {
                            None::<FrameV>
                        })
                        &&& !old(self).view_ids().contains(s.id)
                    })
                &&& batch_view(batch@) == dispatch_of(
                    out.pieces,
                    ids_of(final(self).view_slots().skip(oldn)),
                )
            }),
    {
        let ghost ms = frames_view(msgs@);
        let ghost mode0 = self.reply_mode;
        // First pass: make sure every frame classifies, committing
        // nothing, so a bad batch leaves the queue untouched.
        let mut i: usize = 0;
        while i < msgs.len()
            invariant
                i <= msgs@.len(),
                ms == frames_view(msgs@),
                mode0 == old(self).reply_mode,
                spec_enqueue(mode0, ms.take(i as int)) is Some,
                *self == *old(self),
                self.wf(),
            decreases msgs@.len() - i,
        {
            proof {
                assert(msgs@[i as int]@ == ms[i as int]);
                assert(ms.take(i as int).push(ms[i as int]) =~= ms.take(i as int + 1));
                lemma_spec_enqueue_push(mode0, ms.take(i as int), ms[i as int]);
            }
            match classify_message(&msgs[i]) {
                Ok(_) => {},
                Err(e) => {
                    proof {
                        assert(spec_classify(ms[i as int]) is None);
                        assert(spec_enqueue(mode0, ms.take(i as int + 1)) is None);
                        lemma_spec_enqueue_none(mode0, ms, i as int + 1);
                        assert(spec_enqueue(mode0, ms) is None);
                        assert(mode0 == old(self).reply_mode);
                        assert(ms == frames_view(msgs@));
                    }
                    return Err(e);
                },
            }
            i = i + 1;
        }
        proof {
            assert(ms.take(msgs@.len() as int) =~= ms);
        }
        // Second pass: assign slots and build the dispatch batch.
        let ghost oldslots = self.view_slots();
        let ghost oldids = self.view_ids();
        let ghost oldn = oldslots.len() as int;
        let mut batch: Vec<(usize, RespFrame)> = Vec::new();
        let mut mode = self.reply_mode;
        let mut quit = false;
        let ghost mut gp: Seq<PieceM> = Seq::empty();
        let mut i: usize = 0;
        while i < msgs.len()
            invariant
                i <= msgs@.len(),
                ms == frames_view(msgs@),
                mode0 == old(self).reply_mode,
                oldslots == old(self).view_slots(),
                oldids == old(self).view_ids(),
                spec_enqueue(mode0, ms) is Some,
                spec_enqueue(mode0, ms.take(i as int)) == Some(
                    EnqOutV { pieces: gp, mode, quit },
                ),
                self.view_slots().len() == oldn + gp.len(),
                self.view_slots().take(oldn) == oldslots,
                oldn == oldslots.len(),
                forall|k: int|
                    0 <= k < gp.len() ==> {
                        let s = #[trigger] self.view_slots()[oldn + k];
                        &&& s.state == gp[k].0
                        &&& s.muted == gp[k].2
                        &&& s.payload == (if gp[k].0 is Inline {
                            Some(gp[k].1)
                        } else {
                            None::<FrameV>
                        })
                        &&& !oldids.contains(s.id)
                    },
                batch_view(batch@) == dispatch_of(gp, ids_of(self.view_slots().skip(oldn))),
                forall|a: int, b: int|
                    0 <= a < b < self.view_slots().len() ==> self.view_slots()[a].id
                        != self.view_slots()[b].id,
                forall|a: int|
                    0 <= a < self.view_slots().len() ==> self.view_ids().contains(
                        #[trigger] self.view_slots()[a].id,
                    ),
                self.view_ids().finite(),
                oldids.subset_of(self.view_ids()),
                forall|a: int|
                    0 <= a < self.view_slots().len() && (#[trigger] self.view_slots()[a].state)
                        is Inline ==> self.view_slots()[a].payload is Some,
                self.reply_mode == mode0,
                self.close_pending == old(self).close_pending,
            decreases msgs@.len() - i,
        {
            let muted = mute_decision(&msgs[i], mode);
            let q = is_quit(&msgs[i]);
            let newmode = mode_after(&msgs[i], mode);
            proof {
                assert(msgs@[i as int]@ == ms[i as int]);
                assert(ms.take(i as int).push(ms[i as int]) =~= ms.take(i as int + 1));
                lemma_spec_enqueue_push(mode0, ms.take(i as int), ms[i as int]);
            }
            match classify_message(&msgs[i]) {
                Err(_) => {
                    proof {
                        lemma_spec_enqueue_none(mode0, ms, i as int + 1);
                        assert(false);
                    }
                    return Err(ProcessorError::InvalidRequest);
                },
                Ok(mut ps) => {
                    let ghost psv = pieces_view(ps@);
                    let ghost total = psv.len() as int;
                    let ghost gp_entry = gp;
                    while ps.len() > 0
                        invariant
                            ms == frames_view(msgs@),
                            mode0 == old(self).reply_mode,
                            oldslots == old(self).view_slots(),
                            oldids == old(self).view_ids(),
                            ps@.len() <= total,
                            total == psv.len(),
                            pieces_view(ps@) == psv.skip(total - ps@.len()),
                            gp == gp_entry + mark_muted(psv, muted).take(total - ps@.len()),
                            self.view_slots().len() == oldn + gp.len(),
                            self.view_slots().take(oldn) == oldslots,
                            oldn == oldslots.len(),
                            forall|k: int|
                                0 <= k < gp.len() ==> {
                                    let s = #[trigger] self.view_slots()[oldn + k];
                                    &&& s.state == gp[k].0
                                    &&& s.muted == gp[k].2
                                    &&& s.payload == (if gp[k].0 is Inline {
                                        Some(gp[k].1)
                                    } else {
                                        None::<FrameV>
                                    })
                                    &&& !oldids.contains(s.id)
                                },
                            batch_view(batch@) == dispatch_of(
                                gp,
                                ids_of(self.view_slots().skip(oldn)),
                            ),
                            forall|a: int, b: int|
                                0 <= a < b < self.view_slots().len() ==> self.view_slots()[a].id
                                    != self.view_slots()[b].id,
                            forall|a: int|
                                0 <= a < self.view_slots().len() ==> self.view_ids().contains(
                                    #[trigger] self.view_slots()[a].id,
                                ),
                            self.view_ids().finite(),
                            oldids.subset_of(self.view_ids()),
                            forall|a: int|
                                0 <= a < self.view_slots().len() && (
                                #[trigger] self.view_slots()[a].state) is Inline
                                    ==> self.view_slots()[a].payload is Some,
                            self.reply_mode == mode0,
                            self.close_pending == old(self).close_pending,
                        decreases ps@.len(),
                    {
                        let ghost done = total - ps@.len();
                        let ghost slots_before = self.view_slots();
                        let ghost batch_before = batch@;
                        let piece = ps.remove(0);
                        proof {
                            assert((piece.0@, piece.1@) == psv.skip(done)[0]);
                            assert(psv.skip(done)[0] == psv[done]);
                            assert(pieces_view(ps@) =~= psv.skip(done).drop_first());
                            assert(psv.skip(done).drop_first() =~= psv.skip(done + 1));
                        }
                        let st = piece.0;
                        let fr = piece.1;
                        let id = slab_insert(&mut self.ids);
                        let inline = matches!(st, MessageState::Inline);
                        let ghost newpiece: PieceM = (st@, fr@, muted);
                        if inline {
                            self.slots.push(Slot { id, state: st, muted, payload: Some(fr) });
                        } else {
                            self.slots.push(Slot { id, state: st, muted, payload: None });
                            batch.push((id, fr));
                        }
                        proof {
                            let newslot = self.view_slots()[self.view_slots().len() - 1];
                            assert(self.view_slots() =~= slots_before.push(newslot));
                            assert(newslot.id == id && newslot.state == st@ && newslot.muted
                                == muted);
                            assert(mark_muted(psv, muted)[done] == newpiece);
                            assert(mark_muted(psv, muted).take(done).push(newpiece) =~= mark_muted(
                                psv,
                                muted,
                            ).take(done + 1));
                            gp = gp.push(newpiece);
                            assert(gp =~= gp_entry + mark_muted(psv, muted).take(done + 1));
                            assert(self.view_slots().take(oldn) =~= slots_before.take(oldn));
                            // the dispatch correspondence advances by one piece
                            let previds = ids_of(slots_before.skip(oldn));
                            let newids = ids_of(self.view_slots().skip(oldn));
                            assert(self.view_slots().skip(oldn) =~= slots_before.skip(oldn).push(
                                newslot,
                            ));
                            assert(newids =~= previds.push(id));
                            lemma_dispatch_push(gp.drop_last(), previds, newpiece, id);
                            assert(gp.drop_last() =~= gp_entry + mark_muted(psv, muted).take(done));
                            if inline {
                                assert(batch_view(batch@) =~= dispatch_of(gp, newids));
                            } else {
                                assert(batch@ =~= batch_before.push((id, fr)));
                                assert(batch_view(batch@) =~= batch_view(batch_before).push(
                                    (id, fr@),
                                ));
                                assert(batch_view(batch@) =~= dispatch_of(gp, newids));
                            }
                        }
                    }
                    proof {
                        assert(mark_muted(psv, muted).take(total) =~= mark_muted(psv, muted));
                        assert(gp =~= gp_entry + mark_muted(psv, muted));
                    }
                    quit = quit || q;
                    mode = newmode;
                    proof {
                        assert(spec_enqueue(mode0, ms.take(i as int + 1)) == Some(
                            EnqOutV { pieces: gp, mode, quit },
                        ));
                    }
                },
            }
            i = i + 1;
        }
        proof {
            assert(ms.take(msgs@.len() as int) =~= ms);
        }
        self.reply_mode = mode;
        self.close_pending = self.close_pending || quit;
        proof {
            let out = spec_enqueue(mode0, ms).unwrap();
            assert(out == EnqOutV { pieces: gp, mode, quit });
            lemma_enqueue_groups(mode0, ms);
            let fs = self.view_slots();
            assert(fs.len() == oldn + gp.len());
            assert forall|k: int|
                0 <= k < fs.len() implies #[trigger] states_of(fs)[k] == (states_of(oldslots)
                + states_of_pieces(out.pieces))[k] by {
                if k < oldn {
                    assert(fs.take(oldn)[k] == oldslots[k]);
                    assert(fs[k] == oldslots[k]);
                } else {
                    assert(fs[oldn + (k - oldn)].state == gp[k - oldn].0);
                }
            }
            assert(states_of(fs) =~= states_of(oldslots) + states_of_pieces(out.pieces));
            lemma_groups_concat(states_of(oldslots), states_of_pieces(out.pieces));
            assert(self.view_slots().take(oldn) =~= oldslots);
        }
        Ok(batch)
    }
}


/// The outcome a router reports for one slot.
pub enum MessageResponse {
    /// The sub-request was dropped before any response arrived.
    Failed,
    /// The backend answered with this frame.
    Complete(RespFrame),
}

/// Mathematical shape of a slot outcome.
#[verifier::ext_equal]
pub enum MsgRespV {
    Failed,
    Complete(FrameV),
}

impl View for MessageResponse {
    type V = MsgRespV;

    open spec fn view(&self) -> MsgRespV {
        match self {
            MessageResponse::Failed => MsgRespV::Failed,
            MessageResponse::Complete(f) => MsgRespV::Complete(f@),
        }
    }
}

/// A fulfilment batch: slot identifier paired with its outcome.
pub type FulfilledBatch = Vec<(usize, MessageResponse)>;

/// The view of a fulfilment batch.
pub open spec fn fbatch_view(b: Seq<(usize, MessageResponse)>) -> Seq<(usize, MsgRespV)> {
    b.map_values(|p: (usize, MessageResponse)| (p.0, p.1@))
}

/// The frame installed for an outcome: the response itself, or the
/// protocol error substituted for a failed sub-request, so the client
/// always sees a valid reply.
pub open spec fn resolved(r: MsgRespV) -> FrameV {
    match r {
        MsgRespV::Failed => failed_view(),
        MsgRespV::Complete(f) => f,
    }
}

/// The position of the slot with the given identifier, or -1.
pub open spec fn idx_of_id(ss: Seq<SlotV>, id: usize) -> int
    decreases ss.len(),
{
    if ss.len() == 0 {
        -1
    } else if ss[0].id == id {
        0
    } else {
        let r = idx_of_id(ss.drop_first(), id);
        if r < 0 {
            -1
        } else {
            r + 1
        }
    }
}

/// The slot sequence with position `i` filled with frame `f`.
pub open spec fn fill_at(ss: Seq<SlotV>, i: int, f: FrameV) -> Seq<SlotV> {
    ss.update(i, SlotV { payload: Some(f), ..ss[i] })
}

/// The effect of installing a fulfilment batch, entry by entry:
/// nothing if any entry names a slot that does not exist.
pub open spec fn spec_fulfill(ss: Seq<SlotV>, batch: Seq<(usize, MsgRespV)>) -> Option<
    Seq<SlotV>,
>
    decreases batch.len(),
{
    if batch.len() == 0 {
        Some(ss)
    } else {
        let i = idx_of_id(ss, batch[0].0);
        if i < 0 {
            None
        } else {
            spec_fulfill(fill_at(ss, i, resolved(batch[0].1)), batch.drop_first())
        }
    }
}

/// A found position really is the first occurrence of the identifier.
pub proof fn lemma_idx_of_id_found(ss: Seq<SlotV>, id: usize, j: int)
    requires
        0 <= j < ss.len(),
        ss[j].id == id,
        forall|a: int| 0 <= a < j ==> (#[trigger] ss[a]).id != id,
    ensures
        idx_of_id(ss, id) == j,
    decreases ss.len(),
{
    if j == 0 {
    } else {
        assert(ss[0].id != id);
        assert(ss.drop_first()[j - 1] == ss[j]);
        assert forall|a: int| 0 <= a < j - 1 implies (#[trigger] ss.drop_first()[a]).id != id by {
            assert(ss.drop_first()[a] == ss[a + 1]);
        }
        lemma_idx_of_id_found(ss.drop_first(), id, j - 1);
    }
}

/// An identifier held by no slot is not found.
pub proof fn lemma_idx_of_id_missing(ss: Seq<SlotV>, id: usize)
    requires
        forall|a: int| 0 <= a < ss.len() ==> (#[trigger] ss[a]).id != id,
    ensures
        idx_of_id(ss, id) == -1,
    decreases ss.len(),
{
    if ss.len() > 0 {
        assert forall|a: int|
            0 <= a < ss.drop_first().len() implies (#[trigger] ss.drop_first()[a]).id != id by {
            assert(ss.drop_first()[a] == ss[a + 1]);
        }
        lemma_idx_of_id_missing(ss.drop_first(), id);
    }
}

/// Installing one more outcome fills one more slot.
pub proof fn lemma_spec_fulfill_push(
    ss: Seq<SlotV>,
    batch: Seq<(usize, MsgRespV)>,
    x: (usize, MsgRespV),
)
    ensures
        spec_fulfill(ss, batch.push(x)) == (match spec_fulfill(ss, batch) {
            None => None::<Seq<SlotV>>,
            Some(cur) => {
                let i = idx_of_id(cur, x.0);
                if i < 0 {
                    None::<Seq<SlotV>>
                } else {
                    Some(fill_at(cur, i, resolved(x.1)))
                }
            },
        }),
    decreases batch.len(),
{
    if batch.len() == 0 {
        assert(batch.push(x).drop_first() =~= Seq::<(usize, MsgRespV)>::empty());
        assert(batch.push(x)[0] == x);
        let i = idx_of_id(ss, x.0);
        if i >= 0 {
            assert(spec_fulfill(fill_at(ss, i, resolved(x.1)), Seq::empty()) == Some(
                fill_at(ss, i, resolved(x.1)),
            ));
        }
    } else {
        assert(batch.push(x).drop_first() =~= batch.drop_first().push(x));
        assert(batch.push(x)[0] == batch[0]);
        let i = idx_of_id(ss, batch[0].0);
        if i >= 0 {
            lemma_spec_fulfill_push(fill_at(ss, i, resolved(batch[0].1)), batch.drop_first(), x);
        }
    }
}

impl MessageQueue {
    /// Install a batch of outcomes into their slots.
    ///
    /// Each entry names a slot by identifier; the slot receives the
    /// response, or the substituted error reply for a failed
    /// sub-request.  An entry naming a slot that does not exist is a
    /// routing fault: the call stops there and reports the error, with
    /// the earlier entries already installed.  Slot order, states and
    /// identifiers never change.
    pub fn fulfill(&mut self, batch: FulfilledBatch) -> (r: Result<(), ()>)
        requires
            old(self).wf(),
        ensures
            final(self).wf(),
            final(self).reply_mode == old(self).reply_mode,
            final(self).close_pending == old(self).close_pending,
            final(self).view_ids() == old(self).view_ids(),
            ids_of(final(self).view_slots()) == ids_of(old(self).view_slots()),
            states_of(final(self).view_slots()) == states_of(old(self).view_slots()),
            (r is Ok ==> spec_fulfill(old(self).view_slots(), fbatch_view(batch@)) == Some(
                final(self).view_slots(),
            )),
            (r is Err ==> spec_fulfill(old(self).view_slots(), fbatch_view(batch@)) is None
                && exists|j: int|
                0 <= j <= fbatch_view(batch@).len() && spec_fulfill(
                    old(self).view_slots(),
                    fbatch_view(batch@).take(j),
                ) == Some(final(self).view_slots())),
    {
        let ghost orig = self.view_slots();
        let ghost bv = fbatch_view(batch@);
        let mut i: usize = 0;
        while i < batch.len()
            invariant
                i <= batch@.len(),
                orig == old(self).view_slots(),
                bv == fbatch_view(batch@),
                spec_fulfill(orig, bv.take(i as int)) == Some(self.view_slots()),
                self.wf(),
                self.view_ids() == old(self).view_ids(),
                ids_of(self.view_slots()) == ids_of(orig),
                states_of(self.view_slots()) == states_of(orig),
                self.reply_mode == old(self).reply_mode,
                self.close_pending == old(self).close_pending,
            decreases batch@.len() - i,
        {
            let ghost done = i as int;
            proof {
                assert((batch@[done].0, batch@[done].1@) == bv[done]);
                assert(bv.take(done).push(bv[done]) =~= bv.take(done + 1));
                lemma_spec_fulfill_push(orig, bv.take(done), bv[done]);
            }
            let id = batch[i].0;
            let frame = match &batch[i].1 {
                MessageResponse::Complete(f) => dup_frame(f),
                MessageResponse::Failed => failed_frame(),
            };
            proof {
                assert(frame@ == resolved(bv[done].1));
            }
            let ghost cur = self.view_slots();
            match find_slot(&self.slots, id) {
                None => {
                    proof {
                        lemma_idx_of_id_missing(cur, id);
                        assert(idx_of_id(cur, bv[done].0) == -1);
                        assert(spec_fulfill(orig, bv.take(done + 1)) is None);
                        lemma_spec_fulfill_none(orig, bv, done + 1);
                        assert(spec_fulfill(orig, bv) is None);
                        assert(0 <= done <= bv.len() && spec_fulfill(orig, bv.take(done)) == Some(
                            self.view_slots(),
                        ));
                    }
                    return Err(());
                },
                Some(j) => {
                    proof {
                        lemma_idx_of_id_found(cur, id, j as int);
                    }
                    let slot = self.slots.remove(j);
                    let filled = Slot {
                        id: slot.id,
                        state: slot.state,
                        muted: slot.muted,
                        payload: Some(frame),
                    };
                    self.slots.insert(j, filled);
                    proof {
                        assert(self.view_slots() =~= fill_at(cur, j as int, resolved(bv[done].1)));
                        let nw = self.view_slots();
                        assert(ids_of(nw) =~= ids_of(cur));
                        assert(states_of(nw) =~= states_of(cur));
                        assert forall|a: int|
                            0 <= a < nw.len() && (#[trigger] nw[a].state) is Inline implies nw[a]
                            .payload is Some by {
                            if a != j as int {
                                assert(nw[a] == cur[a]);
                            }
                        }
                        assert forall|a: int, b: int|
                            0 <= a < b < nw.len() implies nw[a].id != nw[b].id by {
                            assert(ids_of(nw)[a] == nw[a].id && ids_of(cur)[a] == cur[a].id);
                            assert(ids_of(nw)[b] == nw[b].id && ids_of(cur)[b] == cur[b].id);
                        }
                        assert forall|a: int|
                            0 <= a < nw.len() implies self.view_ids().contains(
                            #[trigger] nw[a].id) by {
                            assert(ids_of(nw)[a] == nw[a].id && ids_of(cur)[a] == cur[a].id);
                        }
                    }
                },
            }
            i = i + 1;
        }
        proof {
            assert(bv.take(bv.len() as int) =~= bv);
        }
        Ok(())
    }
}

/// Find the position of the slot holding the given identifier.
fn find_slot(slots: &Vec<Slot>, id: usize) -> (r: Option<usize>)
    ensures
        (r matches Some(j) ==> j < slots@.len() && slots_view(slots@)[j as int].id == id && forall|
            a: int,
        | 0 <= a < j ==> (#[trigger] slots_view(slots@)[a]).id != id),
        (r is None ==> forall|a: int|
            0 <= a < slots@.len() ==> (#[trigger] slots_view(slots@)[a]).id != id),
{
    let mut j: usize = 0;
    while j < slots.len()
        invariant
            j <= slots@.len(),
            forall|a: int| 0 <= a < j ==> (#[trigger] slots_view(slots@)[a]).id != id,
        decreases slots@.len() - j,
    {
        if slots[j].id == id {
            proof {
                assert(slots_view(slots@)[j as int].id == id);
            }
            return Some(j);
        }
        proof {
            assert(slots_view(slots@)[j as int].id != id);
        }
        j = j + 1;
    }
    None
}

/// If a prefix of the batch cannot be installed, the batch cannot.
pub proof fn lemma_spec_fulfill_none(ss: Seq<SlotV>, batch: Seq<(usize, MsgRespV)>, n: int)
    requires
        0 <= n <= batch.len(),
        spec_fulfill(ss, batch.take(n)) is None,
    ensures
        spec_fulfill(ss, batch) is None,
    decreases batch.len(),
{
    if n == 0 {
        assert(batch.take(0) =~= Seq::<(usize, MsgRespV)>::empty());
    } else {
        assert(batch.take(n)[0] == batch[0]);
        let i = idx_of_id(ss, batch[0].0);
        if i >= 0 {
            assert(batch.take(n).drop_first() =~= batch.drop_first().take(n - 1));
            lemma_spec_fulfill_none(
                fill_at(ss, i, resolved(batch[0].1)),
                batch.drop_first(),
                n - 1,
            );
        }
    }
}


/// The view of an emitted buffer list.
pub open spec fn bufs_view(b: Seq<Vec<u8>>) -> Seq<Seq<u8>> {
    b.map_values(|v: Vec<u8>| v@)
}

/// The bytes one unfragmented slot emits: its reply frame, preceded by
/// the parent header on the first streaming fragment.
pub open spec fn emit_bytes(s: SlotV) -> Seq<u8> {
    match s.state {
        StateV::StreamingFragmented(Some(h)) => h + enc_frame(s.payload.unwrap()),
        _ => enc_frame(s.payload.unwrap()),
    }
}

/// Whether the first `cnt` slots are all filled.
pub open spec fn group_filled(ss: Seq<SlotV>, cnt: int) -> bool {
    forall|j: int| 0 <= j < cnt ==> (#[trigger] ss[j]).payload is Some
}

/// The replies installed in the first `cnt` slots.
pub open spec fn group_payloads(ss: Seq<SlotV>, cnt: int) -> Seq<FrameV> {
    Seq::new(cnt as nat, |j: int| ss[j].payload.unwrap())
}

/// What the head of the queue emits in one step: the buffers written
/// (none for a muted slot) and the number of slots consumed, or
/// nothing when the head is absent, unfilled, or an incomplete
/// fragment group.
pub open spec fn slot_emission(ss: Seq<SlotV>) -> Option<(Seq<Seq<u8>>, int)> {
    if ss.len() == 0 {
        None
    } else if !(ss[0].payload is Some) {
        None
    } else {
        match ss[0].state {
            StateV::Fragmented(op, idx, cnt) => if 1 <= cnt <= ss.len() && group_filled(ss, cnt) {
                Some(
                    (
                        if ss[0].muted {
                            Seq::<Seq<u8>>::empty()
                        } else {
                            seq![enc_frame(spec_defrag(op, group_payloads(ss, cnt)))]
                        },
                        cnt,
                    ),
                )
            } else {
                None
            },
            _ => Some(
                (
                    if ss[0].muted {
                        Seq::<Seq<u8>>::empty()
                    } else {
                        seq![emit_bytes(ss[0])]
                    },
                    1,
                ),
            ),
        }
    }
}

/// Everything the queue emits by repeating head emission until it
/// stops: the buffers in order and the total slots consumed.
pub open spec fn spec_drain(ss: Seq<SlotV>) -> (Seq<Seq<u8>>, int)
    decreases ss.len(),
{
    match slot_emission(ss) {
        None => (Seq::<Seq<u8>>::empty(), 0),
        Some((bufs, k)) => if 1 <= k <= ss.len() {
            let rest = spec_drain(ss.skip(k));
            (bufs + rest.0, k + rest.1)
        } else {
            (bufs, k)
        },
    }
}

/// Releasing the next consumed identifier advances the key set by one
/// position of the consumed prefix.
pub proof fn lemma_keys_step(oldids: Set<usize>, orig: Seq<SlotV>, consumed: int, keys: Set<usize>)
    requires
        0 <= consumed < orig.len(),
        keys == oldids.difference(ids_of(orig.take(consumed)).to_set()),
    ensures
        keys.remove(orig[consumed].id) == oldids.difference(
            ids_of(orig.take(consumed + 1)).to_set(),
        ),
{
    let t0 = ids_of(orig.take(consumed));
    let t1 = ids_of(orig.take(consumed + 1));
    let id = orig[consumed].id;
    assert forall|x: usize| #[trigger] t1.contains(x) implies t0.contains(x) || x == id by {
        let a = choose|a: int| 0 <= a < t1.len() && t1[a] == x;
        if a < consumed {
            assert(t0[a] == orig.take(consumed)[a].id);
            assert(t0[a] == x);
        } else {
            assert(t1[a] == orig.take(consumed + 1)[a].id);
            assert(x == id);
        }
    }
    assert forall|x: usize| t0.contains(x) implies #[trigger] t1.contains(x) by {
        let a = choose|a: int| 0 <= a < t0.len() && t0[a] == x;
        assert(t1[a] == orig.take(consumed + 1)[a].id);
        assert(t1[a] == x);
    }
    assert(t1.contains(id)) by {
        assert(t1[consumed] == orig.take(consumed + 1)[consumed].id);
    }
    assert(keys.remove(id) =~= oldids.difference(t1.to_set()));
}

impl MessageQueue {
    /// Pop every head slot that is ready and hand back the bytes to
    /// write, in request order.
    ///
    /// Returns nothing while the head slot is absent or still waiting
    /// for its response.  Otherwise it emits from the head until the
    /// first slot that is not ready: standalone, inline and streaming
    /// slots one at a time, a fragment group only once all its
    /// fragments are filled, coalesced into its single parent reply.
    /// Every emitted slot leaves the queue and its identifier returns
    /// to the allocator; a muted slot is consumed the same way but
    /// contributes no bytes.
    #[verifier::rlimit(100)]
    pub fn get_sendable_bufs(&mut self) -> (r: Option<Vec<Vec<u8>>>)
        requires
            old(self).wf(),
        ensures
            final(self).wf(),
            final(self).reply_mode == old(self).reply_mode,
            final(self).close_pending == old(self).close_pending,
            (r is None ==> *final(self) == *old(self) && (old(self).view_slots().len() == 0 || old(
                self,
            ).view_slots()[0].payload is None)),
            (r matches Some(bufs) ==> {
                &&& old(self).view_slots().len() > 0
                &&& old(self).view_slots()[0].payload is Some
                &&& bufs_view(bufs@) == spec_drain(old(self).view_slots()).0
                &&& final(self).view_slots() == old(self).view_slots().skip(
                    spec_drain(old(self).view_slots()).1,
                )
                &&& final(self).view_ids() == old(self).view_ids().difference(
                    ids_of(
                        old(self).view_slots().take(spec_drain(old(self).view_slots()).1),
                    ).to_set(),
                )
            }),
    {
        if self.slots.len() == 0 {
            return None;
        }
        let head_filled = self.slots[0].payload.is_some();
        proof {
            assert(self.view_slots()[0] == self.slots@[0]@);
        }
        if !head_filled {
            return None;
        }
        let ghost orig = self.view_slots();
        let ghost oldids = self.view_ids();
        let mut bufs: Vec<Vec<u8>> = Vec::new();
        let ghost mut consumed: int = 0;
        let mut done = false;
        while !done
            invariant
                orig == old(self).view_slots(),
                oldids == old(self).view_ids(),
                0 <= consumed <= orig.len(),
                self.view_slots() == orig.skip(consumed),
                self.wf(),
                spec_drain(orig).0 == bufs_view(bufs@) + spec_drain(self.view_slots()).0,
                spec_drain(orig).1 == consumed + spec_drain(self.view_slots()).1,
                self.view_ids() == oldids.difference(ids_of(orig.take(consumed)).to_set()),
                self.reply_mode == old(self).reply_mode,
                self.close_pending == old(self).close_pending,
                done ==> slot_emission(self.view_slots()) is None,
            decreases orig.len() - consumed, (if done { 0int } else { 1int }),
        {
            let ghost cur = self.view_slots();
            if self.slots.len() == 0 {
                done = true;
            } else if !self.slots[0].payload.is_some() {
                proof {
                    assert(cur[0] == self.slots@[0]@);
                }
                done = true;
            } else {
                proof {
                    assert(cur[0] == self.slots@[0]@);
                }
                let frag_cnt: usize = match &self.slots[0].state {
                    MessageState::Fragmented(_, _, c) => *c,
                    _ => 0,
                };
                let is_frag = matches!(&self.slots[0].state, MessageState::Fragmented(_, _, _));
                if is_frag {
                    proof {
                        assert(states_of(cur)[0] == cur[0].state);
                        assert(group_ok_at(states_of(cur), 0));
                        assert(cur[0].state matches StateV::Fragmented(op, idx, cnt) && idx == 0
                            && 1 <= cnt <= cur.len());
                    }
                    // see whether the whole head group is filled
                    let mut allf = true;
                    let mut j: usize = 1;
                    while j < frag_cnt && allf
                        invariant
                            cur == self.view_slots(),
                            1 <= j <= frag_cnt,
                            frag_cnt <= self.slots@.len(),
                            allf ==> forall|a: int|
                                0 <= a < j ==> (#[trigger] cur[a]).payload is Some,
                            !allf ==> j < frag_cnt && cur[j as int].payload is None,
                        decreases frag_cnt - j, (if allf { 1int } else { 0int }),
                    {
                        if self.slots[j].payload.is_some() {
                            proof {
                                assert(cur[j as int] == self.slots@[j as int]@);
                            }
                            j = j + 1;
                        } else {
                            proof {
                                assert(cur[j as int] == self.slots@[j as int]@);
                            }
                            allf = false;
                        }
                    }
                    if !allf {
                        proof {
                            assert(!group_filled(cur, frag_cnt as int));
                            assert(slot_emission(cur) is None);
                        }
                        done = true;
                    } else {
                        // pop the whole group and coalesce it
                        let muted0 = self.slots[0].muted;
                        let ghost gcnt = frag_cnt as int;
                        proof {
                            assert(group_filled(cur, gcnt));
                            assert(slot_emission(cur) matches Some(e) && e.1 == gcnt);
                        }
                        let mut group: Vec<(MessageState, RespFrame)> = Vec::new();
                        proof {
                            assert(cur.skip(0) =~= cur);
                            assert(pieces_view(group@) =~= Seq::new(
                                0nat,
                                |a: int| (cur[a].state, cur[a].payload.unwrap()),
                            ));
                            assert(consumed <= orig.len() - gcnt);
                        }
                        let mut j: usize = 0;
                        while j < frag_cnt
                            invariant
                                j <= frag_cnt,
                                gcnt == frag_cnt as int,
                                orig == old(self).view_slots(),
                                oldids == old(self).view_ids(),
                                0 <= consumed <= orig.len() - gcnt,
                                cur == orig.skip(consumed),
                                gcnt <= cur.len(),
                                group_filled(cur, gcnt),
                                self.view_slots() == cur.skip(j as int),
                                self.view_ids() == oldids.difference(
                                    ids_of(orig.take(consumed + j)).to_set(),
                                ),
                                pieces_view(group@) =~= Seq::new(
                                    j as nat,
                                    |a: int| (cur[a].state, cur[a].payload.unwrap()),
                                ),
                                forall|a: int, b: int|
                                    0 <= a < b < self.view_slots().len()
                                        ==> self.view_slots()[a].id != self.view_slots()[b].id,
                                forall|a: int|
                                    0 <= a < self.view_slots().len() ==> self.view_ids().contains(
                                        #[trigger] self.view_slots()[a].id,
                                    ),
                                self.view_ids().finite(),
                                forall|a: int|
                                    0 <= a < self.view_slots().len() && (
                                    #[trigger] self.view_slots()[a].state) is Inline
                                        ==> self.view_slots()[a].payload is Some,
                                self.reply_mode == old(self).reply_mode,
                                self.close_pending == old(self).close_pending,
                            decreases frag_cnt - j,
                        {
                            let ghost before = self.view_slots();
                            proof {
                                assert(before.len() == self.slots@.len());
                                assert(before.len() == cur.len() - j);
                                assert(before[0] == self.slots@[0]@);
                            }
                            let slot = self.slots.remove(0);
                            slab_release(&mut self.ids, slot.id);
                            proof {
                                assert(slot@ == before[0]);
                                assert(before[0] == cur[j as int]);
                                assert(self.view_slots() =~= before.drop_first());
                                assert(before.drop_first() =~= cur.skip(j as int + 1));
                                assert(orig[consumed + j] == cur[j as int]);
                                lemma_keys_step(
                                    oldids,
                                    orig,
                                    consumed + j,
                                    oldids.difference(ids_of(orig.take(consumed + j)).to_set()),
                                );
                            }
                            let f = match slot.payload {
                                Some(f) => f,
                                None => {
                                    proof {
                                        assert(false);
                                    }
                                    vstd::pervasive::unreached()
                                },
                            };
                            let ghost grp_before = group@;
                            proof {
                                assert(f@ == cur[j as int].payload.unwrap());
                            }
                            group.push((slot.state, f));
                            proof {
                                assert(pieces_view(group@) =~= pieces_view(grp_before).push(
                                    (cur[j as int].state, cur[j as int].payload.unwrap()),
                                ));
                                assert(pieces_view(group@) =~= Seq::new(
                                    j as nat + 1,
                                    |a: int| (cur[a].state, cur[a].payload.unwrap()),
                                ));
                            }
                            j = j + 1;
                        }
                        proof {
                            // the group really is one full fragment group
                            let ps = pieces_view(group@);
                            assert(ps.len() == gcnt);
                            assert(states_of(cur)[0] == cur[0].state);
                            assert(group_ok_at(states_of(cur), 0));
                            match cur[0].state {
                                StateV::Fragmented(op, idx, cnt) => {
                                    assert(idx == 0 && cnt == gcnt);
                                    assert forall|a: int|
                                        0 <= a < ps.len() implies (#[trigger] ps[a].0 matches
                                        StateV::Fragmented(o, _, _) && o == op) by {
                                        assert(states_of(cur)[0 - 0 + a] == StateV::Fragmented(
                                            op,
                                            a,
                                            cnt,
                                        ));
                                        assert(states_of(cur)[a] == cur[a].state);
                                        assert(ps[a].0 == cur[a].state);
                                    }
                                    assert(is_frag_group(ps, op));
                                    assert(ps[0].0 == cur[0].state);
                                    assert(spec_defragment(ps) is Some);
                                },
                                _ => {
                                    assert(false);
                                },
                            }
                        }
                        let parent = match defragment_messages(&group) {
                            Ok(f) => f,
                            Err(_) => {
                                proof {
                                    assert(false);
                                }
                                vstd::pervasive::unreached()
                            },
                        };
                        let buf = frame_to_buf(&parent);
                        let ghost bufs_before = bufs_view(bufs@);
                        if !muted0 {
                            bufs.push(buf);
                        }
                        proof {
                            // this step matches one head emission
                            let ps = pieces_view(group@);
                            assert(frames_of_pieces(ps) =~= group_payloads(cur, gcnt));
                            let eb: Seq<Seq<u8>> = if cur[0].muted {
                                Seq::empty()
                            } else {
                                seq![enc_frame(
                                    spec_defrag(
                                        spec_defragment_op(ps),
                                        group_payloads(cur, gcnt),
                                    ),
                                )]
                            };
                            assert(slot_emission(cur) == Some((eb, gcnt)));
                            assert(spec_drain(cur).0 == eb + spec_drain(cur.skip(gcnt)).0);
                            assert(spec_drain(cur).1 == gcnt + spec_drain(cur.skip(gcnt)).1);
                            if muted0 {
                                assert(bufs_view(bufs@) =~= bufs_before);
                                assert(bufs_view(bufs@) + spec_drain(self.view_slots()).0
                                    =~= (bufs_before + eb) + spec_drain(self.view_slots()).0);
                            } else {
                                assert(bufs_view(bufs@) =~= bufs_before.push(buf@));
                                assert(bufs_before.push(buf@) =~= bufs_before + eb);
                            }
                            assert(spec_drain(orig).0 =~= bufs_view(bufs@) + spec_drain(
                                self.view_slots(),
                            ).0);
                            // the remaining groups stay well-formed
                            assert(states_of(cur.skip(gcnt)) =~= states_of(cur).skip(gcnt));
                            lemma_groups_skip(states_of(cur), gcnt);
                            assert(groups_wf(states_of(self.view_slots())));
                            consumed = consumed + gcnt;
                            assert(self.view_slots() =~= orig.skip(consumed));
                        }
                    }
                } else {
                    // a standalone, inline or streaming head emits alone
                    let ghost before = self.view_slots();
                    let slot = self.slots.remove(0);
                    slab_release(&mut self.ids, slot.id);
                    proof {
                        assert(slot@ == before[0]);
                        assert(self.view_slots() =~= before.drop_first());
                        assert(before.drop_first() =~= cur.skip(1));
                        assert(orig[consumed] == cur[0]);
                        lemma_keys_step(
                            oldids,
                            orig,
                            consumed,
                            oldids.difference(ids_of(orig.take(consumed)).to_set()),
                        );
                    }
                    let muted0 = slot.muted;
                    let payload = match slot.payload {
                        Some(f) => f,
                        None => {
                            proof {
                                assert(false);
                            }
                            vstd::pervasive::unreached()
                        },
                    };
                    let buf = match slot.state {
                        MessageState::StreamingFragmented(Some(h)) => {
                            let mut b = h;
                            crate::resp::encode_frame(&payload, &mut b);
                            b
                        },
                        _ => frame_to_buf(&payload),
                    };
                    proof {
                        assert(buf@ == emit_bytes(cur[0]));
                    }
                    let ghost bufs_before = bufs_view(bufs@);
                    if !muted0 {
                        bufs.push(buf);
                    }
                    proof {
                        let eb: Seq<Seq<u8>> = if cur[0].muted {
                            Seq::empty()
                        } else {
                            seq![emit_bytes(cur[0])]
                        };
                        assert(slot_emission(cur) == Some((eb, 1int)));
                        assert(spec_drain(cur).0 == eb + spec_drain(cur.skip(1)).0);
                        assert(spec_drain(cur).1 == 1 + spec_drain(cur.skip(1)).1);
                        if muted0 {
                            assert(bufs_view(bufs@) =~= bufs_before);
                            assert(bufs_view(bufs@) + spec_drain(self.view_slots()).0
                                =~= (bufs_before + eb) + spec_drain(self.view_slots()).0);
                        } else {
                            assert(bufs_view(bufs@) =~= bufs_before.push(buf@));
                            assert(bufs_before.push(buf@) =~= bufs_before + eb);
                        }
                        assert(spec_drain(orig).0 =~= bufs_view(bufs@) + spec_drain(
                            self.view_slots(),
                        ).0);
                        assert(states_of(cur.skip(1)) =~= states_of(cur).skip(1));
                        assert(!(states_of(cur)[0] is Fragmented));
                        lemma_groups_skip(states_of(cur), 1);
                        assert(groups_wf(states_of(self.view_slots())));
                        // remaining slots keep distinct, allocated ids
                        assert forall|a: int, b: int|
                            0 <= a < b < self.view_slots().len() implies self.view_slots()[a].id
                            != self.view_slots()[b].id by {
                            assert(self.view_slots()[a] == cur[a + 1]);
                            assert(self.view_slots()[b] == cur[b + 1]);
                        }
                        assert forall|a: int|
                            0 <= a < self.view_slots().len() implies self.view_ids().contains(
                            #[trigger] self.view_slots()[a].id) by {
                            assert(self.view_slots()[a] == cur[a + 1]);
                            assert(cur[a + 1].id != cur[0].id);
                        }
                        consumed = consumed + 1;
                        assert(self.view_slots() =~= orig.skip(consumed));
                    }
                }
            }
        }
        proof {
            assert(spec_drain(self.view_slots()) == (Seq::<Seq<u8>>::empty(), 0int));
            assert(bufs_view(bufs@) + Seq::<Seq<u8>>::empty() =~= bufs_view(bufs@));
            assert(spec_drain(orig).0 =~= bufs_view(bufs@));
            assert(spec_drain(orig).1 == consumed);
        }
        Some(bufs)
    }
}

/// The parent operation named by the first piece of a fragment group.
pub open spec fn spec_defragment_op(ps: Seq<(StateV, FrameV)>) -> FragmentOp {
    match ps[0].0 {
        StateV::Fragmented(op, idx, cnt) => op,
        _ => FragmentOp::MultiSet,
    }
}


/// Head emission only reads the slots it consumes, so truncating the
/// queue behind them changes nothing.
pub proof fn lemma_emission_take(ss: Seq<SlotV>, n: int)
    requires
        slot_emission(ss) is Some,
        slot_emission(ss).unwrap().1 <= n <= ss.len(),
    ensures
        slot_emission(ss.take(n)) == slot_emission(ss),
{
    let t = ss.take(n);
    assert(t[0] == ss[0]);
    match ss[0].state {
        StateV::Fragmented(op, idx, cnt) => {
            assert(1 <= cnt <= ss.len() && group_filled(ss, cnt));
            assert forall|j: int| 0 <= j < cnt implies (#[trigger] t[j]).payload is Some by {
                assert(ss[j].payload is Some);
                assert(t[j] == ss[j]);
            }
            assert(group_filled(t, cnt));
            assert(group_payloads(t, cnt) =~= group_payloads(ss, cnt));
        },
        _ => {},
    }
}

/// Response ordering: everything a drain emits comes from the
/// consumed head prefix, in queue order; slots behind the prefix
/// contribute no bytes.  Together with the drain contract this pins
/// the byte stream written back to the client to the exact order in
/// which the requests were enqueued, whatever order their responses
/// arrived in.
pub proof fn lemma_drain_prefix(ss: Seq<SlotV>)
    ensures
        0 <= spec_drain(ss).1 <= ss.len(),
        spec_drain(ss.take(spec_drain(ss).1)) == spec_drain(ss),
    decreases ss.len(),
{
    match slot_emission(ss) {
        None => {
            assert(ss.take(0) =~= Seq::<SlotV>::empty());
            assert(slot_emission(ss.take(0)) is None);
        },
        Some((bufs, k)) => {
            if 1 <= k <= ss.len() {
                lemma_drain_prefix(ss.skip(k));
                let k2 = spec_drain(ss.skip(k)).1;
                let total = k + k2;
                let t = ss.take(total);
                lemma_emission_take(ss, total);
                assert(slot_emission(t) == Some((bufs, k)));
                assert(t.skip(k) =~= ss.skip(k).take(k2));
                assert(spec_drain(t.skip(k)) == spec_drain(ss.skip(k)));
                assert(spec_drain(t) == spec_drain(ss));
            }
        },
    }
}

/// At-most-once emission: once the head prefix of length `k` is
/// consumed, none of its slot identifiers remains, either among the
/// surviving slots or in the allocator.  A slot is therefore emitted
/// at most once and does not outlive its emission.
pub proof fn lemma_at_most_once(ss: Seq<SlotV>, ids0: Set<usize>, k: int)
    requires
        forall|a: int, b: int| 0 <= a < b < ss.len() ==> ss[a].id != ss[b].id,
        0 <= k <= ss.len(),
    ensures
        forall|a: int|
            0 <= a < k ==> !ids_of(ss.skip(k)).contains(#[trigger] ss[a].id),
        forall|a: int|
            0 <= a < k ==> !ids0.difference(ids_of(ss.take(k)).to_set()).contains(
                #[trigger] ss[a].id,
            ),
{
    assert forall|a: int| 0 <= a < k implies !ids_of(ss.skip(k)).contains(#[trigger] ss[a].id) by {
        if ids_of(ss.skip(k)).contains(ss[a].id) {
            let b = choose|b: int|
                0 <= b < ids_of(ss.skip(k)).len() && ids_of(ss.skip(k))[b] == ss[a].id;
            assert(ids_of(ss.skip(k))[b] == ss.skip(k)[b].id);
            assert(ss.skip(k)[b] == ss[k + b]);
            assert(ss[a].id == ss[k + b].id);
            assert(false);
        }
    }
    assert forall|a: int|
        0 <= a < k implies !ids0.difference(ids_of(ss.take(k)).to_set()).contains(
        #[trigger] ss[a].id) by {
        assert(ids_of(ss.take(k))[a] == ss.take(k)[a].id);
        assert(ids_of(ss.take(k)).contains(ss[a].id));
    }
}

/// Fragment completeness on emission: when the head of the queue is a
/// fragment group that emits, exactly its `count` slots are consumed,
/// every one of them is filled, and they are precisely the fragments
/// `0` to `count - 1` of one parent; the bytes emitted are the single
/// coalesced parent reply.
pub proof fn lemma_fragment_completeness(ss: Seq<SlotV>)
    requires
        groups_wf(states_of(ss)),
        ss.len() > 0,
        ss[0].state is Fragmented,
        slot_emission(ss) is Some,
    ensures
        ({
            let k = slot_emission(ss).unwrap().1;
            &&& (ss[0].state matches StateV::Fragmented(op, idx, cnt) && idx == 0 && cnt == k)
            &&& 1 <= k <= ss.len()
            &&& (forall|j: int| 0 <= j < k ==> (#[trigger] ss[j]).payload is Some)
            &&& (forall|j: int|
                0 <= j < k ==> (#[trigger] ss[j].state matches StateV::Fragmented(o2, i2, c2)
                    && i2 == j && c2 == k))
            &&& (!ss[0].muted ==> slot_emission(ss).unwrap().0.len() == 1)
        }),
{
    assert(states_of(ss)[0] == ss[0].state);
    assert(group_ok_at(states_of(ss), 0));
    match ss[0].state {
        StateV::Fragmented(op, idx, cnt) => {
            assert(idx == 0);
            assert(1 <= cnt <= ss.len() && group_filled(ss, cnt));
            assert forall|j: int|
                0 <= j < cnt implies (#[trigger] ss[j].state matches StateV::Fragmented(
                o2,
                i2,
                c2,
            ) && i2 == j && c2 == cnt) by {
                assert(states_of(ss)[0 - 0 + j] == StateV::Fragmented(op, j, cnt));
                assert(states_of(ss)[j] == ss[j].state);
            }
        },
        _ => {},
    }
}

/// Idempotent inline: an inline piece never appears in the dispatch
/// batch.  Since the queue fills an inline slot the moment it is
/// created, its reply is emitted without any sub-request leaving for
/// a backend.
pub proof fn lemma_inline_no_dispatch(ps: Seq<PieceM>, ids: Seq<usize>, a: int)
    requires
        ps.len() == ids.len(),
        forall|x: int, y: int| 0 <= x < y < ids.len() ==> ids[x] != ids[y],
        0 <= a < ps.len(),
        ps[a].0 is Inline,
    ensures
        forall|b: int|
            0 <= b < dispatch_of(ps, ids).len() ==> (#[trigger] dispatch_of(ps, ids)[b]).0
                != ids[a],
    decreases ps.len(),
{
    if ps.len() > 0 {
        let rest = dispatch_of(ps.drop_first(), ids.drop_first());
        assert forall|x: int, y: int|
            0 <= x < y < ids.drop_first().len() implies ids.drop_first()[x]
            != ids.drop_first()[y] by {
            assert(ids.drop_first()[x] == ids[x + 1]);
            assert(ids.drop_first()[y] == ids[y + 1]);
        }
        if a == 0 {
            lemma_dispatch_not_containing(ps.drop_first(), ids.drop_first(), ids[0]);
        } else {
            lemma_inline_no_dispatch(ps.drop_first(), ids.drop_first(), a - 1);
            assert(ps.drop_first()[a - 1] == ps[a]);
            assert(ids.drop_first()[a - 1] == ids[a]);
            if !(ps[0].0 is Inline) {
                assert(dispatch_of(ps, ids)[0] == (ids[0], ps[0].1));
                assert forall|b: int|
                    0 <= b < dispatch_of(ps, ids).len() implies (
                #[trigger] dispatch_of(ps, ids)[b]).0 != ids[a] by {
                    if b > 0 {
                        assert(dispatch_of(ps, ids)[b] == rest[b - 1]);
                    }
                }
            }
        }
    }
}

/// An identifier assigned to no piece never appears in the dispatch.
pub proof fn lemma_dispatch_not_containing(ps: Seq<PieceM>, ids: Seq<usize>, id: usize)
    requires
        ps.len() == ids.len(),
        forall|x: int| 0 <= x < ids.len() ==> ids[x] != id,
    ensures
        forall|b: int|
            0 <= b < dispatch_of(ps, ids).len() ==> (#[trigger] dispatch_of(ps, ids)[b]).0 != id,
    decreases ps.len(),
{
    if ps.len() > 0 {
        assert forall|x: int|
            0 <= x < ids.drop_first().len() implies ids.drop_first()[x] != id by {
            assert(ids.drop_first()[x] == ids[x + 1]);
        }
        lemma_dispatch_not_containing(ps.drop_first(), ids.drop_first(), id);
        let rest = dispatch_of(ps.drop_first(), ids.drop_first());
        if !(ps[0].0 is Inline) {
            assert forall|b: int|
                0 <= b < dispatch_of(ps, ids).len() implies (#[trigger] dispatch_of(ps, ids)[b]).0
                != id by {
                if b > 0 {
                    assert(dispatch_of(ps, ids)[b] == rest[b - 1]);
                }
            }
        }
    }
}

/// Fragment completeness on dispatch: pieces that are all fragments
/// (never inline) are dispatched one for one, so a group of `count`
/// fragments sends exactly `count` sub-requests.
pub proof fn lemma_fragments_all_dispatched(ps: Seq<PieceM>, ids: Seq<usize>)
    requires
        ps.len() == ids.len(),
        forall|a: int| 0 <= a < ps.len() ==> !((#[trigger] ps[a].0) is Inline),
    ensures
        dispatch_of(ps, ids).len() == ps.len(),
        forall|a: int|
            0 <= a < ps.len() ==> #[trigger] dispatch_of(ps, ids)[a] == (ids[a], ps[a].1),
    decreases ps.len(),
{
    if ps.len() > 0 {
        assert forall|a: int|
            0 <= a < ps.drop_first().len() implies !((#[trigger] ps.drop_first()[a].0)
            is Inline) by {
            assert(ps.drop_first()[a] == ps[a + 1]);
        }
        lemma_fragments_all_dispatched(ps.drop_first(), ids.drop_first());
        let rest = dispatch_of(ps.drop_first(), ids.drop_first());
        assert forall|a: int|
            0 <= a < ps.len() implies #[trigger] dispatch_of(ps, ids)[a] == (ids[a], ps[a].1) by {
            if a > 0 {
                assert(dispatch_of(ps, ids)[a] == rest[a - 1]);
                assert(ps.drop_first()[a - 1] == ps[a]);
                assert(ids.drop_first()[a - 1] == ids[a]);
            }
        }
    }
}

} // verus!
