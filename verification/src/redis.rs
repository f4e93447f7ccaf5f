//! Shard selection, health-driven failover, and per-backend batching.
//!
//! A routing key picks its home backend through a deterministic hash
//! of its bytes; while that backend is cooling, the key fails over to
//! the next healthy index on a fixed forward walk, and returns home
//! once the cool-off expires.  A dispatchable batch is split into one
//! sub-batch per backend index actually hit, ascending by index, each
//! sub-batch keeping the batch's own order.  The transformer pairs
//! the halves of an upstream exchange: the identifiers split off
//! before the write and the responses zipped back after the read.
//!
//! Pool membership is fixed for a pool's lifetime in this model, so
//! the hash only has to be deterministic per key; minimising key
//! movement across membership changes (what a consistent-hash ring
//! buys) is out of its scope.

use vstd::prelude::*;

use crate::command::is_command;
use crate::command::get_message_key;
use crate::command::spec_key_of;
use crate::queue::AssignedBatch;
use crate::queue::batch_view;
use crate::resp::FrameV;
use crate::resp::RespFrame;
use crate::resp::RespScalar;
use crate::resp::ScalarV;
use crate::resp::dup_bytes;
use crate::resp::dup_frame;
use crate::resp::line_wf;

verus! {

/// One step of the byte hash.
pub open spec fn hash_step(h: u64, b: u8) -> u64 {
    (((h ^ b as u64) as nat * 1099511628211nat) % 0x10000000000000000nat) as u64
}

/// The hash of a byte string, folded left to right.
pub open spec fn spec_hash(s: Seq<u8>) -> u64
    decreases s.len(),
{
    if s.len() == 0 {
        14695981039346656037u64
    } else {
        hash_step(spec_hash(s.drop_last()), s.last())
    }
}

/// The backend index a key routes to, among `n` backends.
pub open spec fn spec_shard(key: Seq<u8>, n: int) -> int {
    spec_hash(key) as int % n
}

/// The backend index a key routes to, among `n` backends.
pub fn shard_of(key: &Vec<u8>, n: usize) -> (r: usize)
    requires
        n >= 1,
    ensures
        r as int == spec_shard(key@, n as int),
        r < n,
{
    let mut h: u64 = 14695981039346656037;
    let mut i: usize = 0;
    while i < key.len()
        invariant
            i <= key@.len(),
            h == spec_hash(key@.take(i as int)),
        decreases key@.len() - i,
    {
        let b = key[i];
        h = (h ^ b as u64).wrapping_mul(1099511628211);
        i = i + 1;
        proof {
            assert(key@.take(i as int).drop_last() =~= key@.take(i as int - 1));
            assert(key@.take(i as int).last() == key@[i as int - 1]);
        }
    }
    proof {
        assert(key@.take(key@.len() as int) =~= key@);
    }
    (h % n as u64) as usize
}


/// The first healthy index in `[from, to)`, walking forward.
pub open spec fn first_healthy(h: Seq<bool>, from: int, to: int) -> Option<int>
    decreases to - from,
{
    if from >= to {
        None
    } else if h[from] {
        Some(from)
    } else {
        first_healthy(h, from + 1, to)
    }
}

/// The backend that takes a key homed on `home`: `home` itself while
/// healthy, else the next healthy index on the forward walk that
/// wraps past the end, else `home` again when nothing is healthy.
pub open spec fn spec_pick(home: int, h: Seq<bool>) -> int {
    match first_healthy(h, home, h.len() as int) {
        Some(i) => i,
        None => match first_healthy(h, 0, home) {
            Some(i) => i,
            None => home,
        },
    }
}

/// A found index is healthy and lies in the walked range.
pub proof fn lemma_first_healthy_found(h: Seq<bool>, from: int, to: int)
    requires
        0 <= from,
        to <= h.len(),
    ensures
        (first_healthy(h, from, to) matches Some(i) ==> from <= i < to && h[i]),
    decreases to - from,
{
    if from < to && !h[from] {
        lemma_first_healthy_found(h, from + 1, to);
    }
}

/// A missed range holds no healthy index.
pub proof fn lemma_first_healthy_none(h: Seq<bool>, from: int, to: int)
    requires
        0 <= from,
        first_healthy(h, from, to) is None,
    ensures
        forall|i: int| from <= i < to ==> !h[i],
    decreases to - from,
{
    if from < to {
        lemma_first_healthy_none(h, from + 1, to);
    }
}

/// The failover pick keeps a healthy home and never picks an
/// unhealthy backend while any healthy one exists.
pub proof fn lemma_spec_pick_healthy(home: int, h: Seq<bool>)
    requires
        0 <= home < h.len(),
    ensures
        h[home] ==> spec_pick(home, h) == home,
        (exists|i: int| 0 <= i < h.len() && h[i]) ==> h[spec_pick(home, h)],
        0 <= spec_pick(home, h) < h.len(),
{
    lemma_first_healthy_found(h, home, h.len() as int);
    lemma_first_healthy_found(h, 0, home);
    if first_healthy(h, home, h.len() as int) is None && first_healthy(h, 0, home) is None {
        lemma_first_healthy_none(h, home, h.len() as int);
        lemma_first_healthy_none(h, 0, home);
        assert forall|i: int| 0 <= i < h.len() implies !h[i] by {
        }
    }
}

/// The backend that takes a key homed on `home`, given each backend's
/// health at this instant.
///
/// A healthy home keeps its keys.  A cooling home hands them to the
/// next healthy index on the forward walk (wrapping once), so its
/// keys are served elsewhere until the cool-off expires and the probe
/// turns the home healthy again — at which point they return and the
/// home is retried.  With no healthy backend at all the home is tried
/// anyway.
pub fn pick_backend(home: usize, healthy: &Vec<bool>) -> (r: usize)
    requires
        healthy@.len() >= 1,
        home < healthy@.len(),
    ensures
        r as int == spec_pick(home as int, healthy@),
        r < healthy@.len(),
        healthy@[home as int] ==> r == home,
        (exists|i: int| 0 <= i < healthy@.len() && healthy@[i]) ==> healthy@[r as int],
{
    let n = healthy.len();
    let mut i: usize = home;
    while i < n
        invariant
            home <= i <= n,
            n == healthy@.len(),
            home < n,
            first_healthy(healthy@, home as int, n as int) == first_healthy(
                healthy@,
                i as int,
                n as int,
            ),
        decreases n - i,
    {
        if healthy[i] {
            proof {
                assert(first_healthy(healthy@, i as int, n as int) == Some(i as int));
                lemma_spec_pick_healthy(home as int, healthy@);
            }
            return i;
        }
        i = i + 1;
    }
    proof {
        assert(first_healthy(healthy@, n as int, n as int) is None);
        lemma_first_healthy_none(healthy@, home as int, n as int);
    }
    let mut i: usize = 0;
    while i < home
        invariant
            i <= home,
            n == healthy@.len(),
            home < n,
            first_healthy(healthy@, home as int, n as int) is None,
            forall|k: int| home <= k < n ==> !healthy@[k],
            first_healthy(healthy@, 0, home as int) == first_healthy(
                healthy@,
                i as int,
                home as int,
            ),
        decreases home - i,
    {
        if healthy[i] {
            proof {
                assert(first_healthy(healthy@, i as int, home as int) == Some(i as int));
                lemma_spec_pick_healthy(home as int, healthy@);
            }
            return i;
        }
        i = i + 1;
    }
    proof {
        assert(first_healthy(healthy@, home as int, home as int) is None);
        assert(first_healthy(healthy@, 0, home as int) is None);
        lemma_first_healthy_none(healthy@, 0, home as int);
        lemma_spec_pick_healthy(home as int, healthy@);
        assert forall|k: int| 0 <= k < healthy@.len() implies !healthy@[k] by {
        }
    }
    home
}

/// The backend index of one batch entry: its home shard, after the
/// health failover walk.
pub open spec fn entry_route(e: (usize, FrameV), h: Seq<bool>) -> int {
    spec_pick(spec_shard(spec_key_of(e.1), h.len() as int), h)
}

/// The entries of a batch that route to backend `idx`, in order.
pub open spec fn shard_filter(b: Seq<(usize, FrameV)>, h: Seq<bool>, idx: int) -> Seq<
    (usize, FrameV),
>
    decreases b.len(),
{
    if b.len() == 0 {
        Seq::empty()
    } else {
        let rest = shard_filter(b.drop_first(), h, idx);
        if entry_route(b[0], h) == idx {
            seq![b[0]] + rest
        } else {
            rest
        }
    }
}

/// A non-empty shard filter names at least one routed entry.
pub proof fn lemma_shard_filter_nonempty(b: Seq<(usize, FrameV)>, h: Seq<bool>, idx: int)
    requires
        shard_filter(b, h, idx).len() > 0,
    ensures
        exists|i: int| 0 <= i < b.len() && entry_route(#[trigger] b[i], h) == idx,
    decreases b.len(),
{
    if b.len() > 0 {
        if entry_route(b[0], h) == idx {
            assert(entry_route(b[0], h) == idx);
        } else {
            lemma_shard_filter_nonempty(b.drop_first(), h, idx);
            let i = choose|i: int|
                0 <= i < b.drop_first().len() && entry_route(#[trigger] b.drop_first()[i], h)
                    == idx;
            assert(b.drop_first()[i] == b[i + 1]);
            assert(entry_route(b[i + 1], h) == idx);
        }
    }
}

/// Filtering one more entry appends it to its own shard alone.
pub proof fn lemma_shard_filter_push(
    b: Seq<(usize, FrameV)>,
    h: Seq<bool>,
    idx: int,
    e: (usize, FrameV),
)
    ensures
        shard_filter(b.push(e), h, idx) == (if entry_route(e, h) == idx {
            shard_filter(b, h, idx).push(e)
        } else {
            shard_filter(b, h, idx)
        }),
    decreases b.len(),
{
    if b.len() == 0 {
        assert(b.push(e).drop_first() =~= Seq::<(usize, FrameV)>::empty());
        assert(b.push(e)[0] == e);
        assert(b =~= Seq::<(usize, FrameV)>::empty());
        assert(shard_filter(Seq::empty(), h, idx) == Seq::<(usize, FrameV)>::empty());
        if entry_route(e, h) == idx {
            assert(seq![e] + Seq::<(usize, FrameV)>::empty() =~= Seq::<(
                usize,
                FrameV,
            )>::empty().push(e));
        }
    } else {
        assert(b.push(e).drop_first() =~= b.drop_first().push(e));
        assert(b.push(e)[0] == b[0]);
        lemma_shard_filter_push(b.drop_first(), h, idx, e);
        if entry_route(b[0], h) == idx {
            if entry_route(e, h) == idx {
                assert(seq![b[0]] + shard_filter(b.drop_first(), h, idx).push(e) =~= (seq![b[0]]
                    + shard_filter(b.drop_first(), h, idx)).push(e));
            }
        }
    }
}

/// Split a dispatchable batch into per-backend sub-batches, routing
/// around unhealthy backends.
///
/// `healthy` holds one health probe per backend, index for index.
/// Every message must be a command (non-commands are classified away
/// upstream and never reach routing).  Each entry goes to its home
/// shard while that backend is healthy, else to the next healthy
/// index on the forward walk; while any backend is healthy, no
/// sub-batch is addressed to an unhealthy one.  The result holds one
/// entry per backend index actually hit, ascending by index; each
/// sub-batch is exactly the batch's entries for that backend, in
/// their original order.
pub fn generate_batched_redis_writes(healthy: &Vec<bool>, batch: &AssignedBatch) -> (r: Vec<
    (usize, AssignedBatch),
>)
    requires
        healthy@.len() >= 1,
        forall|i: int| 0 <= i < batch@.len() ==> is_command((#[trigger] batch@[i].1)@),
    ensures
        forall|g: int|
            0 <= g < r@.len() ==> (#[trigger] r@[g]).0 < healthy@.len() && batch_view(r@[g].1@)
                == shard_filter(batch_view(batch@), healthy@, r@[g].0 as int) && r@[g].1@.len()
                > 0,
        forall|g: int, g2: int| 0 <= g < g2 < r@.len() ==> r@[g].0 < r@[g2].0,
        forall|idx: int|
            0 <= idx < healthy@.len() && shard_filter(batch_view(batch@), healthy@, idx).len() > 0
                ==> exists|g: int| 0 <= g < r@.len() && (#[trigger] r@[g]).0 == idx,
        (exists|i: int| 0 <= i < healthy@.len() && healthy@[i]) ==> forall|g: int|
            0 <= g < r@.len() ==> healthy@[(#[trigger] r@[g]).0 as int],
{
    let ghost bv = batch_view(batch@);
    let ghost hv = healthy@;
    let shards = healthy.len();
    let mut r: Vec<(usize, AssignedBatch)> = Vec::new();
    let mut idx: usize = 0;
    while idx < shards
        invariant
            idx <= shards,
            shards >= 1,
            shards == hv.len(),
            hv == healthy@,
            bv == batch_view(batch@),
            forall|i: int| 0 <= i < batch@.len() ==> is_command((#[trigger] batch@[i].1)@),
            forall|g: int|
                0 <= g < r@.len() ==> (#[trigger] r@[g]).0 < idx && batch_view(r@[g].1@)
                    == shard_filter(bv, hv, r@[g].0 as int) && r@[g].1@.len() > 0,
            forall|g: int, g2: int| 0 <= g < g2 < r@.len() ==> r@[g].0 < r@[g2].0,
            forall|j: int|
                0 <= j < idx && shard_filter(bv, hv, j).len() > 0 ==> exists|g: int|
                    0 <= g < r@.len() && (#[trigger] r@[g]).0 == j,
            (exists|i: int| 0 <= i < hv.len() && hv[i]) ==> forall|g: int|
                0 <= g < r@.len() ==> hv[(#[trigger] r@[g]).0 as int],
        decreases shards - idx,
    {
        let mut group: AssignedBatch = Vec::new();
        let mut i: usize = 0;
        while i < batch.len()
            invariant
                i <= batch@.len(),
                idx < shards,
                shards >= 1,
                shards == hv.len(),
                hv == healthy@,
                bv == batch_view(batch@),
                forall|k: int| 0 <= k < batch@.len() ==> is_command((#[trigger] batch@[k].1)@),
                batch_view(group@) == shard_filter(bv.take(i as int), hv, idx as int),
            decreases batch@.len() - i,
        {
            proof {
                assert(bv.take(i as int).push(bv[i as int]) =~= bv.take(i as int + 1));
                lemma_shard_filter_push(bv.take(i as int), hv, idx as int, bv[i as int]);
            }
            let key = get_message_key(&batch[i].1);
            let home = shard_of(&key, shards);
            let s = pick_backend(home, healthy);
            proof {
                assert(key@ == spec_key_of(bv[i as int].1));
                assert(s as int == entry_route(bv[i as int], hv));
            }
            if s == idx {
                let ghost gb = group@;
                group.push((batch[i].0, dup_frame(&batch[i].1)));
                proof {
                    assert(batch_view(group@) =~= batch_view(gb).push(bv[i as int]));
                }
            }
            i = i + 1;
        }
        proof {
            assert(bv.take(bv.len() as int) =~= bv);
        }
        if group.len() > 0 {
            let ghost rb = r@;
            r.push((idx, group));
            proof {
                assert(r@[r@.len() - 1].0 == idx);
                assert forall|g: int, g2: int| 0 <= g < g2 < r@.len() implies r@[g].0
                    < r@[g2].0 by {
                    if g2 < r@.len() - 1 {
                        assert(r@[g] == rb[g] && r@[g2] == rb[g2]);
                    } else {
                        assert(r@[g] == rb[g]);
                    }
                }
                assert forall|j: int|
                    0 <= j < idx as int + 1 && shard_filter(bv, hv, j).len() > 0
                    implies exists|g: int| 0 <= g < r@.len() && (#[trigger] r@[g]).0 == j by {
                    if j < idx as int {
                        let g0 = choose|g: int| 0 <= g < rb.len() && (#[trigger] rb[g]).0 == j;
                        assert(r@[g0] == rb[g0]);
                        assert(0 <= g0 < r@.len() && r@[g0].0 == j);
                    } else {
                        assert(r@[r@.len() - 1].0 == j);
                    }
                }
                if exists|i: int| 0 <= i < hv.len() && hv[i] {
                    // the new group is keyed by some entry's pick, which
                    // the failover walk keeps healthy
                    lemma_shard_filter_nonempty(bv, hv, idx as int);
                    let w = choose|w: int|
                        0 <= w < bv.len() && entry_route(#[trigger] bv[w], hv) == idx as int;
                    let home = spec_shard(spec_key_of(bv[w].1), hv.len() as int);
                    lemma_spec_pick_healthy(home, hv);
                    assert(hv[idx as int]);
                    assert forall|g: int| 0 <= g < r@.len() implies hv[(
                    #[trigger] r@[g]).0 as int] by {
                        if g < r@.len() - 1 {
                            assert(r@[g] == rb[g]);
                        }
                    }
                }
            }
        } else {
            proof {
                assert(batch_view(group@).len() == 0);
                assert forall|j: int|
                    0 <= j < idx as int + 1 && shard_filter(bv, hv, j).len() > 0
                    implies exists|g: int| 0 <= g < r@.len() && (#[trigger] r@[g]).0 == j by {
                    if j == idx as int {
                        assert(shard_filter(bv, hv, j) == batch_view(group@));
                        assert(false);
                    }
                }
            }
        }
        idx = idx + 1;
    }
    r
}

/// One protocol error reply for every listed identifier.
///
/// Used when a whole sub-batch fails: each slot named in `indexes`
/// receives the same error frame, so the client still sees a complete
/// response stream.
pub fn to_vectored_error_response(text: &Vec<u8>, indexes: &Vec<u64>) -> (r: Vec<(u64, RespFrame)>)
    requires
        line_wf(text@),
    ensures
        r@.len() == indexes@.len(),
        forall|i: int|
            0 <= i < r@.len() ==> (#[trigger] r@[i]).0 == indexes@[i] && r@[i].1@
                == FrameV::Scalar(ScalarV::ErrorMsg(text@)),
{
    let mut r: Vec<(u64, RespFrame)> = Vec::new();
    let mut i: usize = 0;
    while i < indexes.len()
        invariant
            i <= indexes@.len(),
            r@.len() == i,
            line_wf(text@),
            forall|k: int|
                0 <= k < i ==> (#[trigger] r@[k]).0 == indexes@[k] && r@[k].1@ == FrameV::Scalar(
                    ScalarV::ErrorMsg(text@),
                ),
        decreases indexes@.len() - i,
    {
        r.push((indexes[i], RespFrame::Scalar(RespScalar::ErrorMsg(dup_bytes(text)))));
        i = i + 1;
    }
    r
}

/// The per-protocol transformer for one upstream exchange: splits a
/// correlated batch for the write half and re-correlates the
/// responses after the read half.
pub struct RedisRequestTransformer {}

impl RedisRequestTransformer {
    /// A fresh transformer; it carries no state.
    pub fn new() -> (r: RedisRequestTransformer) {
        RedisRequestTransformer {}
    }

    /// Break a correlated batch into its identifiers and its messages,
    /// position by position, for the write half of an exchange.
    pub fn split_batch(&self, req: Vec<(u64, RespFrame)>) -> (r: (Vec<u64>, Vec<RespFrame>))
        ensures
            r.0@.len() == req@.len(),
            r.1@.len() == req@.len(),
            forall|i: int|
                0 <= i < req@.len() ==> r.0@[i] == (#[trigger] req@[i]).0 && r.1@[i]@
                    == req@[i].1@,
    {
        let mut ids: Vec<u64> = Vec::new();
        let mut msgs: Vec<RespFrame> = Vec::new();
        let mut req = req;
        let total = req.len();
        let ghost rv = req@;
        let mut i: usize = 0;
        while req.len() > 0
            invariant
                i + req@.len() == rv.len(),
                rv.len() == total,
                ids@.len() == i,
                msgs@.len() == i,
                forall|k: int| 0 <= k < req@.len() ==> #[trigger] req@[k] == rv[k + i],
                forall|k: int|
                    0 <= k < i ==> ids@[k] == (#[trigger] rv[k]).0 && msgs@[k]@ == rv[k].1@,
            decreases req@.len(),
        {
            let (id, msg) = req.remove(0);
            ids.push(id);
            msgs.push(msg);
            proof {
                assert(forall|k: int|
                    0 <= k < req@.len() ==> #[trigger] req@[k] == rv[k + i + 1]);
            }
            i = i + 1;
        }
        (ids, msgs)
    }

    /// Pair the identifiers split off before the write with the
    /// responses read back, in order, for the read half.
    pub fn reassemble(&self, ids: Vec<u64>, resps: Vec<RespFrame>) -> (r: Vec<(u64, RespFrame)>)
        requires
            ids@.len() == resps@.len(),
        ensures
            r@.len() == ids@.len(),
            forall|i: int|
                0 <= i < r@.len() ==> (#[trigger] r@[i]).0 == ids@[i] && r@[i].1@ == resps@[i]@,
    {
        let mut r: Vec<(u64, RespFrame)> = Vec::new();
        let mut resps = resps;
        let ghost rv = resps@.map_values(|m: RespFrame| m@);
        let mut i: usize = 0;
        while i < ids.len()
            invariant
                ids@.len() == rv.len(),
                i + resps@.len() == rv.len(),
                i <= ids@.len(),
                r@.len() == i,
                forall|k: int| 0 <= k < resps@.len() ==> (#[trigger] resps@[k])@ == rv[k + i],
                forall|k: int|
                    0 <= k < i ==> (#[trigger] r@[k]).0 == ids@[k] && r@[k].1@ == rv[k],
            decreases ids@.len() - i,
        {
            let m = resps.remove(0);
            r.push((ids[i], m));
            proof {
                assert(forall|k: int|
                    0 <= k < resps@.len() ==> (#[trigger] resps@[k])@ == rv[k + i + 1]);
            }
            i = i + 1;
        }
        r
    }
}

} // verus!
