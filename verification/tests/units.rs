//! Unit exercises of the engine's parts: the codec's exact byte
//! behaviour, the queue's ordering and at-most-once guarantees, the
//! health state machine, shard grouping, the shadow split, and the
//! error paths.

use synchrotron::backend::Backend;
use synchrotron::backend::BackendCommand;
use synchrotron::backend::BackendSupervisor;
use synchrotron::backend::ConnectionAction;
use synchrotron::backend::ConnectionEvent;
use synchrotron::backend::ConnectionState;
use synchrotron::backend::CreationError;
use synchrotron::backend::connection_step;
use synchrotron::command::classify_message;
use synchrotron::command::defragment_messages;
use synchrotron::command::fragment_messages;
use synchrotron::command::get_message_key;
use synchrotron::health::BackendHealth;
use synchrotron::parse::decode;
use synchrotron::parse::DecodeResult;
use synchrotron::pipeline::Pipeline;
use synchrotron::pipeline::PipelineError;
use synchrotron::processor::Processor;
use synchrotron::queue::FragmentOp;
use synchrotron::queue::MessageQueue;
use synchrotron::queue::MessageResponse;
use synchrotron::queue::MessageState;
use synchrotron::redis::RedisRequestTransformer;
use synchrotron::redis::generate_batched_redis_writes;
use synchrotron::redis::pick_backend;
use synchrotron::redis::shard_of;
use synchrotron::redis::to_vectored_error_response;
use synchrotron::resp::frame_to_buf;
use synchrotron::resp::RespFrame;
use synchrotron::resp::RespScalar;
use synchrotron::routing::ShadowRouter;

fn data(v: &[u8]) -> RespScalar {
    RespScalar::Data(v.to_vec())
}

fn cmd(args: &[&[u8]]) -> RespFrame {
    RespFrame::Array(args.iter().map(|a| data(a)).collect())
}

fn frame_of(bytes: &[u8]) -> RespFrame {
    match decode(&bytes.to_vec()) {
        DecodeResult::Done(f, n) => {
            assert_eq!(n, bytes.len());
            f
        },
        _ => panic!("expected a complete frame"),
    }
}

#[test]
fn encode_exact_frames() {
    assert_eq!(frame_to_buf(&RespFrame::Scalar(RespScalar::Null)), b"$-1\r\n");
    assert_eq!(frame_to_buf(&RespFrame::Scalar(RespScalar::Integer(0))), b":0\r\n");
    assert_eq!(frame_to_buf(&RespFrame::Scalar(RespScalar::Integer(-1))), b":-1\r\n");
    assert_eq!(
        frame_to_buf(&RespFrame::Scalar(RespScalar::Integer(i64::MIN))),
        b":-9223372036854775808\r\n"
    );
    assert_eq!(
        frame_to_buf(&RespFrame::Scalar(RespScalar::Simple(b"OK".to_vec()))),
        b"+OK\r\n"
    );
    assert_eq!(
        frame_to_buf(&RespFrame::Scalar(RespScalar::ErrorMsg(b"ERR x".to_vec()))),
        b"-ERR x\r\n"
    );
    assert_eq!(frame_to_buf(&cmd(&[b"GET", b"k"])), b"*2\r\n$3\r\nGET\r\n$1\r\nk\r\n");
}

#[test]
fn decode_roundtrips_canonical_frames() {
    for bytes in [
        b"$-1\r\n".as_slice(),
        b":12\r\n",
        b":-7\r\n",
        b"+PONG\r\n",
        b"-ERR bad\r\n",
        b"$0\r\n\r\n",
        b"$3\r\nabc\r\n",
        b"*0\r\n",
        b"*2\r\n$1\r\na\r\n:5\r\n",
    ] {
        let f = frame_of(bytes);
        assert_eq!(frame_to_buf(&f), bytes);
    }
}

#[test]
fn decode_incomplete_and_invalid() {
    // prefixes of valid frames are incomplete
    for bytes in [b"".as_slice(), b"$3\r\nab", b"*2\r\n$1\r\na\r\n", b":12", b"+OK\r"] {
        match decode(&bytes.to_vec()) {
            DecodeResult::Incomplete => {},
            _ => panic!("expected incomplete for {:?}", bytes),
        }
    }
    // non-canonical or malformed frames are invalid
    for bytes in [
        b":007\r\n".as_slice(),
        b":-0\r\n",
        b":+5\r\n",
        b"$03\r\nabc\r\n",
        b"$2\r\nabc\r\n",
        b"\r\n",
    ] {
        match decode(&bytes.to_vec()) {
            DecodeResult::Invalid => {},
            _ => panic!("expected invalid for {:?}", bytes),
        }
    }
}

#[test]
fn decode_inline_words() {
    // an inline line decodes to the same shape as the framed command,
    // collapsing repeated spaces
    let f = frame_of(b"get  my_key\r\n");
    assert_eq!(frame_to_buf(&f), b"*2\r\n$3\r\nget\r\n$6\r\nmy_key\r\n");
}

#[test]
fn response_ordering_under_reordered_fulfilment() {
    // two requests; the second response arrives first, yet the bytes
    // come back in request order
    let mut q = MessageQueue::new();
    let batch = q
        .enqueue(vec![cmd(&[b"GET", b"a"]), cmd(&[b"GET", b"b"])])
        .unwrap();
    assert_eq!(batch.len(), 2);
    assert!(q.get_sendable_bufs().is_none());

    let (id_a, id_b) = (batch[0].0, batch[1].0);
    assert_ne!(id_a, id_b);
    q.fulfill(vec![(id_b, MessageResponse::Complete(frame_of(b"$1\r\nB\r\n")))])
        .unwrap();
    // the head is still waiting, so nothing is emitted yet
    assert!(q.get_sendable_bufs().is_none());
    q.fulfill(vec![(id_a, MessageResponse::Complete(frame_of(b"$1\r\nA\r\n")))])
        .unwrap();
    let out = q.get_sendable_bufs().unwrap().concat();
    assert_eq!(out, b"$1\r\nA\r\n$1\r\nB\r\n");
}

#[test]
fn slots_emitted_at_most_once() {
    let mut q = MessageQueue::new();
    let batch = q.enqueue(vec![cmd(&[b"GET", b"a"])]).unwrap();
    q.fulfill(vec![(batch[0].0, MessageResponse::Complete(frame_of(b"$1\r\nA\r\n")))])
        .unwrap();
    let out = q.get_sendable_bufs().unwrap();
    assert_eq!(out.concat(), b"$1\r\nA\r\n");
    // the slot is gone: nothing is emitted twice, and fulfilling the
    // departed slot is a routing fault
    assert!(q.get_sendable_bufs().is_none());
    assert!(q
        .fulfill(vec![(batch[0].0, MessageResponse::Failed)])
        .is_err());
}

#[test]
fn inline_pieces_never_dispatch() {
    // a ping travels to no backend: the dispatch batch is empty and
    // the reply is ready immediately
    let mut q = MessageQueue::new();
    let batch = q.enqueue(vec![cmd(&[b"PING"])]).unwrap();
    assert_eq!(batch.len(), 0);
    let out = q.get_sendable_bufs().unwrap().concat();
    assert_eq!(out, b"+PONG\r\n");
}

#[test]
fn failed_subrequest_yields_error_reply() {
    let mut q = MessageQueue::new();
    let batch = q.enqueue(vec![cmd(&[b"GET", b"a"])]).unwrap();
    q.fulfill(vec![(batch[0].0, MessageResponse::Failed)]).unwrap();
    let out = q.get_sendable_bufs().unwrap().concat();
    assert_eq!(out, b"-ERR failed to receive response\r\n");
}

#[test]
fn fragment_group_counts_match() {
    // a three-key delete dispatches exactly three sub-requests and
    // coalesces to one summed reply
    let mut q = MessageQueue::new();
    let batch = q.enqueue(vec![cmd(&[b"DEL", b"a", b"b", b"c"])]).unwrap();
    assert_eq!(batch.len(), 3);
    let mut responses = Vec::new();
    for (id, _) in &batch {
        responses.push((*id, MessageResponse::Complete(frame_of(b":1\r\n"))));
    }
    q.fulfill(responses).unwrap();
    let out = q.get_sendable_bufs().unwrap().concat();
    assert_eq!(out, b":3\r\n");
}

#[test]
fn fragment_partial_failure_collapses() {
    // one fragment of a multi-set fails: the parent reply is a single
    // partial-failure error, not a half-assembled structure
    let mut q = MessageQueue::new();
    let batch = q
        .enqueue(vec![cmd(&[b"MSET", b"a", b"1", b"b", b"2"])])
        .unwrap();
    assert_eq!(batch.len(), 2);
    q.fulfill(vec![
        (batch[0].0, MessageResponse::Complete(frame_of(b"+OK\r\n"))),
        (batch[1].0, MessageResponse::Failed),
    ])
    .unwrap();
    let out = q.get_sendable_bufs().unwrap().concat();
    assert_eq!(out, b"-ERR partial failure\r\n");
}

#[test]
fn enqueue_rejects_non_commands() {
    let mut q = MessageQueue::new();
    assert!(q.enqueue(vec![RespFrame::Scalar(RespScalar::Integer(5))]).is_err());
    // the queue is untouched: a later command still works
    let batch = q.enqueue(vec![cmd(&[b"PING"])]).unwrap();
    assert_eq!(batch.len(), 0);
}

#[test]
fn classify_and_defragment_directly() {
    let pieces = classify_message(&cmd(&[b"MGET", b"a", b"bb"])).unwrap();
    assert_eq!(pieces.len(), 2);
    match &pieces[0].0 {
        MessageState::StreamingFragmented(Some(h)) => assert_eq!(&h[..], b"*2\r\n"),
        _ => panic!("first fragment should carry the parent header"),
    }
    match &pieces[1].0 {
        MessageState::StreamingFragmented(None) => {},
        _ => panic!("later fragments carry no header"),
    }

    let frags = fragment_messages(&vec![cmd(&[b"DEL", b"x", b"y"])]).unwrap();
    assert_eq!(frags.len(), 2);
    let mut answered = Vec::new();
    for (st, _) in frags {
        match st {
            MessageState::Fragmented(FragmentOp::MultiDelete, i, n) => {
                assert_eq!(n, 2);
                answered.push((st, frame_of(b":1\r\n")));
                let _ = i;
            },
            _ => panic!("delete pieces are fragments"),
        }
    }
    let parent = defragment_messages(&answered).unwrap();
    assert_eq!(frame_to_buf(&parent), b":2\r\n");

    // mixing fragments of different parents is a structural fault
    let mixed = vec![
        (MessageState::Fragmented(FragmentOp::MultiDelete, 0, 2), frame_of(b":1\r\n")),
        (MessageState::Fragmented(FragmentOp::MultiSet, 1, 2), frame_of(b"+OK\r\n")),
    ];
    assert!(defragment_messages(&mixed).is_err());
}

#[test]
fn keys_and_shards_are_deterministic() {
    let k = get_message_key(&cmd(&[b"GET", b"my_key"]));
    assert_eq!(k, b"my_key");
    // a bare command is keyed by its own name
    let k = get_message_key(&cmd(&[b"PING"]));
    assert_eq!(k, b"PING");

    let s1 = shard_of(&b"my_key".to_vec(), 3);
    let s2 = shard_of(&b"my_key".to_vec(), 3);
    assert_eq!(s1, s2);
    assert!(s1 < 3);

    // the hash is the 64-bit FNV-1a fold of the key bytes
    assert_eq!(shard_of(&b"my_key".to_vec(), 7), 4);
    assert_eq!(shard_of(&b"my_key".to_vec(), 1000003), 524780);
}

#[test]
fn grouped_writes_cover_every_entry() {
    let batch = vec![
        (0usize, cmd(&[b"GET", b"one"])),
        (1usize, cmd(&[b"GET", b"two"])),
        (2usize, cmd(&[b"GET", b"three"])),
        (3usize, cmd(&[b"GET", b"one"])),
    ];
    let groups = generate_batched_redis_writes(&vec![true, true], &batch);
    let mut seen = Vec::new();
    let mut last = None;
    for (idx, sub) in &groups {
        assert!(*idx < 2);
        assert!(!sub.is_empty());
        assert!(last.map_or(true, |l| l < *idx));
        last = Some(*idx);
        for (id, m) in sub {
            let key = get_message_key(m);
            assert_eq!(shard_of(&key, 2), *idx);
            seen.push(*id);
        }
    }
    seen.sort();
    assert_eq!(seen, vec![0, 1, 2, 3]);
    // equal keys land in the same group
    let k = get_message_key(&batch[0].1);
    let home = shard_of(&k, 2);
    let group = groups.iter().find(|g| g.0 == home).unwrap();
    let ids: Vec<usize> = group.1.iter().map(|e| e.0).collect();
    assert!(ids.contains(&0) && ids.contains(&3));
}

#[test]
fn vectored_error_response_covers_all_indexes() {
    let r = to_vectored_error_response(&b"ERR down".to_vec(), &vec![4u64, 9, 2]);
    assert_eq!(r.len(), 3);
    assert_eq!(r[0].0, 4);
    assert_eq!(r[2].0, 2);
    for (_, m) in &r {
        assert_eq!(frame_to_buf(m), b"-ERR down\r\n");
    }
}

#[test]
fn transformer_splits_and_reassembles() {
    let t = RedisRequestTransformer::new();
    let req = vec![(7u64, cmd(&[b"GET", b"a"])), (9u64, cmd(&[b"GET", b"b"]))];
    let (ids, msgs) = t.split_batch(req);
    assert_eq!(ids, vec![7u64, 9]);
    assert_eq!(msgs.len(), 2);
    let resps = vec![frame_of(b"$1\r\nA\r\n"), frame_of(b"$1\r\nB\r\n")];
    let paired = t.reassemble(ids, resps);
    assert_eq!(paired[0].0, 7);
    assert_eq!(frame_to_buf(&paired[0].1), b"$1\r\nA\r\n");
    assert_eq!(paired[1].0, 9);
    assert_eq!(frame_to_buf(&paired[1].1), b"$1\r\nB\r\n");
}

#[test]
fn shadow_split_leaves_default_untouched() {
    let router = ShadowRouter::new();
    let req = vec![(3usize, cmd(&[b"SET", b"two", b"3"])), (4usize, cmd(&[b"GET", b"two"]))];
    let (default_half, shadow_half) = router.split_call(&req);
    assert_eq!(default_half.len(), 2);
    assert_eq!(default_half[0].0, 3);
    assert_eq!(frame_to_buf(&default_half[0].1), frame_to_buf(&req[0].1));
    assert_eq!(default_half[1].0, 4);
    assert_eq!(frame_to_buf(&default_half[1].1), frame_to_buf(&req[1].1));
    // the shadow half carries the same messages but no slot ids
    assert_eq!(shadow_half.len(), 2);
    assert_eq!(frame_to_buf(&shadow_half[0]), frame_to_buf(&req[0].1));
}

#[test]
fn cooloff_state_machine() {
    let mut h = BackendHealth::new(true, 2000, 5);
    let now = 1000u64;
    for _ in 0..4 {
        h.increment_error(now);
        assert!(h.is_healthy(now));
    }
    // the fifth error flips the backend into cool-off
    h.increment_error(now);
    let epoch_in = h.epoch();
    assert_eq!(epoch_in % 2, 1);
    assert!(!h.is_healthy(now));
    assert!(!h.is_healthy(now + 1999));
    // the first probe past the deadline heals it, exactly once
    assert!(h.is_healthy(now + 2000));
    assert_eq!(h.epoch(), epoch_in + 1);
    assert_eq!(h.epoch() % 2, 0);
    assert!(h.is_healthy(now + 2000));
    assert_eq!(h.epoch(), epoch_in + 1);
    // errors start counting from zero again
    h.increment_error(now + 3000);
    assert!(h.is_healthy(now + 3000));
}

#[test]
fn cooloff_disabled_ignores_errors() {
    let mut h = BackendHealth::new(false, 2000, 1);
    h.increment_error(5);
    h.increment_error(6);
    assert!(h.is_healthy(7));
    assert_eq!(h.epoch(), 0);
}

#[test]
fn backend_options_and_queue() {
    let opts = vec![
        (b"conns".to_vec(), b"2".to_vec()),
        (b"cooloff_error_limit".to_vec(), b"5".to_vec()),
        (b"cooloff_timeout_ms".to_vec(), b"2000".to_vec()),
    ];
    let (mut backend, supervisor) = Backend::new(&opts).unwrap();
    assert_eq!(supervisor.conn_limit, 2);
    assert_eq!(supervisor.conn_count, 0);
    assert!(backend.is_healthy(0));

    backend.submit(vec![(1usize, cmd(&[b"GET", b"a"]))]);
    backend.submit(vec![(2usize, cmd(&[b"GET", b"b"]))]);
    let first = backend.take_work().unwrap();
    assert_eq!(first[0].0, 1);
    let second = backend.take_work().unwrap();
    assert_eq!(second[0].0, 2);
    assert!(backend.take_work().is_none());

    let bad = vec![(b"conns".to_vec(), b"many".to_vec())];
    match Backend::new(&bad) {
        Err(CreationError::InvalidParameter(name)) => assert_eq!(name, b"conns"),
        Ok(_) => panic!("unreadable option must fail construction"),
    }
}

#[test]
fn supervisor_and_connection_decisions() {
    let opts: Vec<(Vec<u8>, Vec<u8>)> = Vec::new();
    let (mut backend, mut supervisor) = Backend::new(&opts).unwrap();
    assert_eq!(supervisor.conn_limit, 1);
    assert_eq!(supervisor.spawn_needed(), 1);
    assert_eq!(supervisor.spawn_needed(), 0);
    supervisor.on_command(&mut backend.health, BackendCommand::Error, 10);
    assert_eq!(supervisor.conn_count, 0);
    assert_eq!(backend.health.error_count, 1);
    assert_eq!(supervisor.spawn_needed(), 1);

    let (s, a) = connection_step(ConnectionState::Idle, ConnectionEvent::BatchArrived);
    assert!(matches!(s, ConnectionState::InFlight));
    assert!(matches!(a, ConnectionAction::StartProcess));
    let (s, a) = connection_step(s, ConnectionEvent::OpCompleted);
    assert!(matches!(s, ConnectionState::Idle));
    assert!(matches!(a, ConnectionAction::ReclaimSocket));
    let (_, a) = connection_step(ConnectionState::InFlight, ConnectionEvent::OpFailed);
    assert!(matches!(a, ConnectionAction::ReportErrorAndStop));
    let (_, a) = connection_step(ConnectionState::Idle, ConnectionEvent::QueueClosed);
    assert!(matches!(a, ConnectionAction::Stop));
}

#[test]
fn pipeline_finish_and_close() {
    let mut pipe = Pipeline::new();
    assert!(!pipe.is_done());
    pipe.mark_finished();
    assert!(pipe.is_done());
    assert!(pipe.on_requests(vec![cmd(&[b"PING"])]).is_err());

    let mut sup = BackendSupervisor { conn_count: 0, conn_limit: 0 };
    assert_eq!(sup.spawn_needed(), 0);
}

#[test]
fn processor_trait_delegates() {
    let p = RedisRequestTransformer::new();
    let pieces = p.fragment_messages(&vec![cmd(&[b"PING"])]).unwrap();
    assert_eq!(pieces.len(), 1);
    assert!(matches!(pieces[0].0, MessageState::Inline));
    assert_eq!(frame_to_buf(&pieces[0].1), b"+PONG\r\n");
    assert!(p.fragment_messages(&vec![frame_of(b":1\r\n")]).is_err());

    let e = p.get_error_message_str(&b"ERR busy".to_vec());
    assert_eq!(frame_to_buf(&e), b"-ERR busy\r\n");
}

#[test]
fn pipeline_error_constructors() {
    assert!(matches!(
        PipelineError::from_sink_error(b"broken pipe".to_vec()),
        PipelineError::TransportSend(_)
    ));
    assert!(matches!(
        PipelineError::from_stream_error(b"reset".to_vec()),
        PipelineError::TransportReceive(_)
    ));
    assert!(matches!(
        PipelineError::from_service_error(b"overload".to_vec()),
        PipelineError::Service(_)
    ));
}

#[test]
fn muted_fragments_emit_nothing() {
    // with replies off, even a fragment group is consumed silently
    let mut q = MessageQueue::new();
    let off = q.enqueue(vec![cmd(&[b"CLIENT", b"REPLY", b"OFF"])]).unwrap();
    assert!(off.is_empty());
    let batch = q.enqueue(vec![cmd(&[b"MGET", b"a", b"b"])]).unwrap();
    assert_eq!(batch.len(), 2);
    q.fulfill(vec![
        (batch[0].0, MessageResponse::Complete(frame_of(b"$1\r\nA\r\n"))),
        (batch[1].0, MessageResponse::Complete(frame_of(b"$1\r\nB\r\n"))),
    ])
    .unwrap();
    let out = q.get_sendable_bufs().unwrap();
    assert!(out.concat().is_empty());
    // the slots are gone all the same
    assert!(q.get_sendable_bufs().is_none());
}

#[test]
fn errors_keep_counting_while_cooling() {
    let mut h = BackendHealth::new(true, 2000, 2);
    h.increment_error(0);
    h.increment_error(0);
    assert!(!h.is_healthy(0));
    let epoch_in = h.epoch();
    assert_eq!(h.error_count, 2);
    // a further error while cooling still counts, but neither bumps
    // the epoch nor re-arms the deadline
    h.increment_error(500);
    assert_eq!(h.error_count, 3);
    assert_eq!(h.epoch(), epoch_in);
    assert!(!h.is_healthy(1999));
    assert!(h.is_healthy(2000));
    assert_eq!(h.error_count, 0);
}

#[test]
fn failover_routes_around_cooling_backend() {
    let batch = vec![(0usize, cmd(&[b"GET", b"two"]))];
    let key = get_message_key(&batch[0].1);
    let home = shard_of(&key, 2);
    let other = 1 - home;

    // both healthy: the key stays home
    let groups = generate_batched_redis_writes(&vec![true, true], &batch);
    assert_eq!(groups.len(), 1);
    assert_eq!(groups[0].0, home);

    // the home backend cools: the same key is served by the other one
    let mut healthy = vec![true, true];
    healthy[home] = false;
    let groups = generate_batched_redis_writes(&healthy, &batch);
    assert_eq!(groups.len(), 1);
    assert_eq!(groups[0].0, other);

    // the cool-off expired: the home backend is retried
    let groups = generate_batched_redis_writes(&vec![true, true], &batch);
    assert_eq!(groups[0].0, home);

    // nothing healthy at all: the home is tried anyway
    let groups = generate_batched_redis_writes(&vec![false, false], &batch);
    assert_eq!(groups[0].0, home);

    // the walk itself, wrapping past the end
    assert_eq!(pick_backend(0, &vec![true, false]), 0);
    assert_eq!(pick_backend(0, &vec![false, true]), 1);
    assert_eq!(pick_backend(1, &vec![false, true]), 1);
    assert_eq!(pick_backend(1, &vec![true, false]), 0);
    assert_eq!(pick_backend(1, &vec![false, false, true]), 2);
    assert_eq!(pick_backend(2, &vec![true, false, false]), 0);
}

