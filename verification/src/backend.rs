//! Backends, their supervisor, and their connections' decisions.
//!
//! A backend owns a FIFO work queue of dispatched batches and the
//! health tracker its supervisor feeds.  The supervisor and connection
//! loops themselves perform I/O and therefore live with the caller;
//! what is here is every decision they take: how an error report
//! changes the connection count and the health state, how many
//! connections to spawn, and how a connection reacts to each event.

use vstd::prelude::*;

use crate::health::BackendHealth;
use crate::parse::dec_val;
use crate::parse::is_canon_u;
use crate::parse::parse_uint;
use crate::queue::AssignedBatch;

verus! {

/// A fault found while building a backend.
#[derive(Debug)]
pub enum CreationError {
    /// The named option holds a value that cannot be read.
    InvalidParameter(Vec<u8>),
}

/// The opaque identity of a backend.
pub struct BackendDescriptor {}

/// Commands sent by backend connections to their backend supervisor.
pub enum BackendCommand {
    /// The connection has encountered an error, has terminated, and
    /// will need to be replaced.
    Error,
}

/// Bytes of the option name `conns`.
pub open spec fn k_conns() -> Seq<u8> {
    seq![99u8, 111u8, 110u8, 110u8, 115u8]
}

/// Bytes of the option name `cooloff_enabled`.
pub open spec fn k_cooloff_enabled() -> Seq<u8> {
    seq![
        99u8, 111u8, 111u8, 108u8, 111u8, 102u8, 102u8, 95u8, 101u8, 110u8, 97u8, 98u8, 108u8,
        101u8, 100u8,
    ]
}

/// Bytes of the option name `cooloff_timeout_ms`.
pub open spec fn k_cooloff_timeout_ms() -> Seq<u8> {
    seq![
        99u8, 111u8, 111u8, 108u8, 111u8, 102u8, 102u8, 95u8, 116u8, 105u8, 109u8, 101u8, 111u8,
        117u8, 116u8, 95u8, 109u8, 115u8,
    ]
}

/// Bytes of the option name `cooloff_error_limit`.
pub open spec fn k_cooloff_error_limit() -> Seq<u8> {
    seq![
        99u8, 111u8, 111u8, 108u8, 111u8, 102u8, 102u8, 95u8, 101u8, 114u8, 114u8, 111u8, 114u8,
        95u8, 108u8, 105u8, 109u8, 105u8, 116u8,
    ]
}

/// Bytes of the word `true`.
pub open spec fn w_true() -> Seq<u8> {
    seq![116u8, 114u8, 117u8, 101u8]
}

/// Bytes of the word `false`.
pub open spec fn w_false() -> Seq<u8> {
    seq![102u8, 97u8, 108u8, 115u8, 101u8]
}

/// The value of the first option with the given name.
pub open spec fn spec_opt_value(opts: Seq<(Seq<u8>, Seq<u8>)>, key: Seq<u8>) -> Option<Seq<u8>>
    decreases opts.len(),
{
    if opts.len() == 0 {
        None
    } else if opts[0].0 == key {
        Some(opts[0].1)
    } else {
        spec_opt_value(opts.drop_first(), key)
    }
}

/// A numeric option: its canonical decimal value within `bound`, the
/// default when absent, or nothing when unreadable.
pub open spec fn spec_u64_opt(
    opts: Seq<(Seq<u8>, Seq<u8>)>,
    key: Seq<u8>,
    default: u64,
    bound: int,
) -> Option<u64> {
    match spec_opt_value(opts, key) {
        None => Some(default),
        Some(v) => if is_canon_u(v) && dec_val(v) <= bound {
            Some(dec_val(v) as u64)
        } else {
            None
        },
    }
}

/// A boolean option: `true` or `false`, the default when absent, or
/// nothing when unreadable.
pub open spec fn spec_bool_opt(opts: Seq<(Seq<u8>, Seq<u8>)>, key: Seq<u8>, default: bool) -> Option<
    bool,
> {
    match spec_opt_value(opts, key) {
        None => Some(default),
        Some(v) => if v == w_true() {
            Some(true)
        } else if v == w_false() {
            Some(false)
        } else {
            None
        },
    }
}

/// The view of an option list.
pub open spec fn opts_view(opts: Seq<(Vec<u8>, Vec<u8>)>) -> Seq<(Seq<u8>, Seq<u8>)> {
    opts.map_values(|p: (Vec<u8>, Vec<u8>)| (p.0@, p.1@))
}

/// Whether two byte buffers hold the same bytes.
pub fn bytes_eq(a: &Vec<u8>, b: &Vec<u8>) -> (r: bool)
    ensures
        r == (a@ == b@),
{
    if a.len() != b.len() {
        return false;
    }
    let mut i: usize = 0;
    while i < a.len()
        invariant
            i <= a@.len(),
            a@.len() == b@.len(),
            forall|k: int| 0 <= k < i ==> a@[k] == b@[k],
        decreases a@.len() - i,
    {
        if a[i] != b[i] {
            return false;
        }
        i = i + 1;
    }
    proof {
        assert(a@ =~= b@);
    }
    true
}

/// The value of the first option with the given name.
fn opt_get<'a>(opts: &'a Vec<(Vec<u8>, Vec<u8>)>, key: &Vec<u8>) -> (r: Option<&'a Vec<u8>>)
    ensures
        (r matches Some(v) ==> spec_opt_value(opts_view(opts@), key@) == Some(v@)),
        (r is None ==> spec_opt_value(opts_view(opts@), key@) is None),
{
    let ghost ov = opts_view(opts@);
    proof {
        assert(ov.skip(0) =~= ov);
    }
    let mut i: usize = 0;
    while i < opts.len()
        invariant
            i <= opts@.len(),
            ov == opts_view(opts@),
            spec_opt_value(ov, key@) == spec_opt_value(ov.skip(i as int), key@),
        decreases opts@.len() - i,
    {
        proof {
            assert(ov.skip(i as int)[0] == ov[i as int]);
            assert(ov[i as int] == (opts@[i as int].0@, opts@[i as int].1@));
            assert(ov.skip(i as int).drop_first() =~= ov.skip(i as int + 1));
        }
        if bytes_eq(&opts[i].0, key) {
            return Some(&opts[i].1);
        }
        i = i + 1;
    }
    proof {
        assert(ov.skip(ov.len() as int) =~= Seq::<(Seq<u8>, Seq<u8>)>::empty());
    }
    None
}

/// Read a numeric option or its default.
fn u64_opt(opts: &Vec<(Vec<u8>, Vec<u8>)>, key: &Vec<u8>, default: u64, bound: u64) -> (r: Option<
    u64,
>)
    requires
        default <= bound,
    ensures
        r == spec_u64_opt(opts_view(opts@), key@, default, bound as int),
        (r matches Some(v) ==> v <= bound),
{
    match opt_get(opts, key) {
        None => Some(default),
        Some(v) => {
            match parse_uint(v, 0, v.len()) {
                None => {
                    proof {
                        assert(v@.subrange(0, v@.len() as int) =~= v@);
                    }
                    None
                },
                Some(n) => {
                    proof {
                        assert(v@.subrange(0, v@.len() as int) =~= v@);
                    }
                    if n <= bound {
                        Some(n)
                    } else {
                        None
                    }
                },
            }
        },
    }
}

/// Read a boolean option or its default.
fn bool_opt(opts: &Vec<(Vec<u8>, Vec<u8>)>, key: &Vec<u8>, default: bool) -> (r: Option<bool>)
    ensures
        r == spec_bool_opt(opts_view(opts@), key@, default),
{
    match opt_get(opts, key) {
        None => Some(default),
        Some(v) => {
            let t: Vec<u8> = vec![116u8, 114, 117, 101];
            let f: Vec<u8> = vec![102u8, 97, 108, 115, 101];
            proof {
                assert(t@ =~= w_true());
                assert(f@ =~= w_false());
            }
            if bytes_eq(v, &t) {
                Some(true)
            } else if bytes_eq(v, &f) {
                Some(false)
            } else {
                None
            }
        },
    }
}

/// The option name `conns` as a fresh buffer.
fn mk_conns() -> (r: Vec<u8>)
    ensures
        r@ == k_conns(),
{
    let v: Vec<u8> = vec![99u8, 111, 110, 110, 115];
    proof {
        assert(v@ =~= k_conns());
    }
    v
}

/// The option name `cooloff_enabled` as a fresh buffer.
fn mk_cooloff_enabled() -> (r: Vec<u8>)
    ensures
        r@ == k_cooloff_enabled(),
{
    let v: Vec<u8> = vec![99u8, 111, 111, 108, 111, 102, 102, 95, 101, 110, 97, 98, 108, 101, 100];
    proof {
        assert(v@ =~= k_cooloff_enabled());
    }
    v
}

/// The option name `cooloff_timeout_ms` as a fresh buffer.
fn mk_cooloff_timeout_ms() -> (r: Vec<u8>)
    ensures
        r@ == k_cooloff_timeout_ms(),
{
    let v: Vec<u8> = vec![
        99u8, 111, 111, 108, 111, 102, 102, 95, 116, 105, 109, 101, 111, 117, 116, 95, 109, 115,
    ];
    proof {
        assert(v@ =~= k_cooloff_timeout_ms());
    }
    v
}

/// The option name `cooloff_error_limit` as a fresh buffer.
fn mk_cooloff_error_limit() -> (r: Vec<u8>)
    ensures
        r@ == k_cooloff_error_limit(),
{
    let v: Vec<u8> = vec![
        99u8, 111, 111, 108, 111, 102, 102, 95, 101, 114, 114, 111, 114, 95, 108, 105, 109, 105,
        116,
    ];
    proof {
        assert(v@ =~= k_cooloff_error_limit());
    }
    v
}

/// Managed connections to one backend server.
///
/// The backend is the producer-side facade: submissions land on its
/// FIFO work queue, and health is shared with the supervisor that
/// feeds it.  The sockets themselves belong to connection tasks run
/// by the caller.
pub struct Backend {
    /// The backend's health tracker.
    pub health: BackendHealth,
    /// Dispatched batches awaiting a connection, oldest first.
    pub work_queue: Vec<AssignedBatch>,
}

/// The connection-population state machine run beside a backend.
///
/// The supervisor owns the live-connection count; its decisions are
/// the verified methods below, while the channel plumbing and task
/// spawning they steer stay with the caller.
pub struct BackendSupervisor {
    /// Connections currently believed alive.
    pub conn_count: usize,
    /// The population to maintain.
    pub conn_limit: usize,
}

impl Backend {
    /// Build a backend and its supervisor from listener options.
    ///
    /// Recognised options, with their defaults: `conns` (1),
    /// `cooloff_enabled` (true), `cooloff_timeout_ms` (10000) and
    /// `cooloff_error_limit` (5).  Numeric values are read in
    /// canonical decimal — digits only, no sign, no leading zeros.
    /// The first option, in that order, whose value cannot be read
    /// fails construction and is named in the error.
    pub fn new(opts: &Vec<(Vec<u8>, Vec<u8>)>) -> (r: Result<
        (Backend, BackendSupervisor),
        CreationError,
    >)
        ensures
            ({
                let ov = opts_view(opts@);
                let conns = spec_u64_opt(ov, k_conns(), 1, usize::MAX as int);
                let enabled = spec_bool_opt(ov, k_cooloff_enabled(), true);
                let timeout = spec_u64_opt(ov, k_cooloff_timeout_ms(), 10000, u64::MAX as int);
                let limit = spec_u64_opt(ov, k_cooloff_error_limit(), 5, usize::MAX as int);
                &&& (r is Err <==> conns is None || enabled is None || timeout is None || limit
                    is None)
                &&& (conns is None ==> (r matches Err(CreationError::InvalidParameter(n)) && n@
                    == k_conns()))
                &&& (conns is Some && enabled is None ==> (r matches Err(
                    CreationError::InvalidParameter(n),
                ) && n@ == k_cooloff_enabled()))
                &&& (conns is Some && enabled is Some && timeout is None ==> (r matches Err(
                    CreationError::InvalidParameter(n),
                ) && n@ == k_cooloff_timeout_ms()))
                &&& (conns is Some && enabled is Some && timeout is Some && limit is None ==> (
                r matches Err(CreationError::InvalidParameter(n)) && n@
                    == k_cooloff_error_limit()))
                &&& (r matches Ok(pair) ==> {
                    &&& pair.0.health.wf()
                    &&& pair.0.health.cooloff_enabled == enabled.unwrap()
                    &&& pair.0.health.cooloff_period_ms == timeout.unwrap()
                    &&& pair.0.health.error_limit as int == (if limit.unwrap() == 0 {
                        1int
                    } else {
                        limit.unwrap() as int
                    })
                    &&& pair.0.health.error_count == 0
                    &&& !pair.0.health.in_cooloff
                    &&& pair.0.work_queue@.len() == 0
                    &&& pair.1.conn_count == 0
                    &&& pair.1.conn_limit as int == conns.unwrap() as int
                })
            }),
    {
        let key = mk_conns();
        let conns = match u64_opt(opts, &key, 1, usize::MAX as u64) {
            Some(c) => c,
            None => {
                return Err(CreationError::InvalidParameter(key));
            },
        };
        let key = mk_cooloff_enabled();
        let enabled = match bool_opt(opts, &key, true) {
            Some(b) => b,
            None => {
                return Err(CreationError::InvalidParameter(key));
            },
        };
        let key = mk_cooloff_timeout_ms();
        let timeout = match u64_opt(opts, &key, 10000, u64::MAX) {
            Some(t) => t,
            None => {
                return Err(CreationError::InvalidParameter(key));
            },
        };
        let key = mk_cooloff_error_limit();
        let limit = match u64_opt(opts, &key, 5, usize::MAX as u64) {
            Some(l) => l,
            None => {
                return Err(CreationError::InvalidParameter(key));
            },
        };
        let backend = Backend {
            health: BackendHealth::new(enabled, timeout, limit as usize),
            work_queue: Vec::new(),
        };
        let supervisor = BackendSupervisor { conn_count: 0, conn_limit: conns as usize };
        Ok((backend, supervisor))
    }

    /// Push one dispatched batch onto the work queue.
    ///
    /// Submission is non-blocking and keeps this producer's order.
    pub fn submit(&mut self, batch: AssignedBatch)
        ensures
            final(self).work_queue@ == old(self).work_queue@.push(batch),
            final(self).health == old(self).health,
    {
        self.work_queue.push(batch);
    }

    /// Pop the oldest waiting batch, as a connection does.
    pub fn take_work(&mut self) -> (r: Option<AssignedBatch>)
        ensures
            final(self).health == old(self).health,
            (old(self).work_queue@.len() == 0 ==> r is None && final(self).work_queue@ == old(
                self,
            ).work_queue@),
            (old(self).work_queue@.len() > 0 ==> (r matches Some(b) && b == old(
                self,
            ).work_queue@[0]) && final(self).work_queue@ == old(self).work_queue@.drop_first()),
    {
        if self.work_queue.len() == 0 {
            None
        } else {
            let b = self.work_queue.remove(0);
            proof {
                assert(self.work_queue@ =~= old(self).work_queue@.drop_first());
            }
            Some(b)
        }
    }

    /// Probe the backend's health at clock reading `now`.
    pub fn is_healthy(&mut self, now: u64) -> (r: bool)
        requires
            old(self).health.wf(),
        ensures
            r == old(self).health.spec_is_healthy(now),
            final(self).health == old(self).health.spec_after_probe(now),
            final(self).health.wf(),
            final(self).work_queue@ == old(self).work_queue@,
    {
        self.health.is_healthy(now)
    }

    /// The backend's opaque identity.
    pub fn get_descriptor(&self) -> BackendDescriptor {
        BackendDescriptor {}
    }
}

impl BackendSupervisor {
    /// Absorb one command from a connection at clock reading `now`.
    ///
    /// An error report means the connection died: the live count drops
    /// by one and the health tracker records one error.
    pub fn on_command(&mut self, health: &mut BackendHealth, cmd: BackendCommand, now: u64)
        requires
            old(self).conn_count >= 1,
            old(health).wf(),
        ensures
            final(self).conn_count == old(self).conn_count - 1,
            final(self).conn_limit == old(self).conn_limit,
            *final(health) == old(health).spec_after_error(now),
            final(health).wf(),
    {
        match cmd {
            BackendCommand::Error => {
                self.conn_count = self.conn_count - 1;
                health.increment_error(now);
            },
        }
    }

    /// Bring the population back to the limit.
    ///
    /// Returns how many fresh connections the caller must spawn; the
    /// count is taken as spawned.
    pub fn spawn_needed(&mut self) -> (r: usize)
        ensures
            final(self).conn_limit == old(self).conn_limit,
            old(self).conn_count >= old(self).conn_limit ==> r == 0 && final(self).conn_count
                == old(self).conn_count,
            old(self).conn_count < old(self).conn_limit ==> r == old(self).conn_limit - old(
                self,
            ).conn_count && final(self).conn_count == old(self).conn_limit,
    {
        if self.conn_count >= self.conn_limit {
            0
        } else {
            let n = self.conn_limit - self.conn_count;
            self.conn_count = self.conn_limit;
            n
        }
    }
}

/// Where one backend connection stands.
#[derive(Clone, Copy)]
pub enum ConnectionState {
    /// No operation in flight; ready to pull work.
    Idle,
    /// An upstream exchange is being driven.
    InFlight,
}

/// What a backend connection observes on one poll.
#[derive(Clone, Copy)]
pub enum ConnectionEvent {
    /// The in-flight operation finished and returned the socket.
    OpCompleted,
    /// The in-flight operation failed.
    OpFailed,
    /// A batch arrived from the work queue.
    BatchArrived,
    /// The work queue closed: no more batches will come.
    QueueClosed,
}

/// What a backend connection must do next.
pub enum ConnectionAction {
    /// Reclaim the socket and look for more work.
    ReclaimSocket,
    /// Report the error to the supervisor and terminate; the
    /// connection is not reused.
    ReportErrorAndStop,
    /// Hand the batch and the connect-or-reuse socket to the
    /// processor.
    StartProcess,
    /// Terminate cleanly.
    Stop,
    /// Nothing to do for this event in this state.
    Wait,
}

/// The decision a connection takes for one event.
pub open spec fn spec_connection_step(s: ConnectionState, ev: ConnectionEvent) -> (
    ConnectionState,
    ConnectionAction,
) {
    match (s, ev) {
        (ConnectionState::InFlight, ConnectionEvent::OpCompleted) => (
            ConnectionState::Idle,
            ConnectionAction::ReclaimSocket,
        ),
        (ConnectionState::InFlight, ConnectionEvent::OpFailed) => (
            ConnectionState::Idle,
            ConnectionAction::ReportErrorAndStop,
        ),
        (ConnectionState::Idle, ConnectionEvent::BatchArrived) => (
            ConnectionState::InFlight,
            ConnectionAction::StartProcess,
        ),
        (ConnectionState::Idle, ConnectionEvent::QueueClosed) => (
            ConnectionState::Idle,
            ConnectionAction::Stop,
        ),
        _ => (s, ConnectionAction::Wait),
    }
}

/// The decision a connection takes for one event.
///
/// An in-flight operation is driven to its end before new work is
/// pulled; a failed operation is reported and ends the task, so a
/// socket is never returned mid-exchange.
pub fn connection_step(s: ConnectionState, ev: ConnectionEvent) -> (r: (
    ConnectionState,
    ConnectionAction,
))
    ensures
        r == spec_connection_step(s, ev),
{
    match (s, ev) {
        (ConnectionState::InFlight, ConnectionEvent::OpCompleted) => (
            ConnectionState::Idle,
            ConnectionAction::ReclaimSocket,
        ),
        (ConnectionState::InFlight, ConnectionEvent::OpFailed) => (
            ConnectionState::Idle,
            ConnectionAction::ReportErrorAndStop,
        ),
        (ConnectionState::Idle, ConnectionEvent::BatchArrived) => (
            ConnectionState::InFlight,
            ConnectionAction::StartProcess,
        ),
        (ConnectionState::Idle, ConnectionEvent::QueueClosed) => (
            ConnectionState::Idle,
            ConnectionAction::Stop,
        ),
        (ConnectionState::Idle, ConnectionEvent::OpCompleted) => (s, ConnectionAction::Wait),
        (ConnectionState::Idle, ConnectionEvent::OpFailed) => (s, ConnectionAction::Wait),
        (ConnectionState::InFlight, ConnectionEvent::BatchArrived) => (s, ConnectionAction::Wait),
        (ConnectionState::InFlight, ConnectionEvent::QueueClosed) => (s, ConnectionAction::Wait),
    }
}

} // verus!
