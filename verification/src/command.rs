//! Command classification and fragmentation.
//!
//! The engine recognises a handful of commands semantically rather than
//! forwarding them untouched: multi-key commands are split into one
//! fragment per key, and a few commands are answered inline without
//! any backend.  A command it does not recognise is forwarded
//! unchanged to the shard its key picks, and the upstream answers or
//! errors as it sees fit; only a bare unknown command — one with no
//! argument to take for a key — earns the unsupported-command error
//! locally.  Command name comparison is ASCII case-insensitive.

use vstd::prelude::*;

use crate::queue::FragmentOp;
use crate::queue::MessageState;
use crate::queue::StateV;
use crate::queue::pieces_view;
use crate::resp::FrameV;
use crate::resp::RespFrame;
use crate::resp::RespScalar;
use crate::resp::ScalarV;
use crate::resp::array_header;
use crate::resp::dup_bytes;
use crate::resp::dup_frame;
use crate::resp::enc_array_header;

verus! {

/// A structural fault in what was handed to the fragmenter or
/// defragmenter.
#[derive(Debug)]
pub enum ProcessorError {
    /// The frame is not a client command (an array of bulk strings).
    InvalidRequest,
    /// The fragment set is empty or mixes fragments of different parents.
    InvalidFragments,
}

/// ASCII uppercase of one byte.
pub open spec fn ascii_up(c: u8) -> u8 {
    if 97 <= c && c <= 122 {
        (c - 32) as u8
    } else {
        c
    }
}

/// ASCII uppercase of a byte string.
pub open spec fn upper(s: Seq<u8>) -> Seq<u8> {
    s.map_values(|c: u8| ascii_up(c))
}

/// Bytes of the word `GET`.
pub open spec fn w_get() -> Seq<u8> {
    seq![71u8, 69u8, 84u8]
}

/// Bytes of the word `SET`.
pub open spec fn w_set() -> Seq<u8> {
    seq![83u8, 69u8, 84u8]
}

/// Bytes of the word `DEL`.
pub open spec fn w_del() -> Seq<u8> {
    seq![68u8, 69u8, 76u8]
}

/// Bytes of the word `MGET`.
pub open spec fn w_mget() -> Seq<u8> {
    seq![77u8, 71u8, 69u8, 84u8]
}

/// Bytes of the word `MSET`.
pub open spec fn w_mset() -> Seq<u8> {
    seq![77u8, 83u8, 69u8, 84u8]
}

/// Bytes of the word `PING`.
pub open spec fn w_ping() -> Seq<u8> {
    seq![80u8, 73u8, 78u8, 71u8]
}

/// Bytes of the word `QUIT`.
pub open spec fn w_quit() -> Seq<u8> {
    seq![81u8, 85u8, 73u8, 84u8]
}

/// Bytes of the word `CLIENT`.
pub open spec fn w_client() -> Seq<u8> {
    seq![67u8, 76u8, 73u8, 69u8, 78u8, 84u8]
}

/// Bytes of the word `REPLY`.
pub open spec fn w_reply() -> Seq<u8> {
    seq![82u8, 69u8, 80u8, 76u8, 89u8]
}

/// Bytes of the word `ON`.
pub open spec fn w_on() -> Seq<u8> {
    seq![79u8, 78u8]
}

/// Bytes of the word `OFF`.
pub open spec fn w_off() -> Seq<u8> {
    seq![79u8, 70u8, 70u8]
}

/// Bytes of the word `SKIP`.
pub open spec fn w_skip() -> Seq<u8> {
    seq![83u8, 75u8, 73u8, 80u8]
}

/// Bytes of the word `OK`.
pub open spec fn w_ok() -> Seq<u8> {
    seq![79u8, 75u8]
}

/// Bytes of the word `PONG`.
pub open spec fn w_pong() -> Seq<u8> {
    seq![80u8, 79u8, 78u8, 71u8]
}

/// Bytes of `ERR unsupported command`.
pub open spec fn err_unsupported() -> Seq<u8> {
    seq![
        69u8, 82u8, 82u8, 32u8, 117u8, 110u8, 115u8, 117u8, 112u8, 112u8, 111u8, 114u8, 116u8,
        101u8, 100u8, 32u8, 99u8, 111u8, 109u8, 109u8, 97u8, 110u8, 100u8,
    ]
}

/// Bytes of `ERR wrong number of arguments`.
pub open spec fn err_wrong_args() -> Seq<u8> {
    seq![
        69u8, 82u8, 82u8, 32u8, 119u8, 114u8, 111u8, 110u8, 103u8, 32u8, 110u8, 117u8, 109u8,
        98u8, 101u8, 114u8, 32u8, 111u8, 102u8, 32u8, 97u8, 114u8, 103u8, 117u8, 109u8, 101u8,
        110u8, 116u8, 115u8,
    ]
}

/// Bytes of `ERR failed to receive response`.
pub open spec fn err_failed() -> Seq<u8> {
    seq![
        69u8, 82u8, 82u8, 32u8, 102u8, 97u8, 105u8, 108u8, 101u8, 100u8, 32u8, 116u8, 111u8, 32u8,
        114u8, 101u8, 99u8, 101u8, 105u8, 118u8, 101u8, 32u8, 114u8, 101u8, 115u8, 112u8, 111u8,
        110u8, 115u8, 101u8,
    ]
}

/// Bytes of `ERR partial failure`.
pub open spec fn err_partial() -> Seq<u8> {
    seq![
        69u8, 82u8, 82u8, 32u8, 112u8, 97u8, 114u8, 116u8, 105u8, 97u8, 108u8, 32u8, 102u8, 97u8,
        105u8, 108u8, 117u8, 114u8, 101u8,
    ]
}

/// The word `GET` as a fresh buffer.
pub fn mk_get() -> (r: Vec<u8>)
    ensures
        r@ == w_get(),
{
    let v: Vec<u8> = vec![71u8, 69, 84];
    proof {
        assert(v@ =~= w_get());
    }
    v
}

/// The word `SET` as a fresh buffer.
pub fn mk_set() -> (r: Vec<u8>)
    ensures
        r@ == w_set(),
{
    let v: Vec<u8> = vec![83u8, 69, 84];
    proof {
        assert(v@ =~= w_set());
    }
    v
}

/// The word `DEL` as a fresh buffer.
pub fn mk_del() -> (r: Vec<u8>)
    ensures
        r@ == w_del(),
{
    let v: Vec<u8> = vec![68u8, 69, 76];
    proof {
        assert(v@ =~= w_del());
    }
    v
}

/// The reply `+OK` as a frame.
pub fn ok_frame() -> (r: RespFrame)
    ensures
        r@ == FrameV::Scalar(ScalarV::Simple(w_ok())),
{
    let v: Vec<u8> = vec![79u8, 75];
    proof {
        assert(v@ =~= w_ok());
    }
    RespFrame::Scalar(RespScalar::Simple(v))
}

/// The reply `+PONG` as a frame.
pub fn pong_frame() -> (r: RespFrame)
    ensures
        r@ == FrameV::Scalar(ScalarV::Simple(w_pong())),
{
    let v: Vec<u8> = vec![80u8, 79, 78, 71];
    proof {
        assert(v@ =~= w_pong());
    }
    RespFrame::Scalar(RespScalar::Simple(v))
}

/// The error reply for an unsupported command.
pub fn unsupported_frame() -> (r: RespFrame)
    ensures
        r@ == FrameV::Scalar(ScalarV::ErrorMsg(err_unsupported())),
{
    let v: Vec<u8> = vec![
        69u8, 82, 82, 32, 117, 110, 115, 117, 112, 112, 111, 114, 116, 101, 100, 32, 99, 111, 109,
        109, 97, 110, 100,
    ];
    proof {
        assert(v@ =~= err_unsupported());
    }
    RespFrame::Scalar(RespScalar::ErrorMsg(v))
}

/// The error reply for a command with a bad argument count.
pub fn wrong_args_frame() -> (r: RespFrame)
    ensures
        r@ == FrameV::Scalar(ScalarV::ErrorMsg(err_wrong_args())),
{
    let v: Vec<u8> = vec![
        69u8, 82, 82, 32, 119, 114, 111, 110, 103, 32, 110, 117, 109, 98, 101, 114, 32, 111, 102,
        32, 97, 114, 103, 117, 109, 101, 110, 116, 115,
    ];
    proof {
        assert(v@ =~= err_wrong_args());
    }
    RespFrame::Scalar(RespScalar::ErrorMsg(v))
}

/// The error reply substituted for a failed sub-request.
pub fn failed_frame() -> (r: RespFrame)
    ensures
        r@ == FrameV::Scalar(ScalarV::ErrorMsg(err_failed())),
{
    let v: Vec<u8> = vec![
        69u8, 82, 82, 32, 102, 97, 105, 108, 101, 100, 32, 116, 111, 32, 114, 101, 99, 101, 105,
        118, 101, 32, 114, 101, 115, 112, 111, 110, 115, 101,
    ];
    proof {
        assert(v@ =~= err_failed());
    }
    RespFrame::Scalar(RespScalar::ErrorMsg(v))
}

/// The error reply for a fragment group that could not be coalesced.
pub fn partial_failure_frame() -> (r: RespFrame)
    ensures
        r@ == FrameV::Scalar(ScalarV::ErrorMsg(err_partial())),
{
    let v: Vec<u8> = vec![
        69u8, 82, 82, 32, 112, 97, 114, 116, 105, 97, 108, 32, 102, 97, 105, 108, 117, 114, 101,
    ];
    proof {
        assert(v@ =~= err_partial());
    }
    RespFrame::Scalar(RespScalar::ErrorMsg(v))
}

/// ASCII uppercase of a byte buffer.
pub fn upper_bytes(v: &Vec<u8>) -> (r: Vec<u8>)
    ensures
        r@ == upper(v@),
{
    let mut r: Vec<u8> = Vec::new();
    let mut i: usize = 0;
    while i < v.len()
        invariant
            i <= v@.len(),
            r@.len() == i,
            forall|j: int| 0 <= j < i ==> r@[j] == ascii_up(v@[j]),
        decreases v@.len() - i,
    {
        let c = v[i];
        if 97 <= c && c <= 122 {
            r.push(c - 32);
        } else {
            r.push(c);
        }
        i = i + 1;
    }
    proof {
        assert(r@ =~= upper(v@));
    }
    r
}

/// The command names this engine treats specially.
#[derive(Clone, Copy, PartialEq, Eq, Structural)]
pub enum CmdName {
    Mget,
    Mset,
    Del,
    Ping,
    Quit,
    Client,
    Other,
}

/// The special name, if any, that a command name matches after case
/// folding.
pub open spec fn spec_cmd_name(s: Seq<u8>) -> CmdName {
    let u = upper(s);
    if u == w_mget() {
        CmdName::Mget
    } else if u == w_mset() {
        CmdName::Mset
    } else if u == w_del() {
        CmdName::Del
    } else if u == w_ping() {
        CmdName::Ping
    } else if u == w_quit() {
        CmdName::Quit
    } else if u == w_client() {
        CmdName::Client
    } else {
        CmdName::Other
    }
}

/// Classify a command name, ASCII case-insensitively.
pub fn command_name(s: &Vec<u8>) -> (r: CmdName)
    ensures
        r == spec_cmd_name(s@),
{
    let u = upper_bytes(s);
    let n = u.len();
    if n == 4 && u[0] == 77 && u[1] == 71 && u[2] == 69 && u[3] == 84 {
        proof {
            assert(u@ =~= w_mget());
        }
        CmdName::Mget
    } else if n == 4 && u[0] == 77 && u[1] == 83 && u[2] == 69 && u[3] == 84 {
        proof {
            assert(u@ =~= w_mset());
        }
        CmdName::Mset
    } else if n == 3 && u[0] == 68 && u[1] == 69 && u[2] == 76 {
        proof {
            assert(u@ =~= w_del());
        }
        CmdName::Del
    } else if n == 4 && u[0] == 80 && u[1] == 73 && u[2] == 78 && u[3] == 71 {
        proof {
            assert(u@ =~= w_ping());
        }
        CmdName::Ping
    } else if n == 4 && u[0] == 81 && u[1] == 85 && u[2] == 73 && u[3] == 84 {
        proof {
            assert(u@ =~= w_quit());
        }
        CmdName::Quit
    } else if n == 6 && u[0] == 67 && u[1] == 76 && u[2] == 73 && u[3] == 69 && u[4] == 78 && u[5]
        == 84 {
        proof {
            assert(u@ =~= w_client());
        }
        CmdName::Client
    } else {
        proof {
            assert(u@ != w_mget());
            assert(u@ != w_mset());
            assert(u@ != w_del());
            assert(u@ != w_ping());
            assert(u@ != w_quit());
            assert(u@ != w_client());
        }
        CmdName::Other
    }
}

/// Whether an uppercased word is `REPLY`.
pub fn word_is_reply(u: &Vec<u8>) -> (r: bool)
    ensures
        r == (u@ == w_reply()),
{
    let n = u.len();
    if n == 5 && u[0] == 82 && u[1] == 69 && u[2] == 80 && u[3] == 76 && u[4] == 89 {
        proof {
            assert(u@ =~= w_reply());
        }
        true
    } else {
        proof {
            assert(u@ != w_reply());
        }
        false
    }
}

/// Whether an uppercased word is `ON`.
pub fn word_is_on(u: &Vec<u8>) -> (r: bool)
    ensures
        r == (u@ == w_on()),
{
    let n = u.len();
    if n == 2 && u[0] == 79 && u[1] == 78 {
        proof {
            assert(u@ =~= w_on());
        }
        true
    } else {
        proof {
            assert(u@ != w_on());
        }
        false
    }
}

/// Whether an uppercased word is `OFF`.
pub fn word_is_off(u: &Vec<u8>) -> (r: bool)
    ensures
        r == (u@ == w_off()),
{
    let n = u.len();
    if n == 3 && u[0] == 79 && u[1] == 70 && u[2] == 70 {
        proof {
            assert(u@ =~= w_off());
        }
        true
    } else {
        proof {
            assert(u@ != w_off());
        }
        false
    }
}

/// Whether an uppercased word is `SKIP`.
pub fn word_is_skip(u: &Vec<u8>) -> (r: bool)
    ensures
        r == (u@ == w_skip()),
{
    let n = u.len();
    if n == 4 && u[0] == 83 && u[1] == 75 && u[2] == 73 && u[3] == 80 {
        proof {
            assert(u@ =~= w_skip());
        }
        true
    } else {
        proof {
            assert(u@ != w_skip());
        }
        false
    }
}


/// The payload of a bulk-data scalar; empty for other shapes.
pub open spec fn data_of(e: ScalarV) -> Seq<u8> {
    match e {
        ScalarV::Data(v) => v,
        _ => Seq::empty(),
    }
}

/// A client command: a non-empty array made of bulk strings only.
pub open spec fn is_command(f: FrameV) -> bool {
    match f {
        FrameV::Array(es) => es.len() >= 1 && (forall|i: int|
            0 <= i < es.len() ==> (#[trigger] es[i]) is Data),
        _ => false,
    }
}

/// The argument payloads of a command, the command name first.
pub open spec fn args_of(f: FrameV) -> Seq<Seq<u8>> {
    match f {
        FrameV::Array(es) => es.map_values(|e: ScalarV| data_of(e)),
        _ => Seq::empty(),
    }
}

/// The routing key of a command: its first argument, or the command
/// name itself when it stands alone.
pub open spec fn spec_key_of(f: FrameV) -> Seq<u8> {
    let args = args_of(f);
    if args.len() < 2 {
        args[0]
    } else {
        args[1]
    }
}

/// The reply `+PONG` as a frame shape.
pub open spec fn pong_view() -> FrameV {
    FrameV::Scalar(ScalarV::Simple(w_pong()))
}

/// The reply `+OK` as a frame shape.
pub open spec fn ok_view() -> FrameV {
    FrameV::Scalar(ScalarV::Simple(w_ok()))
}

/// The unsupported-command error as a frame shape.
pub open spec fn unsupported_view() -> FrameV {
    FrameV::Scalar(ScalarV::ErrorMsg(err_unsupported()))
}

/// The bad-argument-count error as a frame shape.
pub open spec fn wrong_args_view() -> FrameV {
    FrameV::Scalar(ScalarV::ErrorMsg(err_wrong_args()))
}

/// The failed-sub-request error as a frame shape.
pub open spec fn failed_view() -> FrameV {
    FrameV::Scalar(ScalarV::ErrorMsg(err_failed()))
}

/// The partial-failure error as a frame shape.
pub open spec fn partial_view() -> FrameV {
    FrameV::Scalar(ScalarV::ErrorMsg(err_partial()))
}

/// The pieces produced from one client frame: message state paired
/// with the sub-request or inline reply.
pub type PiecesV = Seq<(StateV, FrameV)>;

/// What classification yields: pieces, or nothing for a non-command.
pub type ClassOut = Option<PiecesV>;

/// A single piece answered inline with the given reply.
pub open spec fn inline_piece(f: FrameV) -> Seq<(StateV, FrameV)> {
    seq![(StateV::Inline, f)]
}

/// The pieces of a streaming multi-get: one single-key fetch per key,
/// the first carrying the parent array header.
pub open spec fn mget_pieces(args: Seq<Seq<u8>>) -> Seq<(StateV, FrameV)> {
    Seq::new((args.len() - 1) as nat, |i: int| (
        StateV::StreamingFragmented(
            if i == 0 {
                Some(enc_array_header((args.len() - 1) as nat))
            } else {
                None
            },
        ),
        FrameV::Array(seq![ScalarV::Data(w_get()), ScalarV::Data(args[i + 1])]),
    ))
}

/// The pieces of a multi-set: one single-key store per key/value pair.
pub open spec fn mset_pieces(args: Seq<Seq<u8>>) -> Seq<(StateV, FrameV)> {
    Seq::new(((args.len() - 1) / 2) as nat, |i: int| (
        StateV::Fragmented(FragmentOp::MultiSet, i, (args.len() - 1) / 2),
        FrameV::Array(
            seq![
                ScalarV::Data(w_set()),
                ScalarV::Data(args[2 * i + 1]),
                ScalarV::Data(args[2 * i + 2]),
            ],
        ),
    ))
}

/// The pieces of a multi-delete: one single-key delete per key.
pub open spec fn del_pieces(args: Seq<Seq<u8>>) -> Seq<(StateV, FrameV)> {
    Seq::new((args.len() - 1) as nat, |i: int| (
        StateV::Fragmented(FragmentOp::MultiDelete, i, args.len() - 1),
        FrameV::Array(seq![ScalarV::Data(w_del()), ScalarV::Data(args[i + 1])]),
    ))
}

/// Whether a three-word command is a well-formed reply-mode switch.
pub open spec fn is_client_reply(args: Seq<Seq<u8>>) -> bool {
    &&& args.len() == 3
    &&& upper(args[1]) == w_reply()
    &&& (upper(args[2]) == w_on() || upper(args[2]) == w_off() || upper(args[2]) == w_skip())
}

/// What the fragmenter makes of one client frame: the pieces to
/// enqueue, or nothing for a frame that is not a command at all.
pub open spec fn spec_classify(f: FrameV) -> ClassOut {
    if !is_command(f) {
        None
    } else {
        let args = args_of(f);
        match spec_cmd_name(args[0]) {
            CmdName::Mget => Some(
                if args.len() >= 2 {
                    mget_pieces(args)
                } else {
                    inline_piece(wrong_args_view())
                },
            ),
            CmdName::Mset => Some(
                if args.len() >= 3 && (args.len() - 1) % 2 == 0 {
                    mset_pieces(args)
                } else {
                    inline_piece(wrong_args_view())
                },
            ),
            CmdName::Del => Some(
                if args.len() >= 2 {
                    del_pieces(args)
                } else {
                    inline_piece(wrong_args_view())
                },
            ),
            CmdName::Ping => Some(inline_piece(pong_view())),
            CmdName::Quit => Some(inline_piece(ok_view())),
            CmdName::Client => Some(
                if is_client_reply(args) {
                    inline_piece(ok_view())
                } else {
                    inline_piece(unsupported_view())
                },
            ),
            CmdName::Other => Some(
                if args.len() >= 2 {
                    seq![(StateV::Standalone, f)]
                } else {
                    inline_piece(unsupported_view())
                },
            ),
        }
    }
}


/// The frame views of a vector of frames.
pub open spec fn frames_view(v: Seq<RespFrame>) -> Seq<FrameV> {
    v.map_values(|m: RespFrame| m@)
}

/// Whether a frame is a client command: a non-empty array of bulk
/// strings.
pub fn frame_is_command(m: &RespFrame) -> (r: bool)
    ensures
        r == is_command(m@),
{
    let es = match m {
        RespFrame::Array(es) => es,
        RespFrame::Scalar(_) => {
            return false;
        },
    };
    if es.len() == 0 {
        return false;
    }
    let ghost ev = es@.map_values(|e: RespScalar| e@);
    let mut i: usize = 0;
    while i < es.len()
        invariant
            i <= es@.len(),
            ev == es@.map_values(|e: RespScalar| e@),
            m@ == FrameV::Array(ev),
            forall|j: int| 0 <= j < i ==> (#[trigger] ev[j]) is Data,
        decreases es@.len() - i,
    {
        match &es[i] {
            RespScalar::Data(_) => {},
            _ => {
                proof {
                    assert(!(ev[i as int] is Data));
                }
                return false;
            },
        }
        proof {
            assert(ev[i as int] is Data);
        }
        i = i + 1;
    }
    proof {
        assert(is_command(m@));
    }
    true
}

/// The bulk payload at position `i` of a command's element vector.
fn nth_arg<'a>(es: &'a Vec<RespScalar>, i: usize) -> (r: &'a Vec<u8>)
    requires
        i < es@.len(),
        es@[i as int]@ is Data,
    ensures
        r@ == data_of(es@[i as int]@),
{
    match &es[i] {
        RespScalar::Data(v) => v,
        _ => {
            proof {
                assert(false);
            }
            vstd::pervasive::unreached()
        },
    }
}

/// Classify one client frame into the pieces the queue will hold.
///
/// A frame that is not a command at all is a protocol-level fault and
/// is rejected; every command, supported or not, yields at least one
/// piece.
pub fn classify_message(m: &RespFrame) -> (r: Result<
    Vec<(MessageState, RespFrame)>,
    ProcessorError,
>)
    ensures
        (r matches Ok(pieces) ==> spec_classify(m@) == Some(pieces_view(pieces@))),
        (r is Err ==> spec_classify(m@) is None),
{
    if !frame_is_command(m) {
        return Err(ProcessorError::InvalidRequest);
    }
    let es = match m {
        RespFrame::Array(es) => es,
        RespFrame::Scalar(_) => {
            proof {
                assert(false);
            }
            return Err(ProcessorError::InvalidRequest);
        },
    };
    let ghost ev = es@.map_values(|e: RespScalar| e@);
    let ghost args = args_of(m@);
    proof {
        assert(m@ == FrameV::Array(ev));
        assert(args.len() == ev.len());
        assert(forall|j: int| 0 <= j < args.len() ==> args[j] == data_of(#[trigger] ev[j]));
    }
    let a0 = nth_arg(es, 0);
    proof {
        assert(a0@ == args[0]);
    }
    let name = command_name(a0);
    match name {
        CmdName::Ping => {
            let mut ps: Vec<(MessageState, RespFrame)> = Vec::new();
            ps.push((MessageState::Inline, pong_frame()));
            proof {
                assert(pieces_view(ps@) =~= inline_piece(pong_view()));
            }
            Ok(ps)
        },
        CmdName::Quit => {
            let mut ps: Vec<(MessageState, RespFrame)> = Vec::new();
            ps.push((MessageState::Inline, ok_frame()));
            proof {
                assert(pieces_view(ps@) =~= inline_piece(ok_view()));
            }
            Ok(ps)
        },
        CmdName::Client => {
            let mut ps: Vec<(MessageState, RespFrame)> = Vec::new();
            if es.len() == 3 {
                proof {
                    assert(es@[1]@ == ev[1]);
                    assert(es@[2]@ == ev[2]);
                    assert(ev[1] is Data);
                    assert(ev[2] is Data);
                }
                let a1 = nth_arg(es, 1);
                let a2 = nth_arg(es, 2);
                let u1 = upper_bytes(a1);
                let u2 = upper_bytes(a2);
                proof {
                    assert(a1@ == args[1]);
                    assert(a2@ == args[2]);
                }
                let is_reply_switch = word_is_reply(&u1) && (word_is_on(&u2) || word_is_off(&u2)
                    || word_is_skip(&u2));
                if is_reply_switch {
                    ps.push((MessageState::Inline, ok_frame()));
                    proof {
                        assert(is_client_reply(args));
                        assert(pieces_view(ps@) =~= inline_piece(ok_view()));
                    }
                } else {
                    ps.push((MessageState::Inline, unsupported_frame()));
                    proof {
                        assert(!is_client_reply(args));
                        assert(pieces_view(ps@) =~= inline_piece(unsupported_view()));
                    }
                }
            } else {
                ps.push((MessageState::Inline, unsupported_frame()));
                proof {
                    assert(!is_client_reply(args));
                    assert(pieces_view(ps@) =~= inline_piece(unsupported_view()));
                }
            }
            Ok(ps)
        },
        CmdName::Mget => {
            if es.len() >= 2 {
                let n = es.len() - 1;
                let mut ps: Vec<(MessageState, RespFrame)> = Vec::new();
                let mut i: usize = 1;
                while i < es.len()
                    invariant
                        1 <= i <= es@.len(),
                        es@.len() >= 2,
                        ev == es@.map_values(|e: RespScalar| e@),
                        m@ == FrameV::Array(ev),
                        is_command(m@),
                        args == args_of(m@),
                        n == es@.len() - 1,
                        ps@.len() == i - 1,
                        pieces_view(ps@) == mget_pieces(args).take(i - 1),
                    decreases es@.len() - i,
                {
                    proof {
                        assert(es@[i as int]@ == ev[i as int]);
                        assert(ev[i as int] is Data);
                    }
                    let key = nth_arg(es, i);
                    let hdr: Option<Vec<u8>> = if i == 1 {
                        Some(array_header(n as u64))
                    } else {
                        None
                    };
                    let mut elems: Vec<RespScalar> = Vec::new();
                    elems.push(RespScalar::Data(mk_get()));
                    elems.push(RespScalar::Data(dup_bytes(key)));
                    let piece = (MessageState::StreamingFragmented(hdr), RespFrame::Array(elems));
                    proof {
                        assert(key@ == args[i as int]);
                        assert(piece.1@ =~= mget_pieces(args)[i - 1].1);
                        assert(piece.0@ =~= mget_pieces(args)[i - 1].0);
                    }
                    ps.push(piece);
                    proof {
                        assert(pieces_view(ps@) =~= mget_pieces(args).take(i as int));
                    }
                    i = i + 1;
                }
                proof {
                    assert(mget_pieces(args).take(n as int) =~= mget_pieces(args));
                }
                Ok(ps)
            } else {
                let mut ps: Vec<(MessageState, RespFrame)> = Vec::new();
                ps.push((MessageState::Inline, wrong_args_frame()));
                proof {
                    assert(pieces_view(ps@) =~= inline_piece(wrong_args_view()));
                }
                Ok(ps)
            }
        },
        CmdName::Del => {
            if es.len() >= 2 {
                let n = es.len() - 1;
                let mut ps: Vec<(MessageState, RespFrame)> = Vec::new();
                let mut i: usize = 1;
                while i < es.len()
                    invariant
                        1 <= i <= es@.len(),
                        es@.len() >= 2,
                        ev == es@.map_values(|e: RespScalar| e@),
                        m@ == FrameV::Array(ev),
                        is_command(m@),
                        args == args_of(m@),
                        n == es@.len() - 1,
                        ps@.len() == i - 1,
                        pieces_view(ps@) == del_pieces(args).take(i - 1),
                    decreases es@.len() - i,
                {
                    proof {
                        assert(es@[i as int]@ == ev[i as int]);
                        assert(ev[i as int] is Data);
                    }
                    let key = nth_arg(es, i);
                    let mut elems: Vec<RespScalar> = Vec::new();
                    elems.push(RespScalar::Data(mk_del()));
                    elems.push(RespScalar::Data(dup_bytes(key)));
                    let piece = (
                        MessageState::Fragmented(FragmentOp::MultiDelete, i - 1, n),
                        RespFrame::Array(elems),
                    );
                    proof {
                        assert(key@ == args[i as int]);
                        assert(piece.1@ =~= del_pieces(args)[i - 1].1);
                        assert(piece.0@ =~= del_pieces(args)[i - 1].0);
                    }
                    ps.push(piece);
                    proof {
                        assert(pieces_view(ps@) =~= del_pieces(args).take(i as int));
                    }
                    i = i + 1;
                }
                proof {
                    assert(del_pieces(args).take(n as int) =~= del_pieces(args));
                }
                Ok(ps)
            } else {
                let mut ps: Vec<(MessageState, RespFrame)> = Vec::new();
                ps.push((MessageState::Inline, wrong_args_frame()));
                proof {
                    assert(pieces_view(ps@) =~= inline_piece(wrong_args_view()));
                }
                Ok(ps)
            }
        },
        CmdName::Mset => {
            if es.len() >= 3 && (es.len() - 1) % 2 == 0 {
                let total = es.len();
                let k = (es.len() - 1) / 2;
                let mut ps: Vec<(MessageState, RespFrame)> = Vec::new();
                let mut i: usize = 0;
                while i < k
                    invariant
                        i <= k,
                        es@.len() >= 3,
                        (es@.len() - 1) % 2 == 0,
                        k == (es@.len() - 1) / 2,
                        total == es@.len(),
                        ev == es@.map_values(|e: RespScalar| e@),
                        m@ == FrameV::Array(ev),
                        is_command(m@),
                        args == args_of(m@),
                        ps@.len() == i,
                        pieces_view(ps@) == mset_pieces(args).take(i as int),
                    decreases k - i,
                {
                    proof {
                        assert(es@.len() - 1 == 2 * (k as int) + ((es@.len() - 1) % 2));
                        assert(es@.len() - 1 == 2 * (k as int));
                        assert(2 * (i as int) + 2 <= 2 * (k as int));
                        assert(2 * (i as int) + 2 < es@.len());
                        assert(2 * (i as int) + 2 < total as int);
                        assert(es@[2 * (i as int) + 1]@ == ev[2 * (i as int) + 1]);
                        assert(es@[2 * (i as int) + 2]@ == ev[2 * (i as int) + 2]);
                        assert(ev[2 * (i as int) + 1] is Data);
                        assert(ev[2 * (i as int) + 2] is Data);
                    }
                    let key = nth_arg(es, 2 * i + 1);
                    let val = nth_arg(es, 2 * i + 2);
                    let mut elems: Vec<RespScalar> = Vec::new();
                    elems.push(RespScalar::Data(mk_set()));
                    elems.push(RespScalar::Data(dup_bytes(key)));
                    elems.push(RespScalar::Data(dup_bytes(val)));
                    let piece = (
                        MessageState::Fragmented(FragmentOp::MultiSet, i, k),
                        RespFrame::Array(elems),
                    );
                    proof {
                        assert(key@ == args[2 * i + 1]);
                        assert(val@ == args[2 * i + 2]);
                        assert(piece.1@ =~= mset_pieces(args)[i as int].1);
                        assert(piece.0@ =~= mset_pieces(args)[i as int].0);
                    }
                    ps.push(piece);
                    proof {
                        assert(pieces_view(ps@) =~= mset_pieces(args).take(i as int + 1));
                    }
                    i = i + 1;
                }
                proof {
                    assert(mset_pieces(args).take(k as int) =~= mset_pieces(args));
                }
                Ok(ps)
            } else {
                let mut ps: Vec<(MessageState, RespFrame)> = Vec::new();
                ps.push((MessageState::Inline, wrong_args_frame()));
                proof {
                    assert(pieces_view(ps@) =~= inline_piece(wrong_args_view()));
                }
                Ok(ps)
            }
        },
        CmdName::Other => {
            let mut ps: Vec<(MessageState, RespFrame)> = Vec::new();
            if es.len() >= 2 {
                ps.push((MessageState::Standalone, dup_frame(m)));
                proof {
                    assert(pieces_view(ps@) =~= seq![(StateV::Standalone, m@)]);
                }
            } else {
                ps.push((MessageState::Inline, unsupported_frame()));
                proof {
                    assert(pieces_view(ps@) =~= inline_piece(unsupported_view()));
                }
            }
            Ok(ps)
        },
    }
}


/// What the fragmenter makes of a whole batch: the concatenation of
/// each frame's pieces, or nothing if any frame is not a command.
pub open spec fn spec_fragment(ms: Seq<FrameV>) -> ClassOut
    decreases ms.len(),
{
    if ms.len() == 0 {
        Some(Seq::empty())
    } else {
        match (spec_classify(ms[0]), spec_fragment(ms.drop_first())) {
            (Some(ps), Some(rest)) => Some(ps + rest),
            _ => None,
        }
    }
}

/// Fragmenting one more frame appends its pieces.
pub proof fn lemma_spec_fragment_push(ms: Seq<FrameV>, m: FrameV)
    ensures
        spec_fragment(ms.push(m)) == (match (spec_fragment(ms), spec_classify(m)) {
            (Some(a), Some(p)) => Some(a + p),
            _ => None::<PiecesV>,
        }),
    decreases ms.len(),
{
    if ms.len() == 0 {
        assert(ms.push(m).drop_first() =~= Seq::<FrameV>::empty());
        assert(ms.push(m)[0] == m);
        if spec_classify(m) is Some {
            let p = spec_classify(m).unwrap();
            assert(spec_fragment(ms.push(m)) == Some(p + Seq::empty()));
            assert(p + Seq::<(StateV, FrameV)>::empty() =~= p);
            assert(Seq::<(StateV, FrameV)>::empty() + p =~= p);
        }
    } else {
        assert(ms.push(m).drop_first() =~= ms.drop_first().push(m));
        lemma_spec_fragment_push(ms.drop_first(), m);
        assert(ms.push(m)[0] == ms[0]);
        match (spec_classify(ms[0]), spec_fragment(ms.drop_first()), spec_classify(m)) {
            (Some(h), Some(a), Some(p)) => {
                assert(h + (a + p) =~= (h + a) + p);
            },
            _ => {},
        }
    }
}

/// Fragment a batch of client frames into queue pieces.
///
/// The pieces of each frame follow the pieces of the frames before it,
/// so positional order across the whole batch is preserved.
pub fn fragment_messages(msgs: &Vec<RespFrame>) -> (r: Result<
    Vec<(MessageState, RespFrame)>,
    ProcessorError,
>)
    ensures
        (r matches Ok(pieces) ==> spec_fragment(frames_view(msgs@)) == Some(pieces_view(pieces@))),
        (r is Err ==> spec_fragment(frames_view(msgs@)) is None),
{
    let ghost ms = frames_view(msgs@);
    let mut pieces: Vec<(MessageState, RespFrame)> = Vec::new();
    let mut i: usize = 0;
    while i < msgs.len()
        invariant
            i <= msgs@.len(),
            ms == frames_view(msgs@),
            spec_fragment(ms.take(i as int)) == Some(pieces_view(pieces@)),
        decreases msgs@.len() - i,
    {
        let classified = classify_message(&msgs[i]);
        proof {
            assert(msgs@[i as int]@ == ms[i as int]);
            assert(ms.take(i as int).push(ms[i as int]) =~= ms.take(i as int + 1));
            lemma_spec_fragment_push(ms.take(i as int), ms[i as int]);
        }
        match classified {
            Ok(mut ps) => {
                let ghost prev = pieces_view(pieces@);
                let ghost newps = pieces_view(ps@);
                let ghost total = newps.len();
                while ps.len() > 0
                    invariant
                        newps.len() == total,
                        ps@.len() <= total,
                        pieces_view(ps@) == newps.skip(total - ps@.len()),
                        pieces_view(pieces@) == prev + newps.take(total - ps@.len()),
                    decreases ps@.len(),
                {
                    let ghost idx = total - ps@.len();
                    let p = ps.remove(0);
                    let ghost pcs = pieces@;
                    pieces.push(p);
                    proof {
                        assert((p.0@, p.1@) == newps.skip(idx)[0]);
                        assert(newps.skip(idx)[0] == newps[idx]);
                        assert(pieces_view(ps@) =~= newps.skip(idx).drop_first());
                        assert(newps.skip(idx).drop_first() =~= newps.skip(idx + 1));
                        assert(pieces@ == pcs.push(p));
                        assert(pieces_view(pcs.push(p)) =~= pieces_view(pcs).push((p.0@, p.1@)));
                        assert((prev + newps.take(idx)).push(newps[idx]) =~= prev + newps.take(
                            idx + 1,
                        ));
                        assert(pieces_view(pieces@) =~= prev + newps.take(idx + 1));
                    }
                }
                proof {
                    assert(newps.take(total as int) =~= newps);
                    assert(spec_fragment(ms.take(i as int + 1)) == Some(prev + newps));
                }
            },
            Err(e) => {
                proof {
                    lemma_spec_fragment_none(ms, i as int + 1);
                }
                return Err(e);
            },
        }
        i = i + 1;
    }
    proof {
        assert(ms.take(msgs@.len() as int) =~= ms);
    }
    Ok(pieces)
}

/// If some prefix of a batch fails to fragment, the whole batch does.
pub proof fn lemma_spec_fragment_none(ms: Seq<FrameV>, n: int)
    requires
        0 <= n <= ms.len(),
        spec_fragment(ms.take(n)) is None,
    ensures
        spec_fragment(ms) is None,
    decreases ms.len(),
{
    if n == 0 {
        assert(ms.take(0) =~= Seq::<FrameV>::empty());
    } else {
        assert(ms.take(n)[0] == ms[0]);
        if spec_classify(ms[0]) is Some {
            assert(ms.take(n).drop_first() =~= ms.drop_first().take(n - 1));
            lemma_spec_fragment_none(ms.drop_first(), n - 1);
        }
    }
}


/// Saturating clamp of an integer into the signed 64-bit range.
pub open spec fn clamp_i64(x: int) -> int {
    if x > i64::MAX {
        i64::MAX as int
    } else if x < i64::MIN {
        i64::MIN as int
    } else {
        x
    }
}

/// The integer carried by a frame, zero for other shapes.
pub open spec fn int_of(f: FrameV) -> int {
    match f {
        FrameV::Scalar(ScalarV::Integer(i)) => i,
        _ => 0,
    }
}

/// Saturating sum of the integer replies in a fragment group.
pub open spec fn sum_sat(frames: Seq<FrameV>) -> int
    decreases frames.len(),
{
    if frames.len() == 0 {
        0
    } else {
        clamp_i64(sum_sat(frames.drop_last()) + int_of(frames.last()))
    }
}

/// `a + b`, held at the bounds of `i64` instead of wrapping.
pub fn sat_add_i64(a: i64, b: i64) -> (r: i64)
    ensures
        r as int == clamp_i64(a as int + b as int),
{
    if b >= 0 {
        if a > i64::MAX - b {
            i64::MAX
        } else {
            a + b
        }
    } else {
        if a < i64::MIN - b {
            i64::MIN
        } else {
            a + b
        }
    }
}

/// The response frames of a piece sequence, in order.
pub open spec fn frames_of_pieces(ps: Seq<(StateV, FrameV)>) -> Seq<FrameV> {
    ps.map_values(|p: (StateV, FrameV)| p.1)
}

/// Whether every piece is a fragment of the same parent operation.
pub open spec fn is_frag_group(ps: Seq<(StateV, FrameV)>, op: FragmentOp) -> bool {
    forall|i: int|
        0 <= i < ps.len() ==> (#[trigger] ps[i].0 matches StateV::Fragmented(o, _, _) && o == op)
}

/// The reply assembled from one full fragment group.
///
/// A multi-set group coalesces to a single `+OK` when every fragment
/// answered with a status; a multi-delete group sums the per-key
/// counts, saturating at the bounds of a signed 64-bit integer.  A
/// group holding anything else (an error substituted for a failed
/// sub-request included) collapses to a single partial-failure error.
pub open spec fn spec_defrag(op: FragmentOp, frames: Seq<FrameV>) -> FrameV {
    match op {
        FragmentOp::MultiSet => if forall|i: int|
            0 <= i < frames.len() ==> (#[trigger] frames[i]) matches FrameV::Scalar(
                ScalarV::Simple(_),
            ) {
            ok_view()
        } else {
            partial_view()
        },
        FragmentOp::MultiDelete => if forall|i: int|
            0 <= i < frames.len() ==> (#[trigger] frames[i]) matches FrameV::Scalar(
                ScalarV::Integer(_),
            ) {
            FrameV::Scalar(ScalarV::Integer(sum_sat(frames)))
        } else {
            partial_view()
        },
    }
}

/// What the defragmenter makes of a piece sequence: the coalesced
/// parent reply, or nothing if the pieces are not one fragment group.
pub open spec fn spec_defragment(ps: Seq<(StateV, FrameV)>) -> Option<FrameV> {
    if ps.len() == 0 {
        None
    } else {
        match ps[0].0 {
            StateV::Fragmented(op, idx, cnt) => if is_frag_group(ps, op) {
                Some(spec_defrag(op, frames_of_pieces(ps)))
            } else {
                None
            },
            _ => None,
        }
    }
}

/// Coalesce one full fragment group into the parent reply.
pub fn defragment_messages(frags: &Vec<(MessageState, RespFrame)>) -> (r: Result<
    RespFrame,
    ProcessorError,
>)
    ensures
        (r matches Ok(f) ==> spec_defragment(pieces_view(frags@)) == Some(f@)),
        (r is Err ==> spec_defragment(pieces_view(frags@)) is None),
{
    let ghost ps = pieces_view(frags@);
    let ghost frames = frames_of_pieces(ps);
    if frags.len() == 0 {
        return Err(ProcessorError::InvalidFragments);
    }
    let op: FragmentOp = match &frags[0].0 {
        MessageState::Fragmented(o, _, _) => *o,
        _ => {
            proof {
                assert(!(ps[0].0 is Fragmented));
            }
            return Err(ProcessorError::InvalidFragments);
        },
    };
    let mut i: usize = 0;
    while i < frags.len()
        invariant
            i <= frags@.len(),
            frags@.len() > 0,
            ps == pieces_view(frags@),
            frames == frames_of_pieces(ps),
            ps[0].0 matches StateV::Fragmented(o, _, _) && o == op,
            forall|j: int|
                0 <= j < i ==> (#[trigger] ps[j].0 matches StateV::Fragmented(o, _, _) && o == op),
        decreases frags@.len() - i,
    {
        match &frags[i].0 {
            MessageState::Fragmented(o, _, _) => {
                let same = match (o, &op) {
                    (FragmentOp::MultiSet, FragmentOp::MultiSet) => true,
                    (FragmentOp::MultiDelete, FragmentOp::MultiDelete) => true,
                    _ => false,
                };
                if !same {
                    proof {
                        assert(!(ps[i as int].0 matches StateV::Fragmented(o2, _, _) && o2 == op));
                        assert(!is_frag_group(ps, op));
                    }
                    return Err(ProcessorError::InvalidFragments);
                }
                proof {
                    assert(ps[i as int].0 matches StateV::Fragmented(o2, _, _) && o2 == op);
                }
            },
            _ => {
                proof {
                    assert(!(ps[i as int].0 is Fragmented));
                    assert(!is_frag_group(ps, op));
                }
                return Err(ProcessorError::InvalidFragments);
            },
        }
        i = i + 1;
    }
    proof {
        assert(is_frag_group(ps, op));
        assert(frames.len() == ps.len());
        assert(forall|j: int| 0 <= j < frames.len() ==> #[trigger] frames[j] == frags@[j].1@);
    }
    match op {
        FragmentOp::MultiSet => {
            let mut i: usize = 0;
            while i < frags.len()
                invariant
                    i <= frags@.len(),
                    frags@.len() > 0,
                    ps == pieces_view(frags@),
                    frames == frames_of_pieces(ps),
                    frames.len() == frags@.len(),
                    ps[0].0 matches StateV::Fragmented(o, _, _) && o == op,
                    is_frag_group(ps, op),
                    op is MultiSet,
                    forall|j: int| 0 <= j < frames.len() ==> #[trigger] frames[j] == frags@[j].1@,
                    forall|j: int|
                        0 <= j < i ==> (#[trigger] frames[j]) matches FrameV::Scalar(
                            ScalarV::Simple(_),
                        ),
                decreases frags@.len() - i,
            {
                match &frags[i].1 {
                    RespFrame::Scalar(RespScalar::Simple(_)) => {},
                    _ => {
                        proof {
                            assert(!(frames[i as int] matches FrameV::Scalar(ScalarV::Simple(_))));
                        }
                        return Ok(partial_failure_frame());
                    },
                }
                proof {
                    assert(frames[i as int] matches FrameV::Scalar(ScalarV::Simple(_)));
                }
                i = i + 1;
            }
            Ok(ok_frame())
        },
        FragmentOp::MultiDelete => {
            let mut acc: i64 = 0;
            let mut i: usize = 0;
            while i < frags.len()
                invariant
                    i <= frags@.len(),
                    frags@.len() > 0,
                    ps == pieces_view(frags@),
                    frames == frames_of_pieces(ps),
                    frames.len() == frags@.len(),
                    ps[0].0 matches StateV::Fragmented(o, _, _) && o == op,
                    is_frag_group(ps, op),
                    op is MultiDelete,
                    forall|j: int| 0 <= j < frames.len() ==> #[trigger] frames[j] == frags@[j].1@,
                    forall|j: int|
                        0 <= j < i ==> (#[trigger] frames[j]) matches FrameV::Scalar(
                            ScalarV::Integer(_),
                        ),
                    acc as int == sum_sat(frames.take(i as int)),
                decreases frags@.len() - i,
            {
                let v: i64 = match &frags[i].1 {
                    RespFrame::Scalar(RespScalar::Integer(v)) => *v,
                    _ => {
                        proof {
                            assert(!(frames[i as int] matches FrameV::Scalar(ScalarV::Integer(_))));
                        }
                        return Ok(partial_failure_frame());
                    },
                };
                proof {
                    assert(frames[i as int] matches FrameV::Scalar(ScalarV::Integer(_)));
                    assert(int_of(frames[i as int]) == v as int);
                }
                acc = sat_add_i64(acc, v);
                proof {
                    assert(frames.take(i as int + 1).drop_last() =~= frames.take(i as int));
                    assert(frames.take(i as int + 1).last() == frames[i as int]);
                }
                i = i + 1;
            }
            proof {
                assert(frames.take(frames.len() as int) =~= frames);
            }
            Ok(RespFrame::Scalar(RespScalar::Integer(acc)))
        },
    }
}

/// The routing key of a command: the raw bytes of its first argument,
/// or of the command name when it stands alone.
pub fn get_message_key(m: &RespFrame) -> (r: Vec<u8>)
    requires
        is_command(m@),
    ensures
        r@ == spec_key_of(m@),
{
    let es = match m {
        RespFrame::Array(es) => es,
        RespFrame::Scalar(_) => {
            proof {
                assert(false);
            }
            vstd::pervasive::unreached()
        },
    };
    let ghost ev = es@.map_values(|e: RespScalar| e@);
    let idx: usize = if es.len() < 2 {
        0
    } else {
        1
    };
    proof {
        assert(es@[idx as int]@ == ev[idx as int]);
        assert(ev[idx as int] is Data);
        assert(args_of(m@)[idx as int] == data_of(ev[idx as int]));
    }
    let a = nth_arg(es, idx);
    dup_bytes(a)
}

/// Whether a frame is the connection-closing command.
pub open spec fn spec_is_quit(f: FrameV) -> bool {
    is_command(f) && spec_cmd_name(args_of(f)[0]) == CmdName::Quit
}

/// Whether a frame is the connection-closing command.
pub fn is_quit(m: &RespFrame) -> (r: bool)
    ensures
        r == spec_is_quit(m@),
{
    if !frame_is_command(m) {
        return false;
    }
    let es = match m {
        RespFrame::Array(es) => es,
        RespFrame::Scalar(_) => {
            proof {
                assert(false);
            }
            vstd::pervasive::unreached()
        },
    };
    proof {
        assert(data_of(es@[0]@) == args_of(m@)[0]);
    }
    let a0 = nth_arg(es, 0);
    let name = command_name(a0);
    name == CmdName::Quit
}

/// A reply-mode switch requested by a client command.
#[derive(Clone, Copy, PartialEq, Eq, Structural, Debug)]
pub enum ReplyDirective {
    /// Emit every reply again, acknowledged with a status reply.
    On,
    /// Swallow every reply until switched back on.
    Off,
    /// Swallow the reply of the next command only.
    Skip,
}

/// The reply-mode switch a frame requests, if it is one.
pub open spec fn spec_reply_directive(f: FrameV) -> Option<ReplyDirective> {
    if is_command(f) && spec_cmd_name(args_of(f)[0]) == CmdName::Client && is_client_reply(
        args_of(f),
    ) {
        if upper(args_of(f)[2]) == w_on() {
            Some(ReplyDirective::On)
        } else if upper(args_of(f)[2]) == w_off() {
            Some(ReplyDirective::Off)
        } else {
            Some(ReplyDirective::Skip)
        }
    } else {
        None
    }
}

/// The reply-mode switch a frame requests, if it is one.
pub fn reply_directive(m: &RespFrame) -> (r: Option<ReplyDirective>)
    ensures
        r == spec_reply_directive(m@),
{
    if !frame_is_command(m) {
        return None;
    }
    let es = match m {
        RespFrame::Array(es) => es,
        RespFrame::Scalar(_) => {
            proof {
                assert(false);
            }
            vstd::pervasive::unreached()
        },
    };
    let ghost args = args_of(m@);
    proof {
        assert(data_of(es@[0]@) == args[0]);
    }
    let a0 = nth_arg(es, 0);
    if !(command_name(a0) == CmdName::Client) {
        return None;
    }
    if es.len() != 3 {
        proof {
            assert(args.len() != 3);
        }
        return None;
    }
    proof {
        assert(data_of(es@[1]@) == args[1]);
        assert(data_of(es@[2]@) == args[2]);
    }
    let a1 = nth_arg(es, 1);
    let a2 = nth_arg(es, 2);
    let u1 = upper_bytes(a1);
    let u2 = upper_bytes(a2);
    if !word_is_reply(&u1) {
        return None;
    }
    if word_is_on(&u2) {
        Some(ReplyDirective::On)
    } else if word_is_off(&u2) {
        Some(ReplyDirective::Off)
    } else if word_is_skip(&u2) {
        Some(ReplyDirective::Skip)
    } else {
        None
    }
}

} // verus!
