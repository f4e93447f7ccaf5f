//! Protocol frames and their wire encoding.
//!
//! A frame is one unit of the cache wire protocol: a scalar (simple
//! string, error string, integer, bulk data or the null bulk) or a
//! one-level array of scalars.  Client commands arrive as arrays of bulk
//! data; upstream responses arrive as any frame shape.
//!
//! The encoding is canonical: integer and length fields are written with
//! no sign for zero, no leading zeros and a `-` only for negative
//! values, which is also the only form the decoder accepts.  Encoding a
//! decoded frame therefore reproduces the original bytes.

use vstd::prelude::*;

verus! {

/// Carriage return, the first byte of a line terminator.
pub const CR: u8 = 13;
/// Line feed, the second byte of a line terminator.
pub const LF: u8 = 10;

/// The two-byte line terminator.
pub open spec fn crlf() -> Seq<u8> {
    seq![CR, LF]
}

/// One scalar protocol value.
pub enum RespScalar {
    /// The null bulk reply.
    Null,
    /// A simple (status) string; the payload carries no line breaks.
    Simple(Vec<u8>),
    /// An error string; the payload carries no line breaks.
    ErrorMsg(Vec<u8>),
    /// A signed integer reply.
    Integer(i64),
    /// A bulk data string of arbitrary bytes.
    Data(Vec<u8>),
}

/// One protocol frame: a scalar or a one-level array of scalars.
///
/// Nested arrays do not occur in the traffic this engine carries:
/// commands are arrays of bulk strings and the responses it inspects are
/// scalars or arrays of scalars.
pub enum RespFrame {
    Scalar(RespScalar),
    Array(Vec<RespScalar>),
}

/// Mathematical shape of a scalar.
#[verifier::ext_equal]
pub enum ScalarV {
    Null,
    Simple(Seq<u8>),
    ErrorMsg(Seq<u8>),
    Integer(int),
    Data(Seq<u8>),
}

/// Mathematical shape of a frame.
#[verifier::ext_equal]
pub enum FrameV {
    Scalar(ScalarV),
    Array(Seq<ScalarV>),
}

impl View for RespScalar {
    type V = ScalarV;

    open spec fn view(&self) -> ScalarV {
        match self {
            RespScalar::Null => ScalarV::Null,
            RespScalar::Simple(v) => ScalarV::Simple(v@),
            RespScalar::ErrorMsg(v) => ScalarV::ErrorMsg(v@),
            RespScalar::Integer(i) => ScalarV::Integer(*i as int),
            RespScalar::Data(v) => ScalarV::Data(v@),
        }
    }
}

impl View for RespFrame {
    type V = FrameV;

    open spec fn view(&self) -> FrameV {
        match self {
            RespFrame::Scalar(s) => FrameV::Scalar(s@),
            RespFrame::Array(es) => FrameV::Array(es@.map_values(|e: RespScalar| e@)),
        }
    }
}

/// A line payload is free of line terminator bytes.
pub open spec fn line_wf(s: Seq<u8>) -> bool {
    forall|i: int| 0 <= i < s.len() ==> s[i] != CR && s[i] != LF
}

/// Whether a scalar can be written on the wire.
pub open spec fn scalar_wf(s: ScalarV) -> bool {
    match s {
        ScalarV::Null => true,
        ScalarV::Simple(v) => line_wf(v),
        ScalarV::ErrorMsg(v) => line_wf(v),
        ScalarV::Integer(i) => i64::MIN <= i <= i64::MAX,
        ScalarV::Data(v) => true,
    }
}

/// Whether a frame can be written on the wire.
pub open spec fn frame_wf(f: FrameV) -> bool {
    match f {
        FrameV::Scalar(s) => scalar_wf(s),
        FrameV::Array(es) => forall|i: int| 0 <= i < es.len() ==> scalar_wf(#[trigger] es[i]),
    }
}

/// Canonical decimal digits of a natural number, most significant first.
pub open spec fn dec_u(n: nat) -> Seq<u8>
    decreases n,
{
    if n < 10 {
        seq![(48 + n) as u8]
    } else {
        dec_u(n / 10) + seq![(48 + n % 10) as u8]
    }
}

/// Canonical decimal digits of an integer, `-` prefixed when negative.
pub open spec fn dec_i(i: int) -> Seq<u8> {
    if i < 0 {
        seq![45u8] + dec_u((-i) as nat)
    } else {
        dec_u(i as nat)
    }
}

/// The wire bytes of one scalar.
pub open spec fn enc_scalar(s: ScalarV) -> Seq<u8> {
    match s {
        ScalarV::Null => seq![36u8, 45u8, 49u8] + crlf(),
        ScalarV::Simple(v) => seq![43u8] + v + crlf(),
        ScalarV::ErrorMsg(v) => seq![45u8] + v + crlf(),
        ScalarV::Integer(i) => seq![58u8] + dec_i(i) + crlf(),
        ScalarV::Data(v) => seq![36u8] + dec_u(v.len()) + crlf() + v + crlf(),
    }
}

/// The wire bytes of a sequence of scalars, in order.
pub open spec fn enc_elems(es: Seq<ScalarV>) -> Seq<u8>
    decreases es.len(),
{
    if es.len() == 0 {
        Seq::empty()
    } else {
        enc_scalar(es[0]) + enc_elems(es.drop_first())
    }
}

/// The wire bytes of an array header announcing `n` elements.
pub open spec fn enc_array_header(n: nat) -> Seq<u8> {
    seq![42u8] + dec_u(n) + crlf()
}

/// The wire bytes of one frame.
pub open spec fn enc_frame(f: FrameV) -> Seq<u8> {
    match f {
        FrameV::Scalar(s) => enc_scalar(s),
        FrameV::Array(es) => enc_array_header(es.len()) + enc_elems(es),
    }
}

/// Appending one scalar to a sequence appends its bytes to the encoding.
pub proof fn lemma_enc_elems_push(es: Seq<ScalarV>, e: ScalarV)
    ensures
        enc_elems(es.push(e)) == enc_elems(es) + enc_scalar(e),
    decreases es.len(),
{
    if es.len() == 0 {
        assert(es.push(e).drop_first() =~= Seq::<ScalarV>::empty());
        assert(es.push(e)[0] == e);
        assert(enc_elems(Seq::<ScalarV>::empty()) == Seq::<u8>::empty());
        assert(enc_elems(es.push(e)) == enc_scalar(e) + enc_elems(Seq::<ScalarV>::empty()));
        assert(enc_elems(es.push(e)) =~= enc_scalar(e));
        assert(enc_elems(es) + enc_scalar(e) =~= enc_scalar(e));
    } else {
        assert(es.push(e).drop_first() =~= es.drop_first().push(e));
        lemma_enc_elems_push(es.drop_first(), e);
        assert(enc_elems(es.push(e)) =~= enc_scalar(es[0]) + (enc_elems(es.drop_first())
            + enc_scalar(e)));
        assert(enc_scalar(es[0]) + (enc_elems(es.drop_first()) + enc_scalar(e)) =~= (enc_scalar(
            es[0],
        ) + enc_elems(es.drop_first())) + enc_scalar(e));
    }
}

/// Append every byte of `src` to `out`.
pub fn push_all(out: &mut Vec<u8>, src: &[u8])
    ensures
        final(out)@ == old(out)@ + src@,
{
    let mut i: usize = 0;
    while i < src.len()
        invariant
            i <= src@.len(),
            out@ == old(out)@ + src@.take(i as int),
        decreases src@.len() - i,
    {
        let b = src[i];
        out.push(b);
        i = i + 1;
        proof {
            assert(src@.take(i as int) =~= src@.take(i as int - 1).push(src@[i as int - 1]));
            assert(out@ =~= old(out)@ + src@.take(i as int));
        }
    }
    proof {
        assert(src@.take(src@.len() as int) =~= src@);
    }
}

/// Append the two-byte line terminator to `out`.
pub fn push_crlf(out: &mut Vec<u8>)
    ensures
        final(out)@ == old(out)@ + crlf(),
{
    out.push(CR);
    out.push(LF);
    proof {
        assert(final(out)@ =~= old(out)@ + crlf());
    }
}

/// Canonical decimal digits of `n`, most significant first.
pub fn format_u64(n: u64) -> (r: Vec<u8>)
    ensures
        r@ == dec_u(n as nat),
    decreases n,
{
    if n < 10 {
        let mut r: Vec<u8> = Vec::new();
        r.push(48 + n as u8);
        proof {
            assert(r@ =~= dec_u(n as nat));
        }
        r
    } else {
        let mut r = format_u64(n / 10);
        r.push(48 + (n % 10) as u8);
        proof {
            assert(r@ =~= dec_u((n / 10) as nat) + seq![(48 + n as nat % 10) as u8]);
            assert(dec_u(n as nat) == dec_u(n as nat / 10) + seq![(48 + n as nat % 10) as u8]);
        }
        r
    }
}

/// Canonical decimal digits of `i`, `-` prefixed when negative.
pub fn format_i64(i: i64) -> (r: Vec<u8>)
    ensures
        r@ == dec_i(i as int),
{
    if i >= 0 {
        format_u64(i as u64)
    } else {
        let mag: u64 = if i == i64::MIN {
            9223372036854775808u64
        } else {
            (-i) as u64
        };
        assert(mag as nat == (-(i as int)) as nat);
        let mut r: Vec<u8> = Vec::new();
        r.push(45);
        let digits = format_u64(mag);
        push_all(&mut r, digits.as_slice());
        proof {
            assert(r@ =~= dec_i(i as int));
        }
        r
    }
}

/// Append the wire bytes of one scalar to `out`.
pub fn encode_scalar(s: &RespScalar, out: &mut Vec<u8>)
    ensures
        final(out)@ == old(out)@ + enc_scalar(s@),
{
    match s {
        RespScalar::Null => {
            out.push(36);
            out.push(45);
            out.push(49);
            push_crlf(out);
            proof {
                assert(final(out)@ =~= old(out)@ + enc_scalar(s@));
            }
        },
        RespScalar::Simple(v) => {
            out.push(43);
            push_all(out, v.as_slice());
            push_crlf(out);
            proof {
                assert(final(out)@ =~= old(out)@ + enc_scalar(s@));
            }
        },
        RespScalar::ErrorMsg(v) => {
            out.push(45);
            push_all(out, v.as_slice());
            push_crlf(out);
            proof {
                assert(final(out)@ =~= old(out)@ + enc_scalar(s@));
            }
        },
        RespScalar::Integer(i) => {
            out.push(58);
            let digits = format_i64(*i);
            push_all(out, digits.as_slice());
            push_crlf(out);
            proof {
                assert(final(out)@ =~= old(out)@ + enc_scalar(s@));
            }
        },
        RespScalar::Data(v) => {
            out.push(36);
            let digits = format_u64(v.len() as u64);
            push_all(out, digits.as_slice());
            push_crlf(out);
            push_all(out, v.as_slice());
            push_crlf(out);
            proof {
                assert(final(out)@ =~= old(out)@ + enc_scalar(s@));
            }
        },
    }
}

/// The wire bytes of an array header announcing `n` elements.
pub fn array_header(n: u64) -> (r: Vec<u8>)
    ensures
        r@ == enc_array_header(n as nat),
{
    let mut r: Vec<u8> = Vec::new();
    r.push(42);
    let digits = format_u64(n);
    push_all(&mut r, digits.as_slice());
    push_crlf(&mut r);
    proof {
        assert(r@ =~= enc_array_header(n as nat));
    }
    r
}

/// Append the wire bytes of one frame to `out`.
pub fn encode_frame(f: &RespFrame, out: &mut Vec<u8>)
    ensures
        final(out)@ == old(out)@ + enc_frame(f@),
{
    match f {
        RespFrame::Scalar(s) => {
            encode_scalar(s, out);
        },
        RespFrame::Array(es) => {
            out.push(42);
            let digits = format_u64(es.len() as u64);
            push_all(out, digits.as_slice());
            push_crlf(out);
            let ghost evs = es@.map_values(|e: RespScalar| e@);
            let mut i: usize = 0;
            while i < es.len()
                invariant
                    i <= es@.len(),
                    evs == es@.map_values(|e: RespScalar| e@),
                    out@ == old(out)@ + enc_array_header(evs.len()) + enc_elems(evs.take(i as int)),
                decreases es@.len() - i,
            {
                encode_scalar(&es[i], out);
                proof {
                    assert(evs.take(i as int).push(evs[i as int]) =~= evs.take(i as int + 1));
                    lemma_enc_elems_push(evs.take(i as int), evs[i as int]);
                    assert(out@ =~= old(out)@ + enc_array_header(evs.len()) + enc_elems(
                        evs.take(i as int + 1),
                    ));
                }
                i = i + 1;
            }
            proof {
                assert(evs.take(es@.len() as int) =~= evs);
                assert(final(out)@ =~= old(out)@ + enc_frame(f@));
            }
        },
    }
}

/// The wire bytes of one frame as a fresh buffer.
pub fn frame_to_buf(f: &RespFrame) -> (r: Vec<u8>)
    ensures
        r@ == enc_frame(f@),
{
    let mut out: Vec<u8> = Vec::new();
    encode_frame(f, &mut out);
    proof {
        assert(out@ =~= enc_frame(f@));
    }
    out
}

/// A structural copy of a scalar.
pub fn dup_scalar(s: &RespScalar) -> (r: RespScalar)
    ensures
        r@ == s@,
{
    match s {
        RespScalar::Null => RespScalar::Null,
        RespScalar::Simple(v) => RespScalar::Simple(dup_bytes(v)),
        RespScalar::ErrorMsg(v) => RespScalar::ErrorMsg(dup_bytes(v)),
        RespScalar::Integer(i) => RespScalar::Integer(*i),
        RespScalar::Data(v) => RespScalar::Data(dup_bytes(v)),
    }
}

/// A structural copy of a frame.
pub fn dup_frame(f: &RespFrame) -> (r: RespFrame)
    ensures
        r@ == f@,
{
    match f {
        RespFrame::Scalar(s) => RespFrame::Scalar(dup_scalar(s)),
        RespFrame::Array(es) => {
            let mut out: Vec<RespScalar> = Vec::new();
            let mut i: usize = 0;
            while i < es.len()
                invariant
                    i <= es@.len(),
                    out@.len() == i,
                    forall|j: int| 0 <= j < i ==> (#[trigger] out@[j])@ == es@[j]@,
                decreases es@.len() - i,
            {
                out.push(dup_scalar(&es[i]));
                i = i + 1;
            }
            let r = RespFrame::Array(out);
            proof {
                assert(out@.map_values(|e: RespScalar| e@) =~= es@.map_values(
                    |e: RespScalar| e@,
                ));
            }
            r
        },
    }
}

/// A structural copy of a byte buffer.
pub fn dup_bytes(v: &Vec<u8>) -> (r: Vec<u8>)
    ensures
        r@ == v@,
{
    let mut r: Vec<u8> = Vec::new();
    push_all(&mut r, v.as_slice());
    proof {
        assert(r@ =~= v@);
    }
    r
}

} // verus!
