//! Decoding byte streams into protocol frames.
//!
//! The decoder accepts exactly the canonical wire form that the
//! encoder produces — explicit lengths, no leading zeros, `-` only on
//! negative integers — plus the inline command form: a bare line of
//! space-separated words, which decodes to the same shape as the
//! framed command it abbreviates.  `sp_decode` is the grammar: the
//! executable decoder returns whatever it says, byte for byte.

use vstd::prelude::*;

use crate::resp::CR;
use crate::resp::FrameV;
use crate::resp::LF;
use crate::resp::RespFrame;
use crate::resp::RespScalar;
use crate::resp::ScalarV;
use crate::resp::line_wf;

verus! {

/// What decoding one frame yields.
#[verifier::ext_equal]
pub enum ParseOut {
    /// More bytes are needed before a whole frame is present.
    Incomplete,
    /// The bytes do not begin with a valid frame.
    Bad,
    /// One frame and the position just past it.
    Done(FrameV, int),
}

/// What decoding one scalar yields.
#[verifier::ext_equal]
pub enum ScalarOut {
    Incomplete,
    Bad,
    Done(ScalarV, int),
}

/// What decoding a run of array elements yields.
#[verifier::ext_equal]
pub enum ElemsOut {
    Incomplete,
    Bad,
    Done(Seq<ScalarV>, int),
}

/// The position of the first line terminator at or after `i`.
pub open spec fn sp_find_crlf(buf: Seq<u8>, i: int) -> Option<int>
    decreases buf.len() - i,
    when 0 <= i
{
    if i + 2 > buf.len() {
        None
    } else if buf[i] == CR && buf[i + 1] == LF {
        Some(i)
    } else {
        sp_find_crlf(buf, i + 1)
    }
}

/// A non-empty run of decimal digits.
pub open spec fn is_digits(s: Seq<u8>) -> bool {
    s.len() >= 1 && (forall|i: int| 0 <= i < s.len() ==> 48 <= #[trigger] s[i] <= 57)
}

/// Canonical unsigned decimal digits: no leading zero unless the
/// number is zero itself.
pub open spec fn is_canon_u(s: Seq<u8>) -> bool {
    is_digits(s) && (s.len() == 1 || s[0] != 48)
}

/// The number the digits spell.
pub open spec fn dec_val(s: Seq<u8>) -> int
    decreases s.len(),
{
    if s.len() == 0 {
        0
    } else {
        dec_val(s.drop_last()) * 10 + (s.last() - 48)
    }
}

/// A canonical signed integer field: canonical digits, with `-` only
/// in front of a nonzero magnitude, the value within signed 64 bits.
pub open spec fn sp_int_ok(s: Seq<u8>) -> bool {
    if s.len() >= 1 && s[0] == 45 {
        &&& is_canon_u(s.skip(1))
        &&& 1 <= dec_val(s.skip(1)) <= i64::MAX as int + 1
    } else {
        &&& is_canon_u(s)
        &&& dec_val(s) <= i64::MAX as int
    }
}

/// The value of a canonical signed integer field.
pub open spec fn sp_int_val(s: Seq<u8>) -> int {
    if s.len() >= 1 && s[0] == 45 {
        -dec_val(s.skip(1))
    } else {
        dec_val(s)
    }
}

/// Decode one scalar starting at position `i`.
pub open spec fn sp_parse_scalar(buf: Seq<u8>, i: int) -> ScalarOut {
    if i >= buf.len() {
        ScalarOut::Incomplete
    } else if buf[i] == 43 || buf[i] == 45 {
        // simple string or error string
        match sp_find_crlf(buf, i + 1) {
            None => ScalarOut::Incomplete,
            Some(j) => {
                let content = buf.subrange(i + 1, j);
                if line_wf(content) {
                    if buf[i] == 43 {
                        ScalarOut::Done(ScalarV::Simple(content), j + 2)
                    } else {
                        ScalarOut::Done(ScalarV::ErrorMsg(content), j + 2)
                    }
                } else {
                    ScalarOut::Bad
                }
            },
        }
    } else if buf[i] == 58 {
        // integer
        match sp_find_crlf(buf, i + 1) {
            None => ScalarOut::Incomplete,
            Some(j) => {
                let s = buf.subrange(i + 1, j);
                if sp_int_ok(s) {
                    ScalarOut::Done(ScalarV::Integer(sp_int_val(s)), j + 2)
                } else {
                    ScalarOut::Bad
                }
            },
        }
    } else if buf[i] == 36 {
        // bulk data or the null bulk
        match sp_find_crlf(buf, i + 1) {
            None => ScalarOut::Incomplete,
            Some(j) => {
                let h = buf.subrange(i + 1, j);
                if h =~= seq![45u8, 49u8] {
                    ScalarOut::Done(ScalarV::Null, j + 2)
                } else if is_canon_u(h) && dec_val(h) <= u64::MAX as int {
                    let l = dec_val(h);
                    if j + 2 + l + 2 > buf.len() {
                        ScalarOut::Incomplete
                    } else if buf[j + 2 + l] == CR && buf[j + 2 + l + 1] == LF {
                        ScalarOut::Done(ScalarV::Data(buf.subrange(j + 2, j + 2 + l)), j + 2 + l
                            + 2)
                    } else {
                        ScalarOut::Bad
                    }
                } else {
                    ScalarOut::Bad
                }
            },
        }
    } else {
        ScalarOut::Bad
    }
}

/// Decode `n` consecutive scalars starting at position `i`.
pub open spec fn sp_parse_elems(buf: Seq<u8>, i: int, n: int) -> ElemsOut
    decreases n,
    when n >= 0
{
    if n == 0 {
        ElemsOut::Done(Seq::empty(), i)
    } else {
        match sp_parse_scalar(buf, i) {
            ScalarOut::Incomplete => ElemsOut::Incomplete,
            ScalarOut::Bad => ElemsOut::Bad,
            ScalarOut::Done(v, j) => match sp_parse_elems(buf, j, n - 1) {
                ElemsOut::Done(vs, k) => ElemsOut::Done(seq![v] + vs, k),
                o => o,
            },
        }
    }
}

/// The length of the leading run of non-space bytes.
pub open spec fn sp_token_len(line: Seq<u8>) -> nat
    decreases line.len(),
{
    if line.len() == 0 || line[0] == 32 {
        0
    } else {
        1 + sp_token_len(line.skip(1))
    }
}

/// The space-separated words of an inline command line.
pub open spec fn sp_tokens(line: Seq<u8>) -> Seq<Seq<u8>>
    decreases line.len(),
    via sp_tokens_decreases
{
    if line.len() == 0 {
        Seq::empty()
    } else if line[0] == 32 {
        sp_tokens(line.skip(1))
    } else {
        let t = sp_token_len(line) as int;
        seq![line.take(t)] + sp_tokens(line.skip(t))
    }
}

#[via_fn]
proof fn sp_tokens_decreases(line: Seq<u8>) {
    if line.len() != 0 && line[0] != 32 {
        lemma_token_len_bounds(line);
    }
}

/// The leading word is at least one byte and at most the whole line.
pub proof fn lemma_token_len_bounds(line: Seq<u8>)
    ensures
        sp_token_len(line) <= line.len(),
        line.len() != 0 && line[0] != 32 ==> sp_token_len(line) >= 1,
    decreases line.len(),
{
    if line.len() != 0 && line[0] != 32 {
        lemma_token_len_bounds(line.skip(1));
    }
}

/// Decode one frame from the front of the buffer.
///
/// A buffer is `Incomplete` while it may still grow into a frame,
/// `Bad` the moment its prefix can never be one, and `Done` exactly
/// when a whole canonical frame (or non-empty inline command line)
/// sits at the front.
pub open spec fn sp_decode(buf: Seq<u8>) -> ParseOut {
    if buf.len() == 0 {
        ParseOut::Incomplete
    } else if buf[0] == 42 {
        // an array frame
        match sp_find_crlf(buf, 1) {
            None => ParseOut::Incomplete,
            Some(j) => {
                let h = buf.subrange(1, j);
                if is_canon_u(h) && dec_val(h) <= u64::MAX as int {
                    match sp_parse_elems(buf, j + 2, dec_val(h)) {
                        ElemsOut::Incomplete => ParseOut::Incomplete,
                        ElemsOut::Bad => ParseOut::Bad,
                        ElemsOut::Done(vs, k) => ParseOut::Done(FrameV::Array(vs), k),
                    }
                } else {
                    ParseOut::Bad
                }
            },
        }
    } else if buf[0] == 43 || buf[0] == 45 || buf[0] == 58 || buf[0] == 36 {
        match sp_parse_scalar(buf, 0) {
            ScalarOut::Incomplete => ParseOut::Incomplete,
            ScalarOut::Bad => ParseOut::Bad,
            ScalarOut::Done(v, j) => ParseOut::Done(FrameV::Scalar(v), j),
        }
    } else {
        // an inline command line
        match sp_find_crlf(buf, 0) {
            None => ParseOut::Incomplete,
            Some(j) => {
                let line = buf.subrange(0, j);
                if line_wf(line) && sp_tokens(line).len() >= 1 {
                    ParseOut::Done(
                        FrameV::Array(sp_tokens(line).map_values(|t: Seq<u8>| ScalarV::Data(t))),
                        j + 2,
                    )
                } else {
                    ParseOut::Bad
                }
            },
        }
    }
}


/// The bytes of `buf` from `from` (inclusive) to `to` (exclusive).
pub fn copy_range(buf: &Vec<u8>, from: usize, to: usize) -> (r: Vec<u8>)
    requires
        from <= to <= buf@.len(),
    ensures
        r@ == buf@.subrange(from as int, to as int),
{
    let mut r: Vec<u8> = Vec::new();
    let mut i: usize = from;
    while i < to
        invariant
            from <= i <= to <= buf@.len(),
            r@ == buf@.subrange(from as int, i as int),
        decreases to - i,
    {
        r.push(buf[i]);
        i = i + 1;
        proof {
            assert(r@ =~= buf@.subrange(from as int, i as int));
        }
    }
    proof {
        assert(r@ =~= buf@.subrange(from as int, to as int));
    }
    r
}

/// Scanning past a byte pair that is no line terminator leaves the
/// search unchanged.
proof fn lemma_find_crlf_step(buf: Seq<u8>, i: int)
    requires
        0 <= i,
        i + 2 <= buf.len(),
        !(buf[i] == CR && buf[i + 1] == LF),
    ensures
        sp_find_crlf(buf, i) == sp_find_crlf(buf, i + 1),
{
}

/// The position of the first line terminator at or after `start`.
pub fn find_crlf(buf: &Vec<u8>, start: usize) -> (r: Option<usize>)
    requires
        start <= buf@.len(),
    ensures
        (r matches Some(j) ==> sp_find_crlf(buf@, start as int) == Some(j as int) && start <= j
            && j + 2 <= buf@.len() && buf@[j as int] == CR && buf@[j as int + 1] == LF),
        (r is None ==> sp_find_crlf(buf@, start as int) is None),
{
    let mut i: usize = start;
    loop
        invariant
            start <= i <= buf@.len(),
            sp_find_crlf(buf@, start as int) == sp_find_crlf(buf@, i as int),
        decreases buf@.len() - i,
    {
        if buf.len() < 2 || i > buf.len() - 2 {
            proof {
                assert(i as int + 2 > buf@.len());
                assert(sp_find_crlf(buf@, i as int) is None);
            }
            return None;
        }
        if buf[i] == CR && buf[i + 1] == LF {
            proof {
                assert(sp_find_crlf(buf@, i as int) == Some(i as int));
            }
            return Some(i);
        }
        proof {
            lemma_find_crlf_step(buf@, i as int);
        }
        i = i + 1;
    }
}

/// The value of a digit string is never negative.
pub proof fn lemma_dec_val_nonneg(s: Seq<u8>)
    requires
        forall|i: int| 0 <= i < s.len() ==> 48 <= #[trigger] s[i] <= 57,
    ensures
        dec_val(s) >= 0,
    decreases s.len(),
{
    if s.len() > 0 {
        assert forall|i: int|
            0 <= i < s.drop_last().len() implies 48 <= #[trigger] s.drop_last()[i] <= 57 by {
            assert(s.drop_last()[i] == s[i]);
        }
        lemma_dec_val_nonneg(s.drop_last());
    }
}

/// A digit string is worth at least any of its prefixes.
pub proof fn lemma_dec_val_mono(s: Seq<u8>, k: int)
    requires
        forall|i: int| 0 <= i < s.len() ==> 48 <= #[trigger] s[i] <= 57,
        0 <= k <= s.len(),
    ensures
        dec_val(s) >= dec_val(s.take(k)),
    decreases s.len() - k,
{
    if k < s.len() {
        assert(s.take(k + 1).drop_last() =~= s.take(k));
        assert(s.take(k + 1).last() == s[k]);
        assert forall|i: int|
            0 <= i < s.take(k).len() implies 48 <= #[trigger] s.take(k)[i] <= 57 by {
            assert(s.take(k)[i] == s[i]);
        }
        lemma_dec_val_nonneg(s.take(k));
        assert(dec_val(s.take(k + 1)) == dec_val(s.take(k)) * 10 + (s[k] - 48));
        assert(dec_val(s.take(k + 1)) >= dec_val(s.take(k)));
        lemma_dec_val_mono(s, k + 1);
    } else {
        assert(s.take(k) =~= s);
    }
}

/// Read the canonical unsigned decimal spelled by `buf[from..to]`.
///
/// Yields the value exactly when the digits are canonical and the
/// value fits the machine word; anything else — an empty range, a
/// non-digit, a leading zero, or a value too large — yields nothing.
pub fn parse_uint(buf: &Vec<u8>, from: usize, to: usize) -> (r: Option<u64>)
    requires
        from <= to <= buf@.len(),
    ensures
        ({
            let s = buf@.subrange(from as int, to as int);
            &&& (r matches Some(v) ==> is_canon_u(s) && dec_val(s) == v as int)
            &&& (r is None ==> !(is_canon_u(s) && dec_val(s) <= u64::MAX as int))
        }),
{
    let ghost s = buf@.subrange(from as int, to as int);
    if to == from {
        return None;
    }
    if buf[from] == 48 && to - from > 1 {
        proof {
            assert(s[0] == 48 && s.len() > 1);
        }
        return None;
    }
    let mut val: u64 = 0;
    let mut i: usize = from;
    while i < to
        invariant
            from <= i <= to <= buf@.len(),
            s == buf@.subrange(from as int, to as int),
            to > from,
            val as int == dec_val(s.take(i as int - from as int)),
            forall|p: int| 0 <= p < i - from ==> 48 <= #[trigger] s[p] <= 57,
        decreases to - i,
    {
        let c = buf[i];
        proof {
            assert(s[i as int - from as int] == buf@[i as int]);
        }
        if c < 48 || c > 57 {
            proof {
                assert(!(48 <= s[i as int - from as int] <= 57));
                assert(!is_digits(s));
            }
            return None;
        }
        let d = (c - 48) as u64;
        proof {
            assert(s.take(i as int - from as int + 1).drop_last() =~= s.take(
                i as int - from as int,
            ));
            assert(s.take(i as int - from as int + 1).last() == s[i as int - from as int]);
        }
        if val > (u64::MAX - d) / 10 {
            proof {
                assert(10 * ((u64::MAX - d) / 10) + ((u64::MAX - d) % 10) == u64::MAX - d);
                assert(val as int * 10 + d as int > u64::MAX as int);
                assert(dec_val(s.take(i as int - from as int + 1)) > u64::MAX as int);
                if is_digits(s) {
                    lemma_dec_val_mono(s, i as int - from as int + 1);
                    assert(dec_val(s) > u64::MAX as int);
                }
            }
            return None;
        }
        proof {
            assert(val as int <= (u64::MAX as int - d as int) / 10);
            assert(10 * ((u64::MAX - d) / 10) + ((u64::MAX - d) % 10) == u64::MAX - d);
            assert(val as int * 10 + d as int <= u64::MAX as int);
        }
        val = val * 10 + d;
        i = i + 1;
    }
    proof {
        assert(s.take(to as int - from as int) =~= s);
        assert(is_digits(s));
        assert(s[0] == buf@[from as int]);
        assert(is_canon_u(s));
    }
    Some(val)
}


/// What the executable decoder yields for one scalar.
pub enum ScalarDecode {
    /// More bytes are needed.
    Incomplete,
    /// The bytes do not begin with a valid scalar.
    Invalid,
    /// One scalar and the position just past it.
    Done(RespScalar, usize),
}

/// Decode one scalar starting at position `i`, as `sp_parse_scalar`
/// describes.
pub fn parse_scalar(buf: &Vec<u8>, i: usize) -> (r: ScalarDecode)
    requires
        i <= buf@.len(),
    ensures
        (r is Incomplete <==> sp_parse_scalar(buf@, i as int) is Incomplete),
        (r is Invalid <==> sp_parse_scalar(buf@, i as int) is Bad),
        (r matches ScalarDecode::Done(v, n) ==> sp_parse_scalar(buf@, i as int) == ScalarOut::Done(
            v@,
            n as int,
        ) && n <= buf@.len()),
{
    if i >= buf.len() {
        return ScalarDecode::Incomplete;
    }
    let c = buf[i];
    if c == 43 || c == 45 {
        match find_crlf(buf, i + 1) {
            None => ScalarDecode::Incomplete,
            Some(j) => {
                let ghost content = buf@.subrange(i as int + 1, j as int);
                let mut p: usize = i + 1;
                while p < j
                    invariant
                        i + 1 <= p <= j,
                        i < buf@.len(),
                        j + 2 <= buf@.len(),
                        sp_find_crlf(buf@, i as int + 1) == Some(j as int),
                        buf@[i as int] == 43 || buf@[i as int] == 45,
                        content == buf@.subrange(i as int + 1, j as int),
                        forall|q: int|
                            i + 1 <= q < p ==> buf@[q] != CR && #[trigger] buf@[q] != LF,
                    decreases j - p,
                {
                    if buf[p] == CR || buf[p] == LF {
                        proof {
                            assert(content[p as int - (i as int + 1)] == buf@[p as int]);
                            assert(!line_wf(content));
                        }
                        return ScalarDecode::Invalid;
                    }
                    p = p + 1;
                }
                proof {
                    assert forall|q: int| 0 <= q < content.len() implies content[q] != CR
                        && #[trigger] content[q] != LF by {
                        assert(content[q] == buf@[q + i + 1]);
                    }
                    assert(line_wf(content));
                }
                let payload = copy_range(buf, i + 1, j);
                if c == 43 {
                    ScalarDecode::Done(RespScalar::Simple(payload), j + 2)
                } else {
                    ScalarDecode::Done(RespScalar::ErrorMsg(payload), j + 2)
                }
            },
        }
    } else if c == 58 {
        match find_crlf(buf, i + 1) {
            None => ScalarDecode::Incomplete,
            Some(j) => {
                let ghost s = buf@.subrange(i as int + 1, j as int);
                if j == i + 1 {
                    proof {
                        assert(s.len() == 0);
                        assert(!sp_int_ok(s));
                    }
                    return ScalarDecode::Invalid;
                }
                proof {
                    assert(s[0] == buf@[i as int + 1]);
                }
                if buf[i + 1] == 45 {
                    proof {
                        assert(s.skip(1) =~= buf@.subrange(i as int + 2, j as int));
                    }
                    match parse_uint(buf, i + 2, j) {
                        None => {
                            proof {
                                assert(!sp_int_ok(s));
                            }
                            ScalarDecode::Invalid
                        },
                        Some(mag) => {
                            if mag == 0 {
                                proof {
                                    assert(!sp_int_ok(s));
                                }
                                ScalarDecode::Invalid
                            } else if mag <= 9223372036854775807 {
                                proof {
                                    assert(sp_int_ok(s));
                                    assert(sp_int_val(s) == -(mag as int));
                                }
                                ScalarDecode::Done(RespScalar::Integer(-(mag as i64)), j + 2)
                            } else if mag == 9223372036854775808 {
                                proof {
                                    assert(sp_int_ok(s));
                                    assert(sp_int_val(s) == i64::MIN as int);
                                }
                                ScalarDecode::Done(RespScalar::Integer(i64::MIN), j + 2)
                            } else {
                                proof {
                                    assert(!sp_int_ok(s));
                                }
                                ScalarDecode::Invalid
                            }
                        },
                    }
                } else {
                    match parse_uint(buf, i + 1, j) {
                        None => {
                            proof {
                                assert(!sp_int_ok(s));
                            }
                            ScalarDecode::Invalid
                        },
                        Some(v) => {
                            if v <= 9223372036854775807 {
                                proof {
                                    assert(sp_int_ok(s));
                                    assert(sp_int_val(s) == v as int);
                                }
                                ScalarDecode::Done(RespScalar::Integer(v as i64), j + 2)
                            } else {
                                proof {
                                    assert(!sp_int_ok(s));
                                }
                                ScalarDecode::Invalid
                            }
                        },
                    }
                }
            },
        }
    } else if c == 36 {
        match find_crlf(buf, i + 1) {
            None => ScalarDecode::Incomplete,
            Some(j) => {
                let ghost h = buf@.subrange(i as int + 1, j as int);
                if j == i + 3 && buf[i + 1] == 45 && buf[i + 2] == 49 {
                    proof {
                        assert(h =~= seq![45u8, 49u8]);
                    }
                    ScalarDecode::Done(RespScalar::Null, j + 2)
                } else {
                    proof {
                        if h == seq![45u8, 49u8] {
                            assert(h.len() == 2);
                            assert(h[0] == buf@[i as int + 1] && h[1] == buf@[i as int + 2]);
                            assert(false);
                        }
                    }
                    match parse_uint(buf, i + 1, j) {
                        None => ScalarDecode::Invalid,
                        Some(big_l) => {
                            let rem = buf.len() - (j + 2);
                            if rem < 2 || big_l > (rem - 2) as u64 {
                                proof {
                                    assert(j as int + 2 + big_l as int + 2 > buf@.len());
                                }
                                ScalarDecode::Incomplete
                            } else {
                                let l = big_l as usize;
                                proof {
                                    assert(l as int == big_l as int);
                                    assert(j as int + 2 + l as int + 2 <= buf@.len());
                                }
                                if buf[j + 2 + l] == CR && buf[j + 2 + l + 1] == LF {
                                    let payload = copy_range(buf, j + 2, j + 2 + l);
                                    ScalarDecode::Done(RespScalar::Data(payload), j + 2 + l + 2)
                                } else {
                                    ScalarDecode::Invalid
                                }
                            }
                        },
                    }
                }
            },
        }
    } else {
        ScalarDecode::Invalid
    }
}


/// Decoding `k + m` elements decomposes into `k`, then `m` more.
pub proof fn lemma_elems_split(buf: Seq<u8>, i: int, k: int, m: int)
    requires
        k >= 0,
        m >= 0,
    ensures
        sp_parse_elems(buf, i, k + m) == (match sp_parse_elems(buf, i, k) {
            ElemsOut::Done(vs, mid) => match sp_parse_elems(buf, mid, m) {
                ElemsOut::Done(vs2, end) => ElemsOut::Done(vs + vs2, end),
                o => o,
            },
            o => o,
        }),
    decreases k,
{
    if k == 0 {
        match sp_parse_elems(buf, i, m) {
            ElemsOut::Done(vs2, end) => {
                assert(Seq::<ScalarV>::empty() + vs2 =~= vs2);
                assert(sp_parse_elems(buf, i, 0) == ElemsOut::Done(Seq::<ScalarV>::empty(), i));
            },
            _ => {},
        }
    } else {
        match sp_parse_scalar(buf, i) {
            ScalarOut::Done(v, j) => {
                lemma_elems_split(buf, j, k - 1, m);
                match sp_parse_elems(buf, j, k - 1) {
                    ElemsOut::Done(a, mid) => {
                        match sp_parse_elems(buf, mid, m) {
                            ElemsOut::Done(b, end) => {
                                assert(seq![v] + (a + b) =~= (seq![v] + a) + b);
                            },
                            _ => {},
                        }
                    },
                    _ => {},
                }
            },
            _ => {},
        }
    }
}

/// A maximal non-space run starting at `start` is the leading word of
/// the rest of the line.
pub proof fn lemma_token_run(line: Seq<u8>, start: int, end: int)
    requires
        0 <= start <= end <= line.len(),
        forall|q: int| start <= q < end ==> #[trigger] line[q] != 32,
        end == line.len() || line[end] == 32,
    ensures
        sp_token_len(line.skip(start)) == end - start,
    decreases end - start,
{
    if start < end {
        assert(line.skip(start)[0] == line[start]);
        assert(line.skip(start).skip(1) =~= line.skip(start + 1));
        lemma_token_run(line, start + 1, end);
    } else {
        if start < line.len() {
            assert(line.skip(start)[0] == line[start]);
        }
    }
}

/// What the executable decoder yields for one frame.
pub enum DecodeResult {
    /// More bytes are needed before a whole frame is present.
    Incomplete,
    /// The bytes do not begin with a valid frame.
    Invalid,
    /// One frame and the count of bytes it occupied.
    Done(RespFrame, usize),
}

/// Decode one frame from the front of the buffer, as `sp_decode`
/// describes: the result is `Done` exactly when a whole canonical
/// frame or non-empty inline command line sits at the front,
/// `Incomplete` exactly while the bytes may still grow into one, and
/// `Invalid` exactly when they never can.
pub fn decode(buf: &Vec<u8>) -> (r: DecodeResult)
    ensures
        (r is Incomplete <==> sp_decode(buf@) is Incomplete),
        (r is Invalid <==> sp_decode(buf@) is Bad),
        (r matches DecodeResult::Done(f, n) ==> sp_decode(buf@) == ParseOut::Done(f@, n as int)
            && n <= buf@.len()),
{
    if buf.len() == 0 {
        return DecodeResult::Incomplete;
    }
    let c = buf[0];
    if c == 42 {
        match find_crlf(buf, 1) {
            None => DecodeResult::Incomplete,
            Some(j) => {
                let ghost h = buf@.subrange(1, j as int);
                match parse_uint(buf, 1, j) {
                    None => DecodeResult::Invalid,
                    Some(n) => {
                        let mut elems: Vec<RespScalar> = Vec::new();
                        let mut pos: usize = j + 2;
                        let mut k: u64 = 0;
                        proof {
                            assert(elems@.map_values(|e: RespScalar| e@) =~= Seq::<
                                ScalarV,
                            >::empty());
                            assert(sp_parse_elems(buf@, j as int + 2, 0) == ElemsOut::Done(
                                Seq::<ScalarV>::empty(),
                                j as int + 2,
                            ));
                        }
                        while k < n
                            invariant
                                buf@.len() > 0,
                                buf@[0] == 42,
                                sp_find_crlf(buf@, 1) == Some(j as int),
                                j + 2 <= buf@.len(),
                                h == buf@.subrange(1, j as int),
                                is_canon_u(h),
                                dec_val(h) == n as int,
                                k <= n,
                                pos <= buf@.len(),
                                elems@.len() == k,
                                sp_parse_elems(buf@, j as int + 2, k as int) == ElemsOut::Done(
                                    elems@.map_values(|e: RespScalar| e@),
                                    pos as int,
                                ),
                            decreases n - k,
                        {
                            proof {
                                lemma_elems_split(buf@, j as int + 2, k as int, 1);
                            }
                            match parse_scalar(buf, pos) {
                                ScalarDecode::Incomplete => {
                                    proof {
                                        assert(sp_parse_elems(buf@, pos as int, 1)
                                            is Incomplete);
                                        assert(sp_parse_elems(buf@, j as int + 2, k as int + 1)
                                            is Incomplete);
                                        lemma_elems_split(
                                            buf@,
                                            j as int + 2,
                                            k as int + 1,
                                            n as int - k as int - 1,
                                        );
                                        assert(sp_parse_elems(buf@, j as int + 2, n as int)
                                            is Incomplete);
                                    }
                                    return DecodeResult::Incomplete;
                                },
                                ScalarDecode::Invalid => {
                                    proof {
                                        assert(sp_parse_elems(buf@, pos as int, 1) is Bad);
                                        assert(sp_parse_elems(buf@, j as int + 2, k as int + 1)
                                            is Bad);
                                        lemma_elems_split(
                                            buf@,
                                            j as int + 2,
                                            k as int + 1,
                                            n as int - k as int - 1,
                                        );
                                        assert(sp_parse_elems(buf@, j as int + 2, n as int)
                                            is Bad);
                                    }
                                    return DecodeResult::Invalid;
                                },
                                ScalarDecode::Done(v, p2) => {
                                    let ghost evs = elems@.map_values(|e: RespScalar| e@);
                                    proof {
                                        assert(sp_parse_elems(buf@, p2 as int, 0)
                                            == ElemsOut::Done(
                                            Seq::<ScalarV>::empty(),
                                            p2 as int,
                                        ));
                                        assert(seq![v@] + Seq::<ScalarV>::empty() =~= seq![v@]);
                                        assert(sp_parse_elems(buf@, pos as int, 1)
                                            == ElemsOut::Done(seq![v@], p2 as int));
                                        assert(sp_parse_elems(buf@, j as int + 2, k as int + 1)
                                            == ElemsOut::Done(evs + seq![v@], p2 as int));
                                    }
                                    elems.push(v);
                                    proof {
                                        assert(elems@.map_values(|e: RespScalar| e@) =~= evs
                                            + seq![v@]);
                                    }
                                    pos = p2;
                                    k = k + 1;
                                },
                            }
                        }
                        proof {
                            assert(sp_decode(buf@) == ParseOut::Done(
                                FrameV::Array(elems@.map_values(|e: RespScalar| e@)),
                                pos as int,
                            ));
                        }
                        DecodeResult::Done(RespFrame::Array(elems), pos)
                    },
                }
            },
        }
    } else if c == 43 || c == 45 || c == 58 || c == 36 {
        match parse_scalar(buf, 0) {
            ScalarDecode::Incomplete => DecodeResult::Incomplete,
            ScalarDecode::Invalid => DecodeResult::Invalid,
            ScalarDecode::Done(v, n) => DecodeResult::Done(RespFrame::Scalar(v), n),
        }
    } else {
        match find_crlf(buf, 0) {
            None => DecodeResult::Incomplete,
            Some(j) => {
                let ghost line = buf@.subrange(0, j as int);
                let mut p: usize = 0;
                while p < j
                    invariant
                        p <= j,
                        j + 2 <= buf@.len(),
                        buf@.len() > 0,
                        line == buf@.subrange(0, j as int),
                        sp_find_crlf(buf@, 0) == Some(j as int),
                        buf@[0] != 42 && buf@[0] != 43 && buf@[0] != 45 && buf@[0] != 58 && buf@[0]
                            != 36,
                        forall|q: int| 0 <= q < p ==> #[trigger] line[q] != CR && line[q] != LF,
                    decreases j - p,
                {
                    proof {
                        assert(line[p as int] == buf@[p as int]);
                    }
                    if buf[p] == CR || buf[p] == LF {
                        proof {
                            assert(!line_wf(line));
                        }
                        return DecodeResult::Invalid;
                    }
                    p = p + 1;
                }
                proof {
                    assert(line_wf(line));
                }
                // split the line into its words
                let mut toks: Vec<RespScalar> = Vec::new();
                let ghost mut tv: Seq<Seq<u8>> = Seq::empty();
                let mut p: usize = 0;
                proof {
                    assert(line.skip(0) =~= line);
                    assert(tv + sp_tokens(line) =~= sp_tokens(line));
                }
                while p < j
                    invariant
                        p <= j,
                        j + 2 <= buf@.len(),
                        buf@.len() > 0,
                        line == buf@.subrange(0, j as int),
                        line_wf(line),
                        sp_find_crlf(buf@, 0) == Some(j as int),
                        buf@[0] != 42 && buf@[0] != 43 && buf@[0] != 45 && buf@[0] != 58 && buf@[0]
                            != 36,
                        toks@.len() == tv.len(),
                        forall|a: int|
                            0 <= a < tv.len() ==> (#[trigger] toks@[a])@ == ScalarV::Data(tv[a]),
                        sp_tokens(line) == tv + sp_tokens(line.skip(p as int)),
                    decreases j - p,
                {
                    proof {
                        assert(line[p as int] == buf@[p as int]);
                    }
                    if buf[p] == 32 {
                        proof {
                            assert(line.skip(p as int)[0] == line[p as int]);
                            assert(line.skip(p as int).skip(1) =~= line.skip(p as int + 1));
                            assert(sp_tokens(line.skip(p as int)) == sp_tokens(
                                line.skip(p as int + 1),
                            ));
                        }
                        p = p + 1;
                    } else {
                        let start = p;
                        proof {
                            assert(line[start as int] != 32);
                        }
                        p = p + 1;
                        while p < j && buf[p] != 32
                            invariant
                                start < p <= j,
                                line == buf@.subrange(0, j as int),
                                j + 2 <= buf@.len(),
                                forall|q: int| start <= q < p ==> #[trigger] line[q] != 32,
                            decreases j - p,
                        {
                            proof {
                                assert(line[p as int] == buf@[p as int]);
                            }
                            p = p + 1;
                        }
                        proof {
                            assert(p == j || line[p as int] == 32);
                            lemma_token_run(line, start as int, p as int);
                            let rest = line.skip(start as int);
                            assert(rest[0] == line[start as int]);
                            assert(rest.take(p as int - start as int) =~= line.subrange(
                                start as int,
                                p as int,
                            ));
                            assert(rest.skip(p as int - start as int) =~= line.skip(p as int));
                            assert(sp_tokens(rest) == seq![line.subrange(start as int, p as int)]
                                + sp_tokens(line.skip(p as int)));
                            assert(line.subrange(start as int, p as int) =~= buf@.subrange(
                                start as int,
                                p as int,
                            ));
                        }
                        let tok = copy_range(buf, start, p);
                        let ghost toks_before = toks@;
                        let ghost tv_before = tv;
                        toks.push(RespScalar::Data(tok));
                        proof {
                            tv = tv.push(line.subrange(start as int, p as int));
                            assert(toks@ == toks_before.push(RespScalar::Data(tok)));
                            assert(toks@[toks@.len() - 1]@ == ScalarV::Data(tv[tv.len() - 1]));
                            assert(tv_before + (seq![line.subrange(start as int, p as int)]
                                + sp_tokens(line.skip(p as int))) =~= tv + sp_tokens(
                                line.skip(p as int),
                            ));
                        }
                    }
                }
                proof {
                    assert(line.skip(j as int) =~= Seq::<u8>::empty());
                    assert(sp_tokens(Seq::<u8>::empty()) =~= Seq::<Seq<u8>>::empty());
                    assert(tv + Seq::<Seq<u8>>::empty() =~= tv);
                    assert(sp_tokens(line) == tv);
                }
                if toks.len() == 0 {
                    proof {
                        assert(sp_tokens(line).len() == 0);
                    }
                    DecodeResult::Invalid
                } else {
                    let r = RespFrame::Array(toks);
                    proof {
                        assert(toks@.map_values(|e: RespScalar| e@) =~= sp_tokens(
                            line,
                        ).map_values(|t: Seq<u8>| ScalarV::Data(t)));
                        assert(sp_decode(buf@) == ParseOut::Done(r@, j as int + 2));
                    }
                    DecodeResult::Done(r, j + 2)
                }
            },
        }
    }
}


/// A digit string led by a nonzero digit is worth at least one, and
/// at least ten from two digits up.
proof fn lemma_dec_val_lower(s: Seq<u8>)
    requires
        is_digits(s),
        s[0] >= 49,
    ensures
        dec_val(s) >= 1,
        s.len() >= 2 ==> dec_val(s) >= 10,
    decreases s.len(),
{
    if s.len() == 1 {
        assert(dec_val(s.drop_last()) == 0) by {
            assert(s.drop_last() =~= Seq::<u8>::empty());
        }
    } else {
        let q = s.drop_last();
        assert forall|i: int| 0 <= i < q.len() implies 48 <= #[trigger] q[i] <= 57 by {
            assert(q[i] == s[i]);
        }
        assert(q[0] == s[0]);
        lemma_dec_val_lower(q);
        assert(dec_val(s) == dec_val(q) * 10 + (s.last() - 48));
    }
}

/// Writing the value of canonical digits gives the digits back.
pub proof fn lemma_dec_canon(s: Seq<u8>)
    requires
        is_canon_u(s),
    ensures
        dec_val(s) >= 0,
        crate::resp::dec_u(dec_val(s) as nat) == s,
    decreases s.len(),
{
    lemma_dec_val_nonneg(s);
    if s.len() == 1 {
        assert(s.drop_last() =~= Seq::<u8>::empty());
        assert(dec_val(Seq::<u8>::empty()) == 0);
        assert(dec_val(s) == (s.last() - 48));
        assert(dec_val(s) < 10);
        assert(crate::resp::dec_u(dec_val(s) as nat) =~= seq![(48 + dec_val(s)) as u8]);
        assert(seq![(48 + dec_val(s)) as u8] =~= s);
    } else {
        let q = s.drop_last();
        let d = s.last() - 48;
        assert forall|i: int| 0 <= i < q.len() implies 48 <= #[trigger] q[i] <= 57 by {
            assert(q[i] == s[i]);
        }
        assert(q[0] == s[0]);
        assert(is_canon_u(q));
        lemma_dec_canon(q);
        assert(s[0] != 48 && 48 <= s[0] <= 57);
        lemma_dec_val_lower(s);
        let v = dec_val(s);
        assert(v == dec_val(q) * 10 + d);
        assert(0 <= d <= 9);
        assert(v >= 10);
        assert(v as nat / 10 == dec_val(q)) by {
            assert(v == 10 * dec_val(q) + d);
        }
        assert(v as nat % 10 == d) by {
            assert(v == 10 * dec_val(q) + d);
        }
        assert(crate::resp::dec_u(v as nat) == crate::resp::dec_u(dec_val(q) as nat) + seq![
            (48 + d) as u8,
        ]);
        assert(q + seq![(48 + d) as u8] =~= s);
    }
}

/// A found line terminator really is one, within bounds.
pub proof fn lemma_find_crlf_props(buf: Seq<u8>, i: int)
    requires
        0 <= i,
        sp_find_crlf(buf, i) is Some,
    ensures
        ({
            let j = sp_find_crlf(buf, i).unwrap();
            &&& i <= j
            &&& j + 2 <= buf.len()
            &&& buf[j] == CR
            &&& buf[j + 1] == LF
        }),
    decreases buf.len() - i,
{
    if i + 2 > buf.len() {
        assert(false);
    } else if buf[i] == CR && buf[i + 1] == LF {
    } else {
        lemma_find_crlf_props(buf, i + 1);
    }
}


/// A decoded scalar re-encodes to exactly the bytes it came from.
pub proof fn lemma_scalar_roundtrip(buf: Seq<u8>, i: int)
    requires
        0 <= i,
    ensures
        (sp_parse_scalar(buf, i) matches ScalarOut::Done(v, j) ==> i < j <= buf.len()
            && crate::resp::enc_scalar(v) == buf.subrange(i, j)),
{
    if i >= buf.len() {
    } else if buf[i] == 43 || buf[i] == 45 {
        match sp_find_crlf(buf, i + 1) {
            None => {},
            Some(jj) => {
                lemma_find_crlf_props(buf, i + 1);
                let content = buf.subrange(i + 1, jj);
                if line_wf(content) {
                    if buf[i] == 43 {
                        assert(crate::resp::enc_scalar(ScalarV::Simple(content)) =~= buf.subrange(
                            i,
                            jj + 2,
                        ));
                    } else {
                        assert(crate::resp::enc_scalar(ScalarV::ErrorMsg(content)) =~= buf.subrange(
                            i,
                            jj + 2,
                        ));
                    }
                }
            },
        }
    } else if buf[i] == 58 {
        match sp_find_crlf(buf, i + 1) {
            None => {},
            Some(jj) => {
                lemma_find_crlf_props(buf, i + 1);
                let s = buf.subrange(i + 1, jj);
                if sp_int_ok(s) {
                    if s.len() >= 1 && s[0] == 45 {
                        lemma_dec_canon(s.skip(1));
                        let m = dec_val(s.skip(1));
                        assert(sp_int_val(s) == -m && m >= 1);
                        assert(crate::resp::dec_i(sp_int_val(s)) == seq![45u8]
                            + crate::resp::dec_u(m as nat));
                        assert(seq![45u8] + s.skip(1) =~= s);
                        assert(crate::resp::dec_i(sp_int_val(s)) == s);
                    } else {
                        lemma_dec_canon(s);
                        assert(sp_int_val(s) >= 0);
                        assert(crate::resp::dec_i(sp_int_val(s)) == crate::resp::dec_u(
                            dec_val(s) as nat,
                        ));
                        assert(crate::resp::dec_i(sp_int_val(s)) == s);
                    }
                    assert(crate::resp::enc_scalar(ScalarV::Integer(sp_int_val(s))) =~= buf.subrange(
                        i,
                        jj + 2,
                    ));
                }
            },
        }
    } else if buf[i] == 36 {
        match sp_find_crlf(buf, i + 1) {
            None => {},
            Some(jj) => {
                lemma_find_crlf_props(buf, i + 1);
                let h = buf.subrange(i + 1, jj);
                if h =~= seq![45u8, 49u8] {
                    assert(jj == i + 3);
                    assert(buf[i + 1] == 45 && buf[i + 2] == 49);
                    assert(crate::resp::enc_scalar(ScalarV::Null) =~= buf.subrange(i, jj + 2));
                } else if is_canon_u(h) && dec_val(h) <= u64::MAX as int {
                    let l = dec_val(h);
                    if jj + 2 + l + 2 > buf.len() {
                    } else if buf[jj + 2 + l] == CR && buf[jj + 2 + l + 1] == LF {
                        lemma_dec_canon(h);
                        let payload = buf.subrange(jj + 2, jj + 2 + l);
                        assert(payload.len() == l);
                        assert(crate::resp::enc_scalar(ScalarV::Data(payload)) == seq![36u8]
                            + crate::resp::dec_u(payload.len()) + crate::resp::crlf() + payload
                            + crate::resp::crlf());
                        assert(crate::resp::dec_u(payload.len()) == h);
                        assert(crate::resp::enc_scalar(ScalarV::Data(payload)) =~= buf.subrange(
                            i,
                            jj + 2 + l + 2,
                        ));
                    }
                }
            },
        }
    }
}

/// A decoded element run re-encodes to exactly its bytes.
pub proof fn lemma_elems_roundtrip(buf: Seq<u8>, i: int, n: int)
    requires
        0 <= i <= buf.len(),
        n >= 0,
    ensures
        (sp_parse_elems(buf, i, n) matches ElemsOut::Done(vs, k) ==> i <= k <= buf.len()
            && vs.len() == n && crate::resp::enc_elems(vs) == buf.subrange(i, k)),
    decreases n,
{
    if n == 0 {
        assert(buf.subrange(i, i) =~= Seq::<u8>::empty());
        assert(crate::resp::enc_elems(Seq::<ScalarV>::empty()) == Seq::<u8>::empty());
    } else {
        match sp_parse_scalar(buf, i) {
            ScalarOut::Done(v, j) => {
                lemma_scalar_roundtrip(buf, i);
                lemma_elems_roundtrip(buf, j, n - 1);
                match sp_parse_elems(buf, j, n - 1) {
                    ElemsOut::Done(vs2, k) => {
                        assert((seq![v] + vs2).drop_first() =~= vs2);
                        assert((seq![v] + vs2)[0] == v);
                        assert(crate::resp::enc_elems(seq![v] + vs2) == crate::resp::enc_scalar(v)
                            + crate::resp::enc_elems(vs2));
                        assert(buf.subrange(i, j) + buf.subrange(j, k) =~= buf.subrange(i, k));
                    },
                    _ => {},
                }
            },
            _ => {},
        }
    }
}

/// Losslessness of the framed forms: a frame decoded from the wire
/// re-encodes to exactly the bytes it occupied.  (An inline command
/// line is the one exception by design: it is shorthand, normalised
/// to the framed command it abbreviates.)
pub proof fn lemma_decode_roundtrip(buf: Seq<u8>)
    requires
        buf.len() > 0,
        buf[0] == 42 || buf[0] == 43 || buf[0] == 45 || buf[0] == 58 || buf[0] == 36,
    ensures
        (sp_decode(buf) matches ParseOut::Done(f, n) ==> 0 < n <= buf.len()
            && crate::resp::enc_frame(f) == buf.take(n)),
{
    if buf[0] == 42 {
        match sp_find_crlf(buf, 1) {
            None => {},
            Some(j) => {
                lemma_find_crlf_props(buf, 1);
                let h = buf.subrange(1, j);
                if is_canon_u(h) && dec_val(h) <= u64::MAX as int {
                    lemma_dec_canon(h);
                    lemma_elems_roundtrip(buf, j + 2, dec_val(h));
                    match sp_parse_elems(buf, j + 2, dec_val(h)) {
                        ElemsOut::Done(vs, k) => {
                            assert(vs.len() == dec_val(h));
                            assert(crate::resp::enc_array_header(vs.len()) == seq![42u8] + h
                                + crate::resp::crlf());
                            assert(crate::resp::enc_array_header(vs.len()) =~= buf.subrange(
                                0,
                                j + 2,
                            ));
                            assert(crate::resp::enc_frame(FrameV::Array(vs)) == buf.subrange(
                                0,
                                j + 2,
                            ) + buf.subrange(j + 2, k));
                            assert(buf.subrange(0, j + 2) + buf.subrange(j + 2, k) =~= buf.take(k));
                        },
                        _ => {},
                    }
                }
            },
        }
    } else {
        lemma_scalar_roundtrip(buf, 0);
        match sp_parse_scalar(buf, 0) {
            ScalarOut::Done(v, j) => {
                assert(buf.subrange(0, j) =~= buf.take(j));
            },
            _ => {},
        }
    }
}

} // verus!
