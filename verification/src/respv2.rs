//! The second decode strategy: compute the total frame length first with a
//! lighter probe that reports only "not complete yet", slice exactly that
//! many bytes off the buffer, and parse the fixed-size slice in one pass.
//! Probe and parse both read a map's declared count as a count of frames,
//! two per entry, and neither knows the set frame; the recursive-descent
//! strategy reads the same count as a count of entries, so on map frames
//! the two strategies accept different wire forms.
use vstd::prelude::*;
use crate::bytebuf::{buf_advance, buf_bytes, bytes_view};
use crate::resp::boolean::decode_bool_at;
use crate::resp::bulk_string::BulkString;
use crate::resp::double::{decode_double_at, digits_end_at};
use crate::resp::frame::{frame_view, RespFrame};
use crate::resp::integer::decode_integer_at;
use crate::resp::map::RespMap;
use crate::resp::null::RespNull;
use crate::resp::simple_error::SimpleError;
use crate::resp::simple_string::SimpleString;
use crate::resp::{byte_at, RespError};
use crate::wire::{digits_end, find_crlf, find_crlf_at, is_dec_digit, null_array_wire,
    null_bulk_wire, null_wire, spec_decode_bool, spec_decode_double, spec_decode_integer,
    spec_decode_text, spec_fixed, spec_parse_length, upsert, DecodeErr, FrameView, CR, LF};

verus! {

broadcast use vstd::seq::axiom_seq_index_decreases, vstd::seq::axiom_seq_subrange_decreases;

/// One signed decimal line, as the probe reads a length or integer field:
/// an optional sign, digits, and the CRLF right after them.  The value
/// and the line's byte length.
pub open spec fn spec_v2_int(t: Seq<u8>) -> Option<(int, nat)> {
    let s: int = if t.len() >= 1 && (t[0] == 43 || t[0] == 45) {
        1
    } else {
        0
    };
    let e = digits_end(t, s);
    if e == s || e + 1 >= t.len() || t[e] != CR || t[e + 1] != LF {
        Option::None
    } else {
        let mag = crate::wire::digits_val(t.subrange(s, e));
        let v: int = if t.len() >= 1 && t[0] == 45 {
            -(mag as int)
        } else {
            mag as int
        };
        if i64::MIN <= v <= i64::MAX {
            Option::Some((v, (e + 2) as nat))
        } else {
            Option::None
        }
    }
}

/// The probe of this strategy: the total byte length of the first frame,
/// or nothing when the buffer cannot be judged complete.
pub open spec fn spec_v2_probe(b: Seq<u8>) -> Option<nat>
    decreases b.len(), 0int, 0int,
{
    if b.len() == 0 {
        Option::None
    } else if b[0] == 43 || b[0] == 45 || b[0] == 58 || b[0] == 95 || b[0] == 35 || b[0] == 44 {
        match find_crlf(b.skip(1)) {
            Option::Some(i) => Option::Some((1 + i + 2) as nat),
            Option::None => Option::None,
        }
    } else if b[0] == 36 {
        match spec_v2_int(b.skip(1)) {
            Option::None => Option::None,
            Option::Some((v, l1)) => if v == -1 {
                Option::Some((1 + l1) as nat)
            } else if v < -1 {
                Option::None
            } else if b.len() - 1 - l1 < v + 2 {
                Option::None
            } else {
                Option::Some((1 + l1 + v + 2) as nat)
            },
        }
    } else if b[0] == 42 {
        match spec_v2_int(b.skip(1)) {
            Option::None => Option::None,
            Option::Some((v, l1)) => if v == 0 || v == -1 {
                Option::Some((1 + l1) as nat)
            } else if v < -1 {
                Option::None
            } else if 1 + l1 > b.len() {
                Option::None
            } else {
                match spec_v2_frames(b.skip(1 + l1 as int), v as nat) {
                    Option::Some(m) => Option::Some((1 + l1 + m) as nat),
                    Option::None => Option::None,
                }
            },
        }
    } else if b[0] == 37 {
        match spec_v2_int(b.skip(1)) {
            Option::None => Option::None,
            Option::Some((v, l1)) => if v < 0 {
                Option::None
            } else if 1 + l1 > b.len() {
                Option::None
            } else {
                match spec_v2_entries(b.skip(1 + l1 as int), (v / 2) as nat) {
                    Option::Some(m) => Option::Some((1 + l1 + m) as nat),
                    Option::None => Option::None,
                }
            },
        }
    } else {
        Option::None
    }
}

/// Walk `n` frames, summing their probed lengths.
pub open spec fn spec_v2_frames(b: Seq<u8>, n: nat) -> Option<nat>
    decreases b.len(), 1int, n,
{
    if n == 0 {
        Option::Some(0)
    } else {
        match spec_v2_probe(b) {
            Option::None => Option::None,
            Option::Some(l) => if l == 0 || l > b.len() {
                Option::None
            } else {
                match spec_v2_frames(b.skip(l as int), (n - 1) as nat) {
                    Option::Some(m) => Option::Some((l + m) as nat),
                    Option::None => Option::None,
                }
            },
        }
    }
}

/// Walk `n` map entries: any one line for the key, then one frame.
pub open spec fn spec_v2_entries(b: Seq<u8>, n: nat) -> Option<nat>
    decreases b.len(), 1int, n,
{
    if n == 0 {
        Option::Some(0)
    } else {
        match find_crlf(b) {
            Option::None => Option::None,
            Option::Some(i) => if i < 0 || i + 2 > b.len() {
                Option::None
            } else {
                match spec_v2_probe(b.skip(i + 2)) {
                    Option::None => Option::None,
                    Option::Some(l) => if l == 0 || l > b.len() - i - 2 {
                        Option::None
                    } else {
                        match spec_v2_entries(b.skip(i + 2 + l), (n - 1) as nat) {
                            Option::Some(m) => Option::Some((i + 2 + l + m) as nat),
                            Option::None => Option::None,
                        }
                    },
                }
            },
        }
    }
}

/// Find the first CRLF of a slice, from a given position.
fn find_crlf_from(b: &[u8], start: usize) -> (r: Option<usize>)
    requires
        start <= b@.len(),
    ensures
        match r {
            Option::Some(i) => find_crlf(b@.skip(start as int)) == Option::Some(
                i as int - start as int,
            ) && start <= i && i + 1 < b@.len(),
            Option::None => find_crlf(b@.skip(start as int)) == Option::<int>::None,
        },
{
    let t = vstd::slice::slice_subrange(b, start, b.len());
    proof {
        assert(t@ =~= b@.skip(start as int));
    }
    match crate::resp::find_crlf_pos(t) {
        Option::Some(i) => {
            proof {
                crate::wire::lemma_find_crlf_at_some(t@, 0, i as int);
            }
            Option::Some(start + i)
        },
        Option::None => Option::None,
    }
}

/// Read one signed decimal line of the probe from position `start`.
fn v2_int_at(b: &[u8], start: usize) -> (r: Option<(i64, usize)>)
    requires
        start <= b@.len(),
    ensures
        match r {
            Option::Some(p) => spec_v2_int(b@.skip(start as int)) == Option::Some(
                (p.0 as int, p.1 as nat),
            ) && 3 <= p.1 && start + p.1 <= b@.len(),
            Option::None => spec_v2_int(b@.skip(start as int)) == Option::<(int, nat)>::None,
        },
{
    let t = vstd::slice::slice_subrange(b, start, b.len());
    proof {
        assert(t@ =~= b@.skip(start as int));
    }
    let n = t.len();
    let negative = n >= 1 && byte_at(t, 0) == 45;
    let s: usize = if n >= 1 && (byte_at(t, 0) == 43 || byte_at(t, 0) == 45) {
        1
    } else {
        0
    };
    let e = digits_end_at(t, s);
    if e == s || e >= n {
        return Option::None;
    }
    if e + 1 >= n {
        return Option::None;
    }
    if byte_at(t, e) != CR || byte_at(t, e + 1) != LF {
        return Option::None;
    }
    let digits = vstd::slice::slice_subrange(t, s, e);
    proof {
        assert(digits@ =~= t@.subrange(s as int, e as int));
        crate::wire::lemma_digits_end_all(t@, s as int, e as int);
    }
    let limit: u64 = if negative {
        9223372036854775808
    } else {
        9223372036854775807
    };
    let mag = match parse_bounded_digits(digits, limit) {
        Option::Some(m) => m,
        Option::None => {
            return Option::None;
        },
    };
    let v: i64 = if negative {
        if mag == 9223372036854775808 {
            i64::MIN
        } else {
            -(mag as i64)
        }
    } else {
        mag as i64
    };
    Option::Some((v, e + 2))
}

/// Parse an all-digit slice bounded by `limit`.
fn parse_bounded_digits(d: &[u8], limit: u64) -> (r: Option<u64>)
    requires
        limit >= 9,
        forall|j: int| 0 <= j < d@.len() ==> is_dec_digit(#[trigger] d@[j]),
    ensures
        match r {
            Option::Some(m) => m == crate::wire::digits_val(d@) && m <= limit,
            Option::None => crate::wire::digits_val(d@) > limit,
        },
{
    let n = d.len();
    let mut i: usize = 0;
    let mut val: u64 = 0;
    while i < n
        invariant
            limit >= 9,
            0 <= i <= n == d@.len(),
            forall|j: int| 0 <= j < d@.len() ==> is_dec_digit(#[trigger] d@[j]),
            val == crate::wire::digits_val(d@.take(i as int)),
            val <= limit,
        decreases n - i,
    {
        let c = byte_at(d, i);
        let dig: u64 = (c - 48) as u64;
        proof {
            assert(d@.take(i as int + 1).drop_last() =~= d@.take(i as int));
            assert(d@.take(i as int + 1).last() == d@[i as int]);
        }
        if val > (limit - dig) / 10 {
            proof {
                assert(val * 10 + dig > limit) by (nonlinear_arith)
                    requires
                        val > (limit - dig) / 10,
                        dig <= 9,
                        limit >= 9,
                ;
                crate::resp::lemma_digits_val_prefix_le(d@, i as int + 1);
            }
            return Option::None;
        }
        proof {
            assert(val * 10 + dig <= limit) by (nonlinear_arith)
                requires
                    val <= (limit - dig) / 10,
                    dig <= 9,
                    limit >= 9,
            ;
        }
        val = val * 10 + dig;
        i += 1;
    }
    proof {
        assert(d@.take(n as int) =~= d@);
    }
    Option::Some(val)
}

/// The probe of this strategy (executable): the total byte length of the
/// frame starting at `start`, walking nested frames without materializing
/// anything; every failure is the retry signal.
fn probe_at(b: &[u8], start: usize) -> (r: Result<usize, RespError>)
    requires
        start <= b@.len(),
    ensures
        match r {
            Result::Ok(n) => spec_v2_probe(b@.skip(start as int)) == Option::Some(n as nat) && 1
                <= n <= b@.len() - start,
            Result::Err(e) => e == RespError::NotComplete && spec_v2_probe(b@.skip(start as int))
                == Option::<nat>::None,
        },
    decreases b@.len() - start, 0int,
{
    let ghost t = b@.skip(start as int);
    let blen = b.len();
    if start >= blen {
        return Result::Err(RespError::NotComplete);
    }
    let p = byte_at(b, start);
    assert(t[0] == p);
    if p == 43 || p == 45 || p == 58 || p == 95 || p == 35 || p == 44 {
        match find_crlf_from(b, start + 1) {
            Option::Some(i) => {
                proof {
                    assert(b@.skip(start as int).skip(1) =~= b@.skip(start as int + 1));
                }
                Result::Ok(i - start + 2)
            },
            Option::None => {
                proof {
                    assert(b@.skip(start as int).skip(1) =~= b@.skip(start as int + 1));
                }
                Result::Err(RespError::NotComplete)
            },
        }
    } else if p == 36 {
        proof {
            assert(b@.skip(start as int).skip(1) =~= b@.skip(start as int + 1));
        }
        let (v, l1) = match v2_int_at(b, start + 1) {
            Option::Some(q) => q,
            Option::None => {
                return Result::Err(RespError::NotComplete);
            },
        };
        if v == -1 {
            Result::Ok(1 + l1)
        } else if v < -1 {
            Result::Err(RespError::NotComplete)
        } else {
            let remaining = blen - start - 1 - l1;
            if remaining < 2 || ((remaining - 2) as u64) < (v as u64) {
                assert(t.len() - 1 - l1 < v + 2);
                return Result::Err(RespError::NotComplete);
            }
            Result::Ok(1 + l1 + (v as usize) + 2)
        }
    } else if p == 42 {
        proof {
            assert(b@.skip(start as int).skip(1) =~= b@.skip(start as int + 1));
        }
        let (v, l1) = match v2_int_at(b, start + 1) {
            Option::Some(q) => q,
            Option::None => {
                return Result::Err(RespError::NotComplete);
            },
        };
        if v == 0 || v == -1 {
            Result::Ok(1 + l1)
        } else if v < -1 {
            Result::Err(RespError::NotComplete)
        } else {
            match frames_at(b, start + 1 + l1, v as u64) {
                Result::Ok(m) => {
                    proof {
                        assert(b@.skip(start as int).skip(1 + l1 as int) =~= b@.skip(
                            start as int + 1 + l1 as int,
                        ));
                    }
                    Result::Ok(1 + l1 + m)
                },
                Result::Err(e) => {
                    proof {
                        assert(b@.skip(start as int).skip(1 + l1 as int) =~= b@.skip(
                            start as int + 1 + l1 as int,
                        ));
                    }
                    Result::Err(e)
                },
            }
        }
    } else if p == 37 {
        proof {
            assert(b@.skip(start as int).skip(1) =~= b@.skip(start as int + 1));
        }
        let (v, l1) = match v2_int_at(b, start + 1) {
            Option::Some(q) => q,
            Option::None => {
                return Result::Err(RespError::NotComplete);
            },
        };
        if v < 0 {
            Result::Err(RespError::NotComplete)
        } else {
            match entries_at(b, start + 1 + l1, (v as u64) / 2) {
                Result::Ok(m) => {
                    proof {
                        assert(b@.skip(start as int).skip(1 + l1 as int) =~= b@.skip(
                            start as int + 1 + l1 as int,
                        ));
                        assert((v as u64) / 2 == (v / 2) as u64);
                    }
                    Result::Ok(1 + l1 + m)
                },
                Result::Err(e) => {
                    proof {
                        assert(b@.skip(start as int).skip(1 + l1 as int) =~= b@.skip(
                            start as int + 1 + l1 as int,
                        ));
                        assert((v as u64) / 2 == (v / 2) as u64);
                    }
                    Result::Err(e)
                },
            }
        }
    } else {
        Result::Err(RespError::NotComplete)
    }
}

/// Walk `count` frames from `start`, summing their probed lengths.
fn frames_at(b: &[u8], start: usize, count: u64) -> (r: Result<usize, RespError>)
    requires
        1 <= start <= b@.len(),
    ensures
        match r {
            Result::Ok(m) => spec_v2_frames(b@.skip(start as int), count as nat) == Option::Some(
                m as nat,
            ) && start + m <= b@.len(),
            Result::Err(e) => e == RespError::NotComplete && spec_v2_frames(
                b@.skip(start as int),
                count as nat,
            ) == Option::<nat>::None,
        },
    decreases b@.len() - start, 1int, count,
{
    if count == 0 {
        return Result::Ok(0);
    }
    let blen = b.len();
    let l = match probe_at(b, start) {
        Result::Ok(l) => l,
        Result::Err(e) => {
            return Result::Err(e);
        },
    };
    assert(start + l <= blen);
    proof {
        assert(b@.skip(start as int).skip(l as int) =~= b@.skip(start as int + l as int));
    }
    match frames_at(b, start + l, count - 1) {
        Result::Ok(m) => {
            assert(start + l + m <= blen);
            Result::Ok(l + m)
        },
        Result::Err(e) => Result::Err(e),
    }
}

/// Walk `count` map entries from `start`: one line, then one frame, each.
fn entries_at(b: &[u8], start: usize, count: u64) -> (r: Result<usize, RespError>)
    requires
        1 <= start <= b@.len(),
    ensures
        match r {
            Result::Ok(m) => spec_v2_entries(b@.skip(start as int), count as nat) == Option::Some(
                m as nat,
            ) && start + m <= b@.len(),
            Result::Err(e) => e == RespError::NotComplete && spec_v2_entries(
                b@.skip(start as int),
                count as nat,
            ) == Option::<nat>::None,
        },
    decreases b@.len() - start, 1int, count,
{
    if count == 0 {
        return Result::Ok(0);
    }
    let blen = b.len();
    let i = match find_crlf_from(b, start) {
        Option::Some(i) => i,
        Option::None => {
            return Result::Err(RespError::NotComplete);
        },
    };
    assert(i + 1 < blen);
    let line = i - start + 2;
    proof {
        assert(b@.skip(start as int).skip(line as int) =~= b@.skip(start as int + line as int));
    }
    let l = match probe_at(b, start + line) {
        Result::Ok(l) => l,
        Result::Err(e) => {
            return Result::Err(e);
        },
    };
    proof {
        assert(b@.skip(start as int + line as int).skip(l as int) =~= b@.skip(
            start as int + line as int + l as int,
        ));
        assert(b@.skip(start as int).skip(line as int + l as int) =~= b@.skip(
            start as int + line as int + l as int,
        ));
    }
    match entries_at(b, start + line + l, count - 1) {
        Result::Ok(m) => {
            assert(start + line + l + m <= blen);
            Result::Ok(line + l + m)
        },
        Result::Err(e) => Result::Err(e),
    }
}

/// The total byte length of the frame at the front of the buffer; every
/// failure of this probe is the retry signal.
pub fn parse_frame_length(input: &[u8]) -> (r: Result<usize, RespError>)
    ensures
        match r {
            Result::Ok(n) => spec_v2_probe(input@) == Option::Some(n as nat) && 1 <= n
                <= input@.len(),
            Result::Err(e) => e == RespError::NotComplete && spec_v2_probe(input@) == Option::<
                nat,
            >::None,
        },
{
    proof {
        assert(input@.skip(0) =~= input@);
    }
    probe_at(input, 0)
}

/// The one-pass parse of this strategy, on a slice already known (by the
/// probe) to hold a whole frame: no completeness signalling, every
/// failure one kind.  A map's declared count is read as a count of
/// frames, two per entry, matching the probe; an odd count is malformed,
/// and the set frame is unknown here.
pub open spec fn spec_v2_parse(b: Seq<u8>) -> Option<(FrameView, nat)>
    decreases b.len(), 0int, 0int,
{
    if b.len() == 0 {
        Option::None
    } else if b[0] == 43 || b[0] == 45 {
        match spec_decode_text(b, b[0]) {
            Result::Ok((s, n)) => Option::Some(
                (
                    if b[0] == 43 {
                        FrameView::Simple(s)
                    } else {
                        FrameView::Error(s)
                    },
                    n,
                ),
            ),
            Result::Err(_) => Option::None,
        }
    } else if b[0] == 58 {
        match spec_decode_integer(b) {
            Result::Ok((v, n)) => Option::Some((FrameView::Integer(v), n)),
            Result::Err(_) => Option::None,
        }
    } else if b[0] == 44 {
        match spec_decode_double(b) {
            Result::Ok((t, n)) => Option::Some((FrameView::Double(t), n)),
            Result::Err(_) => Option::None,
        }
    } else if b[0] == 35 {
        match spec_decode_bool(b) {
            Result::Ok((v, n)) => Option::Some((FrameView::Boolean(v), n)),
            Result::Err(_) => Option::None,
        }
    } else if b[0] == 95 {
        match spec_fixed(b, null_wire()) {
            Result::Ok(n) => Option::Some((FrameView::Null, n as nat)),
            Result::Err(_) => Option::None,
        }
    } else if b[0] == 36 {
        match spec_fixed(b, null_bulk_wire()) {
            Result::Ok(n) => Option::Some((FrameView::Bulk(Option::None), n as nat)),
            Result::Err(_) => match spec_parse_length(b, seq![36u8]) {
                Result::Ok((end, len)) => if end + 2 + len + 2 <= b.len() && b[end + 2 + len as int]
                    == CR && b[end + 2 + len as int + 1] == LF {
                    Option::Some(
                        (
                            FrameView::Bulk(Option::Some(b.subrange(end + 2, end + 2 + len))),
                            (end + 2 + len + 2) as nat,
                        ),
                    )
                } else {
                    Option::None
                },
                Result::Err(_) => Option::None,
            },
        }
    } else if b[0] == 42 {
        match spec_fixed(b, null_array_wire()) {
            Result::Ok(n) => Option::Some((FrameView::NullArray, n as nat)),
            Result::Err(_) => match spec_parse_length(b, seq![42u8]) {
                Result::Ok((end, len)) => if end < 1 || end + 2 > b.len() {
                    Option::None
                } else {
                    match spec_v2_parse_n(b.skip(end + 2), len) {
                        Option::Some((es, m)) => Option::Some(
                            (FrameView::Array(es), (end + 2 + m) as nat),
                        ),
                        Option::None => Option::None,
                    }
                },
                Result::Err(_) => Option::None,
            },
        }
    } else if b[0] == 37 {
        match spec_parse_length(b, seq![37u8]) {
            Result::Ok((end, len)) => if end < 1 || end + 2 > b.len() || len % 2 == 1 {
                Option::None
            } else {
                match spec_v2_parse_entries(b.skip(end + 2), len / 2, Seq::empty()) {
                    Option::Some((entries, m)) => Option::Some(
                        (FrameView::Mapping(entries), (end + 2 + m) as nat),
                    ),
                    Option::None => Option::None,
                }
            },
            Result::Err(_) => Option::None,
        }
    } else {
        Option::None
    }
}

/// Parse `n` frames from the front of `b`, in order.
pub open spec fn spec_v2_parse_n(b: Seq<u8>, n: nat) -> Option<(Seq<FrameView>, nat)>
    decreases b.len(), 1int, n,
{
    if n == 0 {
        Option::Some((Seq::empty(), 0))
    } else {
        match spec_v2_parse(b) {
            Option::None => Option::None,
            Option::Some((f, k)) => if k == 0 || k > b.len() {
                Option::None
            } else {
                match spec_v2_parse_n(b.skip(k as int), (n - 1) as nat) {
                    Option::Some((fs, m)) => Option::Some((seq![f] + fs, (k + m) as nat)),
                    Option::None => Option::None,
                }
            },
        }
    }
}

/// Parse `n` map entries: a simple-string key line, then a value frame,
/// folded into `acc` with map semantics.
pub open spec fn spec_v2_parse_entries(
    b: Seq<u8>,
    n: nat,
    acc: Seq<(Seq<char>, FrameView)>,
) -> Option<(Seq<(Seq<char>, FrameView)>, nat)>
    decreases b.len(), 1int, n,
{
    if n == 0 {
        Option::Some((acc, 0))
    } else {
        match spec_decode_text(b, 43u8) {
            Result::Err(_) => Option::None,
            Result::Ok((key, kn)) => if kn == 0 || kn > b.len() {
                Option::None
            } else {
                match spec_v2_parse(b.skip(kn as int)) {
                    Option::None => Option::None,
                    Option::Some((v, vn)) => if kn + vn > b.len() {
                        Option::None
                    } else {
                        match spec_v2_parse_entries(
                            b.skip(kn as int + vn as int),
                            (n - 1) as nat,
                            upsert(acc, key, v),
                        ) {
                            Option::Some((entries, m)) => Option::Some(
                                (entries, (kn + vn + m) as nat),
                            ),
                            Option::None => Option::None,
                        }
                    },
                }
            },
        }
    }
}

/// The parse error of this strategy: one kind for every failure.
fn invalid_frame() -> (r: RespError)
    ensures
        r matches RespError::InvalidFrame(_),
{
    RespError::InvalidFrame("the slice does not parse as one frame".to_owned())
}

/// Parse exactly one frame from the front of a slice, returning it with
/// the bytes it occupies; the slice is not modified and every failure is
/// one error kind.
#[verifier::rlimit(60)]
pub fn parse_frame(input: &[u8]) -> (r: Result<(RespFrame, usize), RespError>)
    ensures
        match r {
            Result::Ok(p) => spec_v2_parse(input@) == Option::Some(
                (frame_view(p.0), p.1 as nat),
            ) && 1 <= p.1 <= input@.len(),
            Result::Err(e) => spec_v2_parse(input@) == Option::<(FrameView, nat)>::None && e
                matches RespError::InvalidFrame(_),
        },
    decreases input@.len(),
{
    if input.len() == 0 {
        return Result::Err(invalid_frame());
    }
    let p = byte_at(input, 0);
    if p == 43 {
        match crate::resp::decode_text_at(input, 43) {
            Result::Ok(q) => Result::Ok((RespFrame::SimpleString(SimpleString::new(q.0)), q.1)),
            Result::Err(_) => Result::Err(invalid_frame()),
        }
    } else if p == 45 {
        match crate::resp::decode_text_at(input, 45) {
            Result::Ok(q) => Result::Ok((RespFrame::Error(SimpleError::new(q.0)), q.1)),
            Result::Err(_) => Result::Err(invalid_frame()),
        }
    } else if p == 58 {
        match decode_integer_at(input) {
            Result::Ok(q) => Result::Ok((RespFrame::Integer(q.0), q.1)),
            Result::Err(_) => Result::Err(invalid_frame()),
        }
    } else if p == 44 {
        match decode_double_at(input) {
            Result::Ok(q) => Result::Ok((RespFrame::Double(q.0), q.1)),
            Result::Err(_) => Result::Err(invalid_frame()),
        }
    } else if p == 35 {
        match decode_bool_at(input) {
            Result::Ok(q) => Result::Ok((RespFrame::Boolean(q.0), q.1)),
            Result::Err(_) => Result::Err(invalid_frame()),
        }
    } else if p == 95 {
        let w = crate::resp::wire_null();
        match crate::resp::fixed_at(input, w.as_slice()) {
            Result::Ok(n) => Result::Ok((RespFrame::Null(RespNull), n)),
            Result::Err(_) => Result::Err(invalid_frame()),
        }
    } else if p == 36 {
        let w = crate::resp::wire_null_bulk();
        match crate::resp::fixed_at(input, w.as_slice()) {
            Result::Ok(n) => {
                return Result::Ok((RespFrame::BulkString(BulkString::new_null()), n));
            },
            Result::Err(_) => {},
        }
        let (end, len) = match crate::resp::parse_length1(input, 36) {
            Result::Ok(q) => q,
            Result::Err(_) => {
                return Result::Err(invalid_frame());
            },
        };
        proof {
            crate::wire::lemma_find_crlf_at_some(input@, 0, end as int);
        }
        let blen = input.len();
        assert(end + 2 <= blen);
        let avail = blen - end - 2;
        if avail < 2 || avail - 2 < len {
            return Result::Err(invalid_frame());
        }
        if byte_at(input, end + 2 + len) != CR || byte_at(input, end + 2 + len + 1) != LF {
            return Result::Err(invalid_frame());
        }
        let data = vstd::slice::slice_subrange(input, end + 2, end + 2 + len);
        Result::Ok(
            (
                RespFrame::BulkString(BulkString::new(vstd::slice::slice_to_vec(data))),
                end + 2 + len + 2,
            ),
        )
    } else if p == 42 {
        let w = crate::resp::wire_null_array();
        match crate::resp::fixed_at(input, w.as_slice()) {
            Result::Ok(n) => {
                return Result::Ok((RespFrame::NullArray(crate::resp::array::RespNullArray), n));
            },
            Result::Err(_) => {},
        }
        let (end, len) = match crate::resp::parse_length1(input, 42) {
            Result::Ok(q) => q,
            Result::Err(_) => {
                return Result::Err(invalid_frame());
            },
        };
        proof {
            crate::wire::lemma_find_crlf_at_some(input@, 0, end as int);
        }
        let blen = input.len();
        assert(1 <= end && end + 2 <= blen);
        let ghost orig = input@.skip(end as int + 2);
        let mut elems: Vec<RespFrame> = Vec::new();
        let mut off: usize = end + 2;
        let mut remaining: usize = len;
        loop
            invariant
                input@.len() > 0,
                input@[0] == 42,
                spec_fixed(input@, null_array_wire()) matches Result::Err(_),
                spec_parse_length(input@, seq![42u8]) == Result::<(int, nat), DecodeErr>::Ok(
                    (end as int, len as nat),
                ),
                1 <= end,
                end + 2 <= off <= blen == input@.len(),
                orig == input@.skip(end as int + 2),
                remaining <= len,
                match spec_v2_parse_n(input@.skip(off as int), remaining as nat) {
                    Option::Some(q) => spec_v2_parse_n(orig, len as nat) == Option::Some(
                        (
                            crate::resp::frame::frames_view(elems@) + q.0,
                            ((off - end - 2) + q.1) as nat,
                        ),
                    ),
                    Option::None => spec_v2_parse_n(orig, len as nat) == Option::<
                        (Seq<FrameView>, nat),
                    >::None,
                },
            ensures
                end + 2 <= off <= blen,
                spec_v2_parse_n(orig, len as nat) == Option::Some(
                    (crate::resp::frame::frames_view(elems@), (off - end - 2) as nat),
                ),
            decreases remaining,
        {
            if remaining == 0 {
                proof {
                    assert(spec_v2_parse_n(input@.skip(off as int), 0) == Option::Some(
                        (Seq::<FrameView>::empty(), 0nat),
                    ));
                    assert(crate::resp::frame::frames_view(elems@) + Seq::<FrameView>::empty()
                        =~= crate::resp::frame::frames_view(elems@));
                }
                break ;
            }
            let cur = vstd::slice::slice_subrange(input, off, blen);
            proof {
                assert(cur@ =~= input@.skip(off as int));
            }
            match parse_frame(cur) {
                Result::Ok((f, n)) => {
                    let ghost fs0 = crate::resp::frame::frames_view(elems@);
                    let ghost fv = frame_view(f);
                    proof {
                        crate::resp::frame::lemma_frames_view_index(elems@);
                    }
                    elems.push(f);
                    proof {
                        crate::resp::frame::lemma_frames_view_index(elems@);
                        assert(crate::resp::frame::frames_view(elems@) =~= fs0 + seq![fv]);
                    }
                    let ghost off0 = off;
                    off += n;
                    remaining -= 1;
                    proof {
                        assert(input@.skip(off0 as int).skip(n as int) =~= input@.skip(
                            off as int,
                        ));
                        let tail = spec_v2_parse_n(input@.skip(off as int), remaining as nat);
                        match tail {
                            Option::Some(q) => {
                                assert((fs0 + (seq![fv] + q.0)) =~= ((fs0 + seq![fv]) + q.0));
                            },
                            Option::None => {},
                        }
                    }
                },
                Result::Err(_) => {
                    return Result::Err(invalid_frame());
                },
            }
        }
        Result::Ok((RespFrame::Array(crate::resp::array::RespArray(elems)), off))
    } else if p == 37 {
        let (end, len) = match crate::resp::parse_length1(input, 37) {
            Result::Ok(q) => q,
            Result::Err(_) => {
                return Result::Err(invalid_frame());
            },
        };
        proof {
            crate::wire::lemma_find_crlf_at_some(input@, 0, end as int);
        }
        let blen = input.len();
        assert(1 <= end && end + 2 <= blen);
        if len % 2 == 1 {
            return Result::Err(invalid_frame());
        }
        let ghost orig = input@.skip(end as int + 2);
        let mut map = RespMap::new();
        let mut off: usize = end + 2;
        let mut remaining: usize = len / 2;
        loop
            invariant
                input@.len() > 0,
                input@[0] == 37,
                spec_parse_length(input@, seq![37u8]) == Result::<(int, nat), DecodeErr>::Ok(
                    (end as int, len as nat),
                ),
                1 <= end,
                len % 2 == 0,
                end + 2 <= off <= blen == input@.len(),
                orig == input@.skip(end as int + 2),
                remaining <= len / 2,
                match spec_v2_parse_entries(input@.skip(off as int), remaining as nat, map@) {
                    Option::Some(q) => spec_v2_parse_entries(orig, (len / 2) as nat, Seq::empty())
                        == Option::Some((q.0, ((off - end - 2) + q.1) as nat)),
                    Option::None => spec_v2_parse_entries(orig, (len / 2) as nat, Seq::empty())
                        == Option::<(Seq<(Seq<char>, FrameView)>, nat)>::None,
                },
            ensures
                end + 2 <= off <= blen,
                spec_v2_parse_entries(orig, (len / 2) as nat, Seq::empty()) == Option::Some(
                    (map@, (off - end - 2) as nat),
                ),
            decreases remaining,
        {
            if remaining == 0 {
                proof {
                    assert(spec_v2_parse_entries(input@.skip(off as int), 0, map@)
                        == Option::Some((map@, 0nat)));
                }
                break ;
            }
            let cur = vstd::slice::slice_subrange(input, off, blen);
            proof {
                assert(cur@ =~= input@.skip(off as int));
            }
            let (key, kn) = match crate::resp::decode_text_at(cur, 43) {
                Result::Ok(q) => q,
                Result::Err(_) => {
                    return Result::Err(invalid_frame());
                },
            };
            let cur2 = vstd::slice::slice_subrange(input, off + kn, blen);
            proof {
                assert(cur2@ =~= cur@.skip(kn as int));
            }
            let (value, vn) = match parse_frame(cur2) {
                Result::Ok(q) => q,
                Result::Err(_) => {
                    return Result::Err(invalid_frame());
                },
            };
            proof {
                assert(input@.skip(off as int).skip(kn as int + vn as int) =~= input@.skip(
                    off as int + kn as int + vn as int,
                ));
            }
            map.insert(key, value);
            off += kn + vn;
            remaining -= 1;
        }
        Result::Ok((RespFrame::Mapping(map), off))
    } else {
        Result::Err(invalid_frame())
    }
}

/// Decode one frame, length first: probe the total length, split exactly
/// that many bytes off the buffer, and parse them with this strategy's
/// one-pass parser.  When the probe cannot judge the buffer complete, it
/// is left unchanged; a probed slice that does not parse is consumed and
/// reported as an invalid frame.
pub fn decode(buf: &mut bytes::BytesMut) -> (r: Result<RespFrame, RespError>)
    ensures
        ({
            let b0 = crate::bytebuf::bytes_view(*old(buf));
            let b1 = crate::bytebuf::bytes_view(*final(buf));
            match spec_v2_probe(b0) {
                Option::None => b1 == b0 && (r matches Result::Err(e) && e
                    == RespError::NotComplete),
                Option::Some(l) => b1 == b0.skip(l as int) && (match r {
                    Result::Ok(f) => spec_v2_parse(b0.take(l as int)) matches Option::Some(q)
                        && frame_view(f) == q.0,
                    Result::Err(e) => (e matches RespError::InvalidFrame(_)) && spec_v2_parse(
                        b0.take(l as int),
                    ) == Option::<(FrameView, nat)>::None,
                }),
            }
        }),
{
    let b = crate::bytebuf::buf_bytes(buf);
    let len = match parse_frame_length(b) {
        Result::Ok(l) => l,
        Result::Err(_) => {
            return Result::Err(RespError::NotComplete);
        },
    };
    let data = vstd::slice::slice_subrange(b, 0, len);
    proof {
        assert(data@ =~= crate::bytebuf::bytes_view(*old(buf)).take(len as int));
    }
    let parsed = parse_frame(data);
    crate::bytebuf::buf_advance(buf, len);
    match parsed {
        Result::Ok((f, _)) => Result::Ok(f),
        Result::Err(_) => Result::Err(invalid_frame()),
    }
}

} // verus!
