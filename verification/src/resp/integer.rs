//! The `:` integer frame.
use vstd::prelude::*;
use crate::bytebuf::{buf_advance, buf_bytes, bytes_view};
use crate::resp::{err_view, line_end1, parse_i64_bytes, push_decimal, RespEncode, RespError};
use crate::wire::{encode_frame, spec_decode_integer, DecodeErr, FrameView, CR, LF};
use vstd::slice::slice_subrange;

verus! {

/// Decode an integer frame (slice form): one `:` line holding a signed
/// 64-bit decimal.  Returns the value and the bytes used.
pub(crate) fn decode_integer_at(b: &[u8]) -> (r: Result<(i64, usize), RespError>)
    ensures
        match r {
            Result::Ok(pair) => spec_decode_integer(b@) matches Result::Ok((v, n)) && pair.0
                == v && pair.1 == n && 1 <= n <= b@.len(),
            Result::Err(e) => spec_decode_integer(b@) == Result::<(int, nat), DecodeErr>::Err(
                err_view(e),
            ),
        },
{
    let end = match line_end1(b, 58) {
        Result::Ok(end) => end,
        Result::Err(e) => {
            return Result::Err(e);
        },
    };
    proof {
        crate::wire::lemma_find_crlf_at_some(b@, 0, end as int);
    }
    let blen = b.len();
    assert(end + 2 <= blen);
    let payload = slice_subrange(b, 1, end);
    match parse_i64_bytes(payload) {
        Result::Ok(v) => Result::Ok((v, end + 2)),
        Result::Err(e) => Result::Err(e),
    }
}

/// Decode one integer frame from the front of the buffer, consuming
/// exactly its bytes; on any failure the buffer is unchanged.
pub fn decode_integer(buf: &mut bytes::BytesMut) -> (r: Result<i64, RespError>)
    ensures
        match r {
            Result::Ok(v) => spec_decode_integer(bytes_view(*old(buf))) matches Result::Ok(
                (sv, n),
            ) && v == sv && bytes_view(*final(buf)) == bytes_view(*old(buf)).skip(n as int),
            Result::Err(e) => bytes_view(*final(buf)) == bytes_view(*old(buf))
                && spec_decode_integer(bytes_view(*old(buf))) == Result::<
                (int, nat),
                DecodeErr,
            >::Err(err_view(e)),
        },
{
    let b = buf_bytes(buf);
    let (v, n) = match decode_integer_at(b) {
        Result::Ok(p) => p,
        Result::Err(e) => {
            return Result::Err(e);
        },
    };
    buf_advance(buf, n);
    Result::Ok(v)
}

impl RespEncode for i64 {
    open spec fn wire(&self) -> Seq<u8> {
        encode_frame(FrameView::Integer(*self as int))
    }

    fn encode(self) -> (r: Vec<u8>) {
        let ghost v = self as int;
        let mut out: Vec<u8> = Vec::new();
        out.push(58);
        if self >= 0 {
            out.push(43);
            push_decimal(&mut out, self as u64);
        } else {
            out.push(45);
            let mag: u64 = if self == i64::MIN {
                9223372036854775808
            } else {
                (-self) as u64
            };
            assert(mag as int == -v);
            push_decimal(&mut out, mag);
        }
        out.push(CR);
        out.push(LF);
        proof {
            assert(out@ =~= crate::wire::line(58u8, crate::wire::signed_rep(v)));
        }
        out
    }
}

} // verus!
