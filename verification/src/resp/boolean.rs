//! The `#` boolean frame.
use vstd::prelude::*;
use crate::bytebuf::{buf_advance, buf_bytes, bytes_view};
use crate::resp::{err_view, fixed_at, wire_bool_false, wire_bool_true, RespEncode, RespError};
use crate::wire::{encode_frame, spec_decode_bool, DecodeErr, FrameView};

verus! {

/// Decode a boolean frame (slice form): `#t\r\n` or `#f\r\n`; a strict
/// prefix of the `t` form is reported incomplete before the `f` form is
/// tried.
pub(crate) fn decode_bool_at(b: &[u8]) -> (r: Result<(bool, usize), RespError>)
    ensures
        match r {
            Result::Ok(pair) => spec_decode_bool(b@) matches Result::Ok((v, n)) && pair.0 == v
                && pair.1 == n && 1 <= n <= b@.len(),
            Result::Err(e) => spec_decode_bool(b@) == Result::<(bool, nat), DecodeErr>::Err(
                err_view(e),
            ),
        },
{
    let wt = wire_bool_true();
    match fixed_at(b, wt.as_slice()) {
        Result::Ok(n) => Result::Ok((true, n)),
        Result::Err(RespError::NotComplete) => Result::Err(RespError::NotComplete),
        Result::Err(_) => {
            let wf = wire_bool_false();
            match fixed_at(b, wf.as_slice()) {
                Result::Ok(n) => Result::Ok((false, n)),
                Result::Err(e) => Result::Err(e),
            }
        },
    }
}

/// Decode one boolean frame from the front of the buffer, consuming its
/// four bytes; on any failure the buffer is unchanged.
pub fn decode_bool(buf: &mut bytes::BytesMut) -> (r: Result<bool, RespError>)
    ensures
        match r {
            Result::Ok(v) => spec_decode_bool(bytes_view(*old(buf))) matches Result::Ok((sv, n))
                && v == sv && bytes_view(*final(buf)) == bytes_view(*old(buf)).skip(n as int),
            Result::Err(e) => bytes_view(*final(buf)) == bytes_view(*old(buf)) && spec_decode_bool(
                bytes_view(*old(buf)),
            ) == Result::<(bool, nat), DecodeErr>::Err(err_view(e)),
        },
{
    let b = buf_bytes(buf);
    let (v, n) = match decode_bool_at(b) {
        Result::Ok(p) => p,
        Result::Err(e) => {
            return Result::Err(e);
        },
    };
    buf_advance(buf, n);
    Result::Ok(v)
}

/// A boolean frame always occupies four bytes.
pub fn bool_expect_length(buf: &[u8]) -> (r: Result<usize, RespError>)
    ensures
        r == Result::<usize, RespError>::Ok(4usize),
{
    Result::Ok(4)
}

impl RespEncode for bool {
    open spec fn wire(&self) -> Seq<u8> {
        encode_frame(FrameView::Boolean(*self))
    }

    fn encode(self) -> (r: Vec<u8>) {
        if self {
            wire_bool_true()
        } else {
            wire_bool_false()
        }
    }
}

} // verus!
