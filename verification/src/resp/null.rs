//! The `_` null frame.
use vstd::prelude::*;
use crate::bytebuf::{buf_advance, buf_bytes, bytes_view};
use crate::resp::{err_view, fixed_at, wire_null, RespEncode, RespError};
use crate::wire::{encode_frame, null_wire, spec_fixed, DecodeErr, FrameView};

verus! {

/// The null frame, written `_` with no payload.
#[derive(Debug, Clone, PartialEq, Eq)]
pub struct RespNull;

impl View for RespNull {
    type V = ();

    open spec fn view(&self) -> () {
        ()
    }
}

impl RespNull {
    /// Decode the null frame from the front of the buffer, consuming its
    /// three bytes; on any failure the buffer is unchanged.
    pub fn decode(buf: &mut bytes::BytesMut) -> (r: Result<RespNull, RespError>)
        ensures
            match r {
                Result::Ok(f) => spec_fixed(bytes_view(*old(buf)), null_wire()) matches Result::Ok(
                    n,
                ) && bytes_view(*final(buf)) == bytes_view(*old(buf)).skip(n),
                Result::Err(e) => bytes_view(*final(buf)) == bytes_view(*old(buf)) && spec_fixed(
                    bytes_view(*old(buf)),
                    null_wire(),
                ) == Result::<int, DecodeErr>::Err(err_view(e)),
            },
    {
        let b = buf_bytes(buf);
        let w = wire_null();
        let n = match fixed_at(b, w.as_slice()) {
            Result::Ok(n) => n,
            Result::Err(e) => {
                return Result::Err(e);
            },
        };
        buf_advance(buf, n);
        Result::Ok(RespNull)
    }

    /// The null frame always occupies three bytes.
    pub fn expect_length(buf: &[u8]) -> (r: Result<usize, RespError>)
        ensures
            r == Result::<usize, RespError>::Ok(3usize),
    {
        Result::Ok(3)
    }
}

impl RespEncode for RespNull {
    open spec fn wire(&self) -> Seq<u8> {
        encode_frame(FrameView::Null)
    }

    fn encode(self) -> (r: Vec<u8>) {
        let w = wire_null();
        w
    }
}

} // verus!
