//! The `*` array frame and its `*-1` null sentinel.
use vstd::prelude::*;
use crate::bytebuf::{buf_advance, buf_bytes, bytes_view};
use crate::resp::frame::{frames_view, RespFrame};
use crate::resp::{err_view, fixed_at, wire_null_array, RespEncode, RespError};
use crate::wire::{encode_frame, null_array_wire, spec_decode, spec_fixed, DecodeErr, FrameView};

verus! {

/// An array frame: an ordered sequence of frames.
#[derive(Debug, PartialEq)]
pub struct RespArray(pub Vec<RespFrame>);

/// The null array frame, written `*-1`.
#[derive(Debug, Clone, PartialEq, Eq)]
pub struct RespNullArray;

impl View for RespArray {
    type V = Seq<FrameView>;

    open spec fn view(&self) -> Seq<FrameView> {
        frames_view(self.0@)
    }
}

impl View for RespNullArray {
    type V = ();

    open spec fn view(&self) -> () {
        ()
    }
}

impl RespArray {
    pub fn new(s: Vec<RespFrame>) -> (r: RespArray)
        ensures
            r@ == frames_view(s@),
    {
        RespArray(s)
    }

    /// The elements of the array.
    pub fn elements(&self) -> (r: &Vec<RespFrame>)
        ensures
            self@ == frames_view(r@),
    {
        &self.0
    }

    /// Decode one array frame from the front of the buffer, consuming
    /// exactly its bytes; any other complete frame there, the null array
    /// included, is a type mismatch.  On failure the buffer is unchanged.
    pub fn decode(buf: &mut bytes::BytesMut) -> (r: Result<RespArray, RespError>)
        ensures
            match r {
                Result::Ok(f) => spec_decode(bytes_view(*old(buf))) matches Result::Ok((fv, n))
                    && fv == FrameView::Array(f@) && bytes_view(*final(buf)) == bytes_view(
                    *old(buf),
                ).skip(n as int),
                Result::Err(e) => bytes_view(*final(buf)) == bytes_view(*old(buf)) && match
                    spec_decode(bytes_view(*old(buf))) {
                    Result::Ok((fv, _)) => !(fv matches FrameView::Array(_)) && err_view(e)
                        == DecodeErr::BadType,
                    Result::Err(k) => err_view(e) == k,
                },
            },
    {
        let b = buf_bytes(buf);
        let (f, n) = match RespFrame::decode_at(b) {
            Result::Ok(p) => p,
            Result::Err(e) => {
                return Result::Err(e);
            },
        };
        match f {
            RespFrame::Array(a) => {
                buf_advance(buf, n);
                Result::Ok(a)
            },
            _ => Result::Err(RespError::InvalidFrameType("expected an array frame".to_owned())),
        }
    }

    /// The total byte length of the array frame at the front of the
    /// buffer, by the completeness probe.
    pub fn expect_length(buf: &[u8]) -> (r: Result<usize, RespError>)
        ensures
            match r {
                Result::Ok(n) => crate::wire::spec_expect_length(buf@) == Result::<
                    nat,
                    DecodeErr,
                >::Ok(n as nat) && buf@.len() > 0 && (buf@[0] == 42 || buf@[0] == 126),
                Result::Err(e) => buf@.len() == 0 || !(buf@[0] == 42 || buf@[0] == 126)
                    || crate::wire::spec_expect_length(buf@) == Result::<nat, DecodeErr>::Err(
                    err_view(e),
                ),
            },
    {
        if buf.len() == 0 || !(byte_at_is(buf, 42) || byte_at_is(buf, 126)) {
            return Result::Err(RespError::InvalidFrameType("expected an array frame".to_owned()));
        }
        RespFrame::expect_length(buf)
    }
}

/// Whether the first byte of `b` is `p`.
fn byte_at_is(b: &[u8], p: u8) -> (r: bool)
    requires
        b@.len() > 0,
    ensures
        r == (b@[0] == p),
{
    crate::resp::byte_at(b, 0) == p
}

impl RespNullArray {
    /// Decode the `*-1` null array frame from the front of the buffer; on
    /// any failure the buffer is unchanged.
    pub fn decode(buf: &mut bytes::BytesMut) -> (r: Result<RespNullArray, RespError>)
        ensures
            match r {
                Result::Ok(f) => spec_fixed(bytes_view(*old(buf)), null_array_wire())
                    matches Result::Ok(n) && bytes_view(*final(buf)) == bytes_view(
                    *old(buf),
                ).skip(n),
                Result::Err(e) => bytes_view(*final(buf)) == bytes_view(*old(buf)) && spec_fixed(
                    bytes_view(*old(buf)),
                    null_array_wire(),
                ) == Result::<int, DecodeErr>::Err(err_view(e)),
            },
    {
        let b = buf_bytes(buf);
        let w = wire_null_array();
        let n = match fixed_at(b, w.as_slice()) {
            Result::Ok(n) => n,
            Result::Err(e) => {
                return Result::Err(e);
            },
        };
        buf_advance(buf, n);
        Result::Ok(RespNullArray)
    }

    /// The null array frame always occupies five bytes.
    pub fn expect_length(buf: &[u8]) -> (r: Result<usize, RespError>)
        ensures
            r == Result::<usize, RespError>::Ok(5usize),
    {
        Result::Ok(5)
    }
}

impl RespEncode for RespNullArray {
    open spec fn wire(&self) -> Seq<u8> {
        encode_frame(FrameView::NullArray)
    }

    fn encode(self) -> (r: Vec<u8>) {
        wire_null_array()
    }
}

} // verus!
