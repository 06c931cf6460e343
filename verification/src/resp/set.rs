//! The `~` set frame: semantically unordered, but carried and round-
//! tripped in sequence order.
use vstd::prelude::*;
use crate::bytebuf::{buf_advance, buf_bytes, bytes_view};
use crate::resp::frame::{frames_view, RespFrame};
use crate::resp::{err_view, RespEncode, RespError};
use crate::wire::{encode_frame, spec_decode, DecodeErr, FrameView};

verus! {

/// A set frame: a sequence of frames under the `~` prefix.
#[derive(Debug, PartialEq)]
pub struct RespSet(pub Vec<RespFrame>);

impl View for RespSet {
    type V = Seq<FrameView>;

    open spec fn view(&self) -> Seq<FrameView> {
        frames_view(self.0@)
    }
}

impl RespSet {
    pub fn new(s: Vec<RespFrame>) -> (r: RespSet)
        ensures
            r@ == frames_view(s@),
    {
        RespSet(s)
    }

    /// The elements of the set, in carried order.
    pub fn elements(&self) -> (r: &Vec<RespFrame>)
        ensures
            self@ == frames_view(r@),
    {
        &self.0
    }

    /// Decode one set frame from the front of the buffer, consuming
    /// exactly its bytes; any other complete frame there is a type
    /// mismatch.  On failure the buffer is unchanged.
    pub fn decode(buf: &mut bytes::BytesMut) -> (r: Result<RespSet, RespError>)
        ensures
            match r {
                Result::Ok(f) => spec_decode(bytes_view(*old(buf))) matches Result::Ok((fv, n))
                    && fv == FrameView::Collection(f@) && bytes_view(*final(buf)) == bytes_view(
                    *old(buf),
                ).skip(n as int),
                Result::Err(e) => bytes_view(*final(buf)) == bytes_view(*old(buf)) && match
                    spec_decode(bytes_view(*old(buf))) {
                    Result::Ok((fv, _)) => !(fv matches FrameView::Collection(_)) && err_view(e)
                        == DecodeErr::BadType,
                    Result::Err(k) => err_view(e) == k,
                },
            },
    {
        let b = buf_bytes(buf);
        let (f, n) = match RespFrame::decode_at(b) {
            Result::Ok(p) => p,
            Result::Err(e) => {
                return Result::Err(e);
            },
        };
        match f {
            RespFrame::Collection(s) => {
                buf_advance(buf, n);
                Result::Ok(s)
            },
            _ => Result::Err(RespError::InvalidFrameType("expected a set frame".to_owned())),
        }
    }
}

} // verus!
