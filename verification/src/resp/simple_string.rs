//! The `+` simple string frame.
use vstd::prelude::*;
use crate::bytebuf::{buf_advance, buf_bytes, bytes_view};
use crate::resp::{decode_text_at, err_view, line_end1, RespEncode, RespError};
use crate::wire::{encode_frame, line, spec_decode_text, spec_simple_line, DecodeErr, FrameView,
    CR, LF};
use vstd::utf8::encode_utf8;

verus! {

/// A simple string frame: one line of text under the `+` prefix.
#[derive(Debug, Clone, PartialEq, Eq)]
pub struct SimpleString(pub(crate) String);

impl View for SimpleString {
    type V = Seq<char>;

    closed spec fn view(&self) -> Seq<char> {
        self.0@
    }
}

impl SimpleString {
    pub fn new(s: String) -> (r: SimpleString)
        ensures
            r@ == s@,
    {
        SimpleString(s)
    }

    /// The text of the frame.
    pub fn as_str(&self) -> (r: &str)
        ensures
            r@ == self@,
    {
        self.0.as_str()
    }

    /// Decode one simple string frame from the front of the buffer,
    /// consuming exactly its bytes; on any failure the buffer is unchanged.
    pub fn decode(buf: &mut bytes::BytesMut) -> (r: Result<SimpleString, RespError>)
        ensures
            match r {
                Result::Ok(f) => spec_decode_text(bytes_view(*old(buf)), 43u8) matches Result::Ok(
                    (s, n),
                ) && f@ == s && bytes_view(*final(buf)) == bytes_view(*old(buf)).skip(n as int),
                Result::Err(e) => bytes_view(*final(buf)) == bytes_view(*old(buf))
                    && spec_decode_text(bytes_view(*old(buf)), 43u8) == Result::<
                    (Seq<char>, nat),
                    DecodeErr,
                >::Err(err_view(e)),
            },
    {
        let b = buf_bytes(buf);
        let (s, n) = match decode_text_at(b, 43) {
            Result::Ok(p) => p,
            Result::Err(e) => {
                return Result::Err(e);
            },
        };
        buf_advance(buf, n);
        Result::Ok(SimpleString(s))
    }

    /// The total byte length of the simple string frame at the front of
    /// the buffer: its line through the CRLF.
    pub fn expect_length(buf: &[u8]) -> (r: Result<usize, RespError>)
        ensures
            match r {
                Result::Ok(n) => spec_simple_line(buf@, seq![43u8]) matches Result::Ok(end) && n
                    == end + 2,
                Result::Err(e) => spec_simple_line(buf@, seq![43u8]) == Result::<
                    int,
                    DecodeErr,
                >::Err(err_view(e)),
            },
    {
        match line_end1(buf, 43) {
            Result::Ok(end) => {
                proof {
                    crate::wire::lemma_find_crlf_at_some(buf@, 0, end as int);
                }
                let blen = buf.len();
                assert(end + 2 <= blen);
                Result::Ok(end + 2)
            },
            Result::Err(e) => Result::Err(e),
        }
    }
}

impl RespEncode for SimpleString {
    open spec fn wire(&self) -> Seq<u8> {
        encode_frame(FrameView::Simple(self@))
    }

    fn encode(self) -> (r: Vec<u8>) {
        let ghost v = self@;
        let mut out: Vec<u8> = Vec::new();
        out.push(43);
        out.extend_from_slice(self.0.as_str().as_bytes());
        out.push(CR);
        out.push(LF);
        proof {
            assert(out@ =~= line(43u8, encode_utf8(v)));
        }
        out
    }
}

} // verus!
