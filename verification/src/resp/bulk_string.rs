//! The `$` bulk string frame: a length-prefixed byte string that may also
//! be the `$-1` null sentinel, distinct from an empty string.
use vstd::prelude::*;
use crate::bytebuf::{buf_advance, buf_bytes, bytes_view};
use crate::resp::{err_view, fixed_at, parse_length1, push_decimal, wire_null_bulk, RespEncode,
    RespError};
use crate::wire::{crlf, dec_rep, encode_frame, null_bulk_wire, spec_decode_bulk,
    spec_expect_length, spec_fixed, spec_parse_length, DecodeErr, FrameView, CR, LF};
use vstd::slice::{slice_subrange, slice_to_vec};

verus! {

/// A bulk string frame, holding bytes or the null sentinel.
#[derive(Debug, Clone, PartialEq, Eq)]
pub struct BulkString(pub(crate) Option<Vec<u8>>);

impl View for BulkString {
    type V = Option<Seq<u8>>;

    closed spec fn view(&self) -> Option<Seq<u8>> {
        match self.0 {
            Option::Some(ref v) => Option::Some(v@),
            Option::None => Option::None,
        }
    }
}

impl BulkString {
    pub fn new(s: Vec<u8>) -> (r: BulkString)
        ensures
            r@ == Option::Some(s@),
    {
        BulkString(Option::Some(s))
    }

    pub fn new_null() -> (r: BulkString)
        ensures
            r@ == Option::<Seq<u8>>::None,
    {
        BulkString(Option::None)
    }

    /// The bytes of the frame by value, where it is not null.
    pub fn into_data(self) -> (r: Option<Vec<u8>>)
        ensures
            match r {
                Option::Some(v) => self@ == Option::Some(v@),
                Option::None => self@ == Option::<Seq<u8>>::None,
            },
    {
        self.0
    }

    /// The bytes of the frame, where it is not null.
    pub fn data(&self) -> (r: &Option<Vec<u8>>)
        ensures
            match r {
                Option::Some(v) => self@ == Option::Some(v@),
                Option::None => self@ == Option::<Seq<u8>>::None,
            },
    {
        &self.0
    }

    /// Decode one bulk string frame from the front of the buffer,
    /// consuming exactly its bytes; on any failure the buffer is
    /// unchanged.
    pub fn decode(buf: &mut bytes::BytesMut) -> (r: Result<BulkString, RespError>)
        ensures
            match r {
                Result::Ok(f) => spec_decode_bulk(bytes_view(*old(buf))) matches Result::Ok(
                    (d, n),
                ) && f@ == d && bytes_view(*final(buf)) == bytes_view(*old(buf)).skip(n as int),
                Result::Err(e) => bytes_view(*final(buf)) == bytes_view(*old(buf))
                    && spec_decode_bulk(bytes_view(*old(buf))) == Result::<
                    (Option<Seq<u8>>, nat),
                    DecodeErr,
                >::Err(err_view(e)),
            },
    {
        let b = buf_bytes(buf);
        let (f, n) = match decode_bulk_at(b) {
            Result::Ok(p) => p,
            Result::Err(e) => {
                return Result::Err(e);
            },
        };
        buf_advance(buf, n);
        Result::Ok(f)
    }

    /// The total byte length of the bulk string frame at the front of the
    /// buffer, from its length field alone; five bytes for the null
    /// sentinel.
    pub fn expect_length(buf: &[u8]) -> (r: Result<usize, RespError>)
        ensures
            match r {
                Result::Ok(n) => bulk_expected(buf@) == Result::<nat, DecodeErr>::Ok(n as nat),
                Result::Err(e) => bulk_expected(buf@) == Result::<nat, DecodeErr>::Err(
                    err_view(e),
                ),
            },
    {
        let w = wire_null_bulk();
        match fixed_at(buf, w.as_slice()) {
            Result::Ok(n) => {
                return Result::Ok(n);
            },
            Result::Err(RespError::NotComplete) => {
                return Result::Err(RespError::NotComplete);
            },
            Result::Err(_) => {},
        }
        match parse_length1(buf, 36) {
            Result::Ok((end, len)) => {
                if len > usize::MAX - 4 || end > usize::MAX - 4 - len {
                    return Result::Err(RespError::NotComplete);
                }
                Result::Ok(end + 2 + len + 2)
            },
            Result::Err(e) => Result::Err(e),
        }
    }
}

/// The probed length of a bulk string frame: five bytes for the null
/// sentinel, else the length line plus the payload and its CRLF, where
/// that fits the machine word.
pub open spec fn bulk_expected(b: Seq<u8>) -> Result<nat, DecodeErr> {
    match spec_fixed(b, null_bulk_wire()) {
        Result::Ok(n) => Result::Ok(n as nat),
        Result::Err(DecodeErr::Incomplete) => Result::Err(DecodeErr::Incomplete),
        Result::Err(_) => match spec_parse_length(b, seq![36u8]) {
            Result::Err(e) => Result::Err(e),
            Result::Ok((end, len)) => if end + 2 + len + 2 > usize::MAX {
                Result::Err(DecodeErr::Incomplete)
            } else {
                Result::Ok((end + 2 + len + 2) as nat)
            },
        },
    }
}

/// Decode a bulk string frame (slice form).
pub(crate) fn decode_bulk_at(b: &[u8]) -> (r: Result<(BulkString, usize), RespError>)
    ensures
        match r {
            Result::Ok(pair) => spec_decode_bulk(b@) matches Result::Ok((d, n)) && pair.0@ == d
                && pair.1 == n && 1 <= n <= b@.len(),
            Result::Err(e) => spec_decode_bulk(b@) == Result::<
                (Option<Seq<u8>>, nat),
                DecodeErr,
            >::Err(err_view(e)),
        },
{
    let w = wire_null_bulk();
    match fixed_at(b, w.as_slice()) {
        Result::Ok(n) => {
            return Result::Ok((BulkString(Option::None), n));
        },
        Result::Err(RespError::NotComplete) => {
            return Result::Err(RespError::NotComplete);
        },
        Result::Err(_) => {},
    }
    let (end, len) = match parse_length1(b, 36) {
        Result::Ok(p) => p,
        Result::Err(e) => {
            return Result::Err(e);
        },
    };
    proof {
        crate::wire::lemma_find_crlf_at_some(b@, 0, end as int);
    }
    let blen = b.len();
    assert(end + 2 <= blen);
    let avail = blen - end - 2;
    if avail < 2 || avail - 2 < len {
        return Result::Err(RespError::NotComplete);
    }
    let data = slice_subrange(b, end + 2, end + 2 + len);
    Result::Ok((BulkString(Option::Some(slice_to_vec(data))), end + 2 + len + 2))
}

impl RespEncode for BulkString {
    open spec fn wire(&self) -> Seq<u8> {
        encode_frame(FrameView::Bulk(self@))
    }

    fn encode(self) -> (r: Vec<u8>) {
        match self.0 {
            Option::None => wire_null_bulk(),
            Option::Some(data) => {
                let ghost dv = data@;
                let mut out: Vec<u8> = Vec::new();
                out.push(36);
                push_decimal(&mut out, data.len() as u64);
                out.push(CR);
                out.push(LF);
                out.extend_from_slice(data.as_slice());
                out.push(CR);
                out.push(LF);
                proof {
                    assert(out@ =~= seq![36u8] + dec_rep(dv.len()) + crlf() + dv + crlf());
                }
                out
            },
        }
    }
}

} // verus!
