//! The `,` double frame.  The payload is kept as the verbatim float text
//! between the prefix and the CRLF; turning that text into a machine float
//! and back is the business of the numeric layer around the library.
use vstd::prelude::*;
use crate::bytebuf::{buf_advance, buf_bytes, bytes_view};
use crate::resp::{err_view, line_end1, string_from_utf8, RespEncode, RespError};
use crate::wire::{digits_end, encode_frame, exponent_ok, is_float_text, line, spec_decode_double,
    DecodeErr, FrameView, CR, LF};
use vstd::slice::{slice_subrange, slice_to_vec};
use vstd::string::StringSliceAdditionalSpecFns;
use vstd::utf8::encode_utf8;

verus! {

/// A double frame: one line of float text under the `,` prefix, stored
/// verbatim, sign included.
#[derive(Debug, Clone, PartialEq)]
pub struct RespDouble(pub(crate) String);

impl View for RespDouble {
    type V = Seq<char>;

    closed spec fn view(&self) -> Seq<char> {
        self.0@
    }
}

/// Index of the first non-digit in `b` at or after `i`.
pub(crate) fn digits_end_at(b: &[u8], i: usize) -> (r: usize)
    requires
        i <= b@.len(),
    ensures
        r == digits_end(b@, i as int),
        i <= r <= b@.len(),
{
    let n = b.len();
    let mut j: usize = i;
    loop
        invariant
            i <= j <= n == b@.len(),
            digits_end(b@, i as int) == digits_end(b@, j as int),
        decreases b@.len() - j,
    {
        if j >= n {
            return j;
        }
        let c = crate::resp::byte_at(b, j);
        if c < 48 || c > 57 {
            return j;
        }
        j += 1;
    }
}

/// Whether `t` is a well-formed exponent part.
pub(crate) fn exponent_check(t: &[u8]) -> (r: bool)
    ensures
        r == exponent_ok(t@),
{
    let n = t.len();
    if n == 0 {
        return true;
    }
    let c0 = crate::resp::byte_at(t, 0);
    if c0 != 101 && c0 != 69 {
        return false;
    }
    let s: usize = if n >= 2 && {
        let c1 = crate::resp::byte_at(t, 1);
        c1 == 43 || c1 == 45
    } {
        2
    } else {
        1
    };
    if n <= s {
        return false;
    }
    digits_end_at(t, s) == n
}

/// Whether `b` is a float body: digits with an optional dot and an
/// optional exponent.
pub(crate) fn check_float_body(body: &[u8]) -> (r: bool)
    ensures
        r == crate::wire::float_body(body@),
{
    let m = body.len();
    let e1 = digits_end_at(body, 0);
    if e1 == m {
        return m > 0;
    }
    if crate::resp::byte_at(body, e1) == 46 {
        let e2 = digits_end_at(body, e1 + 1);
        if !(e1 > 0 || e2 > e1 + 1) {
            return false;
        }
        let t = slice_subrange(body, e2, m);
        assert(t@ =~= body@.skip(e2 as int));
        exponent_check(t)
    } else {
        if e1 == 0 {
            return false;
        }
        let t = slice_subrange(body, e1, m);
        assert(t@ =~= body@.skip(e1 as int));
        exponent_check(t)
    }
}

/// Whether `d` is float text: an optional sign, then a float body or one
/// of the keyword forms (`inf`, `infinity`, `nan`, in any letter case).
pub fn check_float_text(d: &[u8]) -> (r: bool)
    ensures
        r == is_float_text(d@),
{
    let n = d.len();
    let start: usize = if n >= 1 && {
        let c0 = crate::resp::byte_at(d, 0);
        c0 == 43 || c0 == 45
    } {
        1
    } else {
        0
    };
    let body = slice_subrange(d, start, n);
    proof {
        assert(body@ =~= if d@.len() >= 1 && (d@[0] == 43 || d@[0] == 45) {
            d@.drop_first()
        } else {
            d@
        });
    }
    if check_float_body(body) {
        return true;
    }
    let low = crate::resp::ascii_lower_vec(body);
    crate::resp::eq_bytes(low.as_slice(), "inf".as_bytes()) || crate::resp::eq_bytes(
        low.as_slice(),
        "infinity".as_bytes(),
    ) || crate::resp::eq_bytes(low.as_slice(), "nan".as_bytes())
}

/// Decode a double frame (slice form): one `,` line whose payload must be
/// float text, returned with the sign made explicit and the bytes used.
pub(crate) fn decode_double_at(b: &[u8]) -> (r: Result<(RespDouble, usize), RespError>)
    ensures
        match r {
            Result::Ok(pair) => spec_decode_double(b@) matches Result::Ok((t, n)) && pair.0@ == t
                && pair.1 == n && 1 <= n <= b@.len() && pair.0.is_float(),
            Result::Err(e) => spec_decode_double(b@) == Result::<(Seq<char>, nat), DecodeErr>::Err(
                err_view(e),
            ),
        },
{
    let end = match line_end1(b, 44) {
        Result::Ok(end) => end,
        Result::Err(e) => {
            return Result::Err(e);
        },
    };
    proof {
        crate::wire::lemma_find_crlf_at_some(b@, 0, end as int);
    }
    let blen = b.len();
    assert(end + 2 <= blen);
    let payload = slice_subrange(b, 1, end);
    if !check_float_text(payload) {
        return Result::Err(RespError::ParseFloatError);
    }
    let signed = payload.len() >= 1 && {
        let c0 = crate::resp::byte_at(payload, 0);
        c0 == 43 || c0 == 45
    };
    match string_from_utf8(slice_to_vec(payload)) {
        Result::Ok(s0) => {
            if signed {
                Result::Ok((RespDouble(s0), end + 2))
            } else {
                let mut s = "+".to_owned();
                s.append(s0.as_str());
                proof {
                    reveal_strlit("+");
                    assert(s@ =~= seq!['+'] + s0@);
                    crate::wire::lemma_encode_utf8_plus(s0@);
                    assert(encode_utf8(s@) =~= seq![43u8] + payload@);
                    assert((seq![43u8] + payload@).drop_first() =~= payload@);
                }
                Result::Ok((RespDouble(s), end + 2))
            }
        },
        Result::Err(_) => Result::Err(RespError::ParseFloatError),
    }
}

impl RespDouble {
    /// A double holds float text whose byte form the decoder would accept.
    pub open spec fn is_float(&self) -> bool {
        is_float_text(encode_utf8(self@))
    }

    /// Make a double frame from its wire text; text that is not a float
    /// is refused, and a missing sign is made explicit, as the wire
    /// format writes one for every double.
    pub fn from_text(s: String) -> (r: Result<RespDouble, RespError>)
        ensures
            match r {
                Result::Ok(d) => is_float_text(encode_utf8(s@)) && d@ == (
                if encode_utf8(s@).len() >= 1 && (encode_utf8(s@)[0] == 43 || encode_utf8(s@)[0]
                    == 45) {
                    s@
                } else {
                    seq!['+'] + s@
                }) && d.is_float() && encode_utf8(d@).len() >= 1 && (encode_utf8(d@)[0] == 43
                    || encode_utf8(d@)[0] == 45),
                Result::Err(e) => !is_float_text(encode_utf8(s@)) && e
                    == RespError::ParseFloatError,
            },
    {
        let b = s.as_str().as_bytes();
        if !check_float_text(b) {
            return Result::Err(RespError::ParseFloatError);
        }
        let signed = b.len() >= 1 && {
            let c0 = crate::resp::byte_at(b, 0);
            c0 == 43 || c0 == 45
        };
        if signed {
            Result::Ok(RespDouble(s))
        } else {
            let mut t = "+".to_owned();
            t.append(s.as_str());
            proof {
                reveal_strlit("+");
                assert(t@ =~= seq!['+'] + s@);
                crate::wire::lemma_encode_utf8_plus(s@);
                assert(encode_utf8(t@) =~= seq![43u8] + encode_utf8(s@));
                assert((seq![43u8] + encode_utf8(s@)).drop_first() =~= encode_utf8(s@));
            }
            Result::Ok(RespDouble(t))
        }
    }

    /// A copy with the same text.
    pub(crate) fn duplicate(&self) -> (r: RespDouble)
        ensures
            r@ == self@,
    {
        RespDouble(self.0.clone())
    }

    /// The float text of the frame.
    pub fn as_str(&self) -> (r: &str)
        ensures
            r@ == self@,
    {
        self.0.as_str()
    }

    /// Decode one double frame from the front of the buffer, consuming
    /// exactly its bytes; on any failure the buffer is unchanged.
    pub fn decode(buf: &mut bytes::BytesMut) -> (r: Result<RespDouble, RespError>)
        ensures
            match r {
                Result::Ok(f) => spec_decode_double(bytes_view(*old(buf))) matches Result::Ok(
                    (t, n),
                ) && f@ == t && bytes_view(*final(buf)) == bytes_view(*old(buf)).skip(n as int),
                Result::Err(e) => bytes_view(*final(buf)) == bytes_view(*old(buf))
                    && spec_decode_double(bytes_view(*old(buf))) == Result::<
                    (Seq<char>, nat),
                    DecodeErr,
                >::Err(err_view(e)),
            },
    {
        let b = buf_bytes(buf);
        let (d, n) = match decode_double_at(b) {
            Result::Ok(p) => p,
            Result::Err(e) => {
                return Result::Err(e);
            },
        };
        buf_advance(buf, n);
        Result::Ok(d)
    }
}

impl RespEncode for RespDouble {
    open spec fn wire(&self) -> Seq<u8> {
        encode_frame(FrameView::Double(self@))
    }

    fn encode(self) -> (r: Vec<u8>) {
        let ghost v = self@;
        let mut out: Vec<u8> = Vec::new();
        out.push(44);
        out.extend_from_slice(self.0.as_str().as_bytes());
        out.push(CR);
        out.push(LF);
        proof {
            assert(out@ =~= line(44u8, encode_utf8(v)));
        }
        out
    }
}

} // verus!
