//! The RESP codec: error type, the shared line and number scanners that
//! the per-type decoders build on, and the encoding trait.
use vstd::prelude::*;
use vstd::slice::slice_subrange;
use vstd::string::StringSliceAdditionalSpecFns;
use crate::wire::{
    DecodeErr, all_digits, digit_val, digits_val, find_crlf, find_crlf_at, is_dec_digit,
    spec_parse_i64, spec_parse_usize, spec_simple_line, CR, LF,
};

verus! {

/// How decoding fails.  `NotComplete` is the retry signal of the stream
/// decoder; every other kind is terminal for the frame.  The message
/// payloads carry no meaning for the contracts, which speak through
/// [`err_view`].
#[derive(Debug, PartialEq, Eq)]
pub enum RespError {
    InvalidFrame(String),
    InvalidFrameType(String),
    InvalidFrameLength(isize),
    NotComplete,
    ParseIntError,
    Utf8Error,
    ParseFloatError,
}

/// The error kind an executable error stands for in the decoder mirror.
pub open spec fn err_view(e: RespError) -> DecodeErr {
    match e {
        RespError::InvalidFrame(_) => DecodeErr::BadFrame,
        RespError::InvalidFrameType(_) => DecodeErr::BadType,
        RespError::InvalidFrameLength(_) => DecodeErr::BadLength,
        RespError::NotComplete => DecodeErr::Incomplete,
        RespError::ParseIntError => DecodeErr::BadInt,
        RespError::Utf8Error => DecodeErr::BadUtf8,
        RespError::ParseFloatError => DecodeErr::BadFloat,
    }
}

/// Encoding onto the wire.  Each implementor names its spec-level wire
/// image and must produce exactly those bytes.
pub trait RespEncode: Sized {
    spec fn wire(&self) -> Seq<u8>;

    fn encode(self) -> (r: Vec<u8>)
        ensures
            r@ == self.wire(),
    ;
}

/// One byte of a slice.
pub(crate) fn byte_at(s: &[u8], i: usize) -> (r: u8)
    requires
        i < s@.len(),
    ensures
        r == s@[i as int],
{
    *vstd::slice::slice_index_get(s, i)
}

/// Whether `p` is a prefix of `b`.
pub(crate) fn has_prefix(b: &[u8], p: &[u8]) -> (r: bool)
    ensures
        r == p@.is_prefix_of(b@),
{
    if p.len() > b.len() {
        assert(!p@.is_prefix_of(b@));
        return false;
    }
    let mut i: usize = 0;
    while i < p.len()
        invariant
            i <= p@.len() <= b@.len(),
            forall|j: int| 0 <= j < i ==> b@[j] == p@[j],
        decreases p@.len() - i,
    {
        if byte_at(b, i) != byte_at(p, i) {
            assert(!p@.is_prefix_of(b@));
            return false;
        }
        i += 1;
    }
    assert(p@ =~= b@.subrange(0, p@.len() as int));
    true
}

/// Position of the first CR LF pair in `b`, if any.
pub(crate) fn find_crlf_pos(b: &[u8]) -> (r: Option<usize>)
    ensures
        match r {
            Option::Some(i) => find_crlf(b@) == Option::Some(i as int),
            Option::None => find_crlf(b@) == Option::<int>::None,
        },
{
    let n = b.len();
    let mut i: usize = 0;
    loop
        invariant
            0 <= i <= n == b@.len(),
            find_crlf(b@) == find_crlf_at(b@, i as int),
        decreases b@.len() - i,
    {
        if n < 2 || i >= n - 1 {
            return Option::None;
        }
        if byte_at(b, i) == CR && byte_at(b, i + 1) == LF {
            return Option::Some(i);
        }
        i += 1;
    }
}

/// A value of a digit-string prefix never exceeds the value of the whole.
pub proof fn lemma_digits_val_prefix_le(b: Seq<u8>, i: int)
    requires
        0 <= i <= b.len(),
    ensures
        digits_val(b.take(i)) <= digits_val(b),
    decreases b.len() - i,
{
    if i == b.len() {
        assert(b.take(i) =~= b);
    } else {
        assert(b.take(i + 1).drop_last() =~= b.take(i));
        assert(b.take(i + 1).last() == b[i]);
        assert(digits_val(b.take(i + 1)) == digits_val(b.take(i)) * 10 + digit_val(b[i]));
        lemma_digits_val_prefix_le(b, i + 1);
    }
}

/// Parse a digit string with an optional leading `+`, as the standard
/// library's unsigned parser reads a length field.
pub(crate) fn parse_usize_bytes(d: &[u8]) -> (r: Result<usize, RespError>)
    ensures
        match r {
            Result::Ok(v) => spec_parse_usize(d@) == Result::<nat, DecodeErr>::Ok(v as nat),
            Result::Err(e) => spec_parse_usize(d@) == Result::<nat, DecodeErr>::Err(err_view(e)),
        },
{
    let start: usize = if d.len() >= 1 && byte_at(d, 0) == 43 {
        1
    } else {
        0
    };
    let ghost dd = if d@.len() >= 1 && d@[0] == 43 {
        d@.drop_first()
    } else {
        d@
    };
    assert(dd =~= d@.subrange(start as int, d@.len() as int));
    if d.len() == start {
        assert(!all_digits(dd));
        return Result::Err(RespError::ParseIntError);
    }
    let mut i: usize = start;
    let mut val: usize = 0;
    while i < d.len()
        invariant
            start <= i <= d@.len(),
            start == if d@.len() >= 1 && d@[0] == 43 { 1int } else { 0int },
            dd == if d@.len() >= 1 && d@[0] == 43 { d@.drop_first() } else { d@ },
            dd =~= d@.subrange(start as int, d@.len() as int),
            forall|j: int| start <= j < i ==> is_dec_digit(#[trigger] d@[j]),
            val == digits_val(dd.take(i - start)),
        decreases d@.len() - i,
    {
        let c = byte_at(d, i);
        if c < 48 || c > 57 {
            assert(dd[i - start] == d@[i as int]);
            assert(!all_digits(dd));
            return Result::Err(RespError::ParseIntError);
        }
        let dig: usize = (c - 48) as usize;
        proof {
            assert(dd.take(i - start + 1).drop_last() =~= dd.take(i - start));
            assert(dd.take(i - start + 1).last() == d@[i as int]);
        }
        if val > (usize::MAX - dig) / 10 {
            proof {
                assert(digits_val(dd.take(i - start + 1)) == val * 10 + dig);
                assert(val * 10 + dig > usize::MAX) by (nonlinear_arith)
                    requires
                        val > (usize::MAX - dig) / 10,
                        dig <= 9,
                ;
                lemma_digits_val_prefix_le(dd, i - start + 1);
            }
            return Result::Err(RespError::ParseIntError);
        }
        proof {
            assert(val * 10 + dig <= usize::MAX) by (nonlinear_arith)
                requires
                    val <= (usize::MAX - dig) / 10,
                    dig <= 9,
            ;
        }
        val = val * 10 + dig;
        i += 1;
    }
    proof {
        assert(dd.take(i - start) =~= dd);
        assert(all_digits(dd));
    }
    Result::Ok(val)
}

/// Parse a digit string with an optional sign, as the standard library's
/// signed 64-bit parser reads an integer frame payload.
pub(crate) fn parse_i64_bytes(d: &[u8]) -> (r: Result<i64, RespError>)
    ensures
        match r {
            Result::Ok(v) => spec_parse_i64(d@) == Result::<int, DecodeErr>::Ok(v as int),
            Result::Err(e) => spec_parse_i64(d@) == Result::<int, DecodeErr>::Err(err_view(e)),
        },
{
    let negative = d.len() >= 1 && byte_at(d, 0) == 45;
    let start: usize = if d.len() >= 1 && (byte_at(d, 0) == 43 || byte_at(d, 0) == 45) {
        1
    } else {
        0
    };
    let ghost dd = if d@.len() >= 1 && (d@[0] == 43 || d@[0] == 45) {
        d@.drop_first()
    } else {
        d@
    };
    assert(dd =~= d@.subrange(start as int, d@.len() as int));
    if d.len() == start {
        assert(!all_digits(dd));
        return Result::Err(RespError::ParseIntError);
    }
    let limit: u64 = if negative {
        9223372036854775808
    } else {
        9223372036854775807
    };
    let mut i: usize = start;
    let mut mag: u64 = 0;
    while i < d.len()
        invariant
            start <= i <= d@.len(),
            negative == (d@.len() >= 1 && d@[0] == 45),
            start == if d@.len() >= 1 && (d@[0] == 43 || d@[0] == 45) { 1int } else { 0int },
            dd == if d@.len() >= 1 && (d@[0] == 43 || d@[0] == 45) { d@.drop_first() } else { d@ },
            dd =~= d@.subrange(start as int, d@.len() as int),
            limit == if negative { 9223372036854775808u64 } else { 9223372036854775807u64 },
            forall|j: int| start <= j < i ==> is_dec_digit(#[trigger] d@[j]),
            mag == digits_val(dd.take(i - start)),
            mag <= limit,
        decreases d@.len() - i,
    {
        let c = byte_at(d, i);
        if c < 48 || c > 57 {
            assert(dd[i - start] == d@[i as int]);
            assert(!all_digits(dd));
            return Result::Err(RespError::ParseIntError);
        }
        let dig: u64 = (c - 48) as u64;
        proof {
            assert(dd.take(i - start + 1).drop_last() =~= dd.take(i - start));
            assert(dd.take(i - start + 1).last() == d@[i as int]);
        }
        if mag > (limit - dig) / 10 {
            proof {
                assert(digits_val(dd.take(i - start + 1)) == mag * 10 + dig);
                assert(mag * 10 + dig > limit) by (nonlinear_arith)
                    requires
                        mag > (limit - dig) / 10,
                        dig <= 9,
                        limit >= 9,
                ;
                lemma_digits_val_prefix_le(dd, i - start + 1);
            }
            return Result::Err(RespError::ParseIntError);
        }
        proof {
            assert(mag * 10 + dig <= limit) by (nonlinear_arith)
                requires
                    mag <= (limit - dig) / 10,
                    dig <= 9,
                    limit >= 9,
            ;
        }
        mag = mag * 10 + dig;
        i += 1;
    }
    proof {
        assert(dd.take(i - start) =~= dd);
        assert(all_digits(dd));
    }
    if negative {
        if mag == 9223372036854775808 {
            Result::Ok(i64::MIN)
        } else {
            Result::Ok(-(mag as i64))
        }
    } else {
        Result::Ok(mag as i64)
    }
}

/// Scan one simple line: the buffer must begin with `prefix` and hold a
/// CRLF; the result is the index of the CR.
pub(crate) fn line_end(buf: &[u8], prefix: &[u8]) -> (r: Result<usize, RespError>)
    ensures
        match r {
            Result::Ok(end) => spec_simple_line(buf@, prefix@) == Result::<int, DecodeErr>::Ok(
                end as int,
            ),
            Result::Err(e) => spec_simple_line(buf@, prefix@) == Result::<int, DecodeErr>::Err(
                err_view(e),
            ),
        },
{
    if buf.len() < 3 {
        return Result::Err(RespError::NotComplete);
    }
    if !has_prefix(buf, prefix) {
        return Result::Err(RespError::InvalidFrameType("unexpected frame prefix".to_owned()));
    }
    match find_crlf_pos(buf) {
        Option::Some(end) => if end == 0 {
            Result::Err(RespError::NotComplete)
        } else {
            Result::Ok(end)
        },
        Option::None => Result::Err(RespError::NotComplete),
    }
}

/// Find the line of one simple frame: the buffer must begin with the given
/// prefix text, and the line runs to the first CRLF, whose index is
/// returned.
pub fn extract_simaple_frame_data(buf: &[u8], prefix: &str) -> (r: Result<usize, RespError>)
    ensures
        match r {
            Result::Ok(end) => spec_simple_line(buf@, prefix.spec_bytes())
                == Result::<int, DecodeErr>::Ok(end as int),
            Result::Err(e) => spec_simple_line(buf@, prefix.spec_bytes())
                == Result::<int, DecodeErr>::Err(err_view(e)),
        },
{
    line_end(buf, prefix.as_bytes())
}

/// Read the length field of a frame: the line under the given one-character
/// prefix, parsed as an unsigned decimal.  Returns the CRLF index and the
/// length.
pub fn parse_length(buf: &[u8], prefix: &str) -> (r: Result<(usize, usize), RespError>)
    requires
        prefix.spec_bytes().len() == 1,
    ensures
        match r {
            Result::Ok((end, len)) => crate::wire::spec_parse_length(buf@, prefix.spec_bytes())
                == Result::<(int, nat), DecodeErr>::Ok((end as int, len as nat)),
            Result::Err(e) => crate::wire::spec_parse_length(buf@, prefix.spec_bytes())
                == Result::<(int, nat), DecodeErr>::Err(err_view(e)),
        },
{
    let pb = prefix.as_bytes();
    let end = match line_end(buf, pb) {
        Result::Ok(end) => end,
        Result::Err(e) => {
            return Result::Err(e);
        },
    };
    proof {
        crate::wire::lemma_find_crlf_at_some(buf@, 0, end as int);
    }
    let payload = slice_subrange(buf, 1, end);
    match parse_usize_bytes(payload) {
        Result::Ok(len) => Result::Ok((end, len)),
        Result::Err(e) => Result::Err(e),
    }
}

/// Position of the `nth` CRLF pair (counting from one), if the buffer
/// holds that many.
pub open spec fn spec_find_ctrl(b: Seq<u8>, i: int, count: nat, nth: nat) -> Option<int>
    decreases b.len() - i,
{
    if i < 0 || i + 1 >= b.len() {
        Option::None
    } else if b[i] == CR && b[i + 1] == LF {
        if count + 1 == nth {
            Option::Some(i)
        } else {
            spec_find_ctrl(b, i + 1, count + 1, nth)
        }
    } else {
        spec_find_ctrl(b, i + 1, count, nth)
    }
}

/// Find the `nth` CRLF pair in the buffer, counting pairs from one.
pub fn find_ctrl(buf: &[u8], nth: usize) -> (r: Option<usize>)
    ensures
        match r {
            Option::Some(i) => spec_find_ctrl(buf@, 0, 0, nth as nat) == Option::Some(i as int),
            Option::None => spec_find_ctrl(buf@, 0, 0, nth as nat) == Option::<int>::None,
        },
{
    let n = buf.len();
    let mut count: usize = 0;
    let mut i: usize = 0;
    loop
        invariant
            0 <= i <= n == buf@.len(),
            count <= i,
            spec_find_ctrl(buf@, 0, 0, nth as nat) == spec_find_ctrl(
                buf@,
                i as int,
                count as nat,
                nth as nat,
            ),
        decreases buf@.len() - i,
    {
        if n < 2 || i >= n - 1 {
            return Option::None;
        }
        if byte_at(buf, i) == CR && byte_at(buf, i + 1) == LF {
            if count + 1 == nth {
                return Option::Some(i);
            }
            count += 1;
        }
        i += 1;
    }
}

/// Scan one simple line under a one-byte prefix; the byte form of
/// [`line_end`], used by the per-type decoders.
pub(crate) fn line_end1(buf: &[u8], p: u8) -> (r: Result<usize, RespError>)
    ensures
        match r {
            Result::Ok(end) => spec_simple_line(buf@, seq![p]) == Result::<int, DecodeErr>::Ok(
                end as int,
            ),
            Result::Err(e) => spec_simple_line(buf@, seq![p]) == Result::<int, DecodeErr>::Err(
                err_view(e),
            ),
        },
{
    if buf.len() < 3 {
        return Result::Err(RespError::NotComplete);
    }
    if byte_at(buf, 0) != p {
        assert(buf@.subrange(0, 1)[0] == buf@[0]);
        assert(!seq![p].is_prefix_of(buf@));
        return Result::Err(RespError::InvalidFrameType("unexpected frame prefix".to_owned()));
    }
    assert(seq![p] =~= buf@.subrange(0, 1));
    match find_crlf_pos(buf) {
        Option::Some(end) => if end == 0 {
            Result::Err(RespError::NotComplete)
        } else {
            Result::Ok(end)
        },
        Option::None => Result::Err(RespError::NotComplete),
    }
}

/// Read the length field under a one-byte prefix: the byte form of
/// [`parse_length`].
pub(crate) fn parse_length1(buf: &[u8], p: u8) -> (r: Result<(usize, usize), RespError>)
    ensures
        match r {
            Result::Ok((end, len)) => crate::wire::spec_parse_length(buf@, seq![p])
                == Result::<(int, nat), DecodeErr>::Ok((end as int, len as nat)),
            Result::Err(e) => crate::wire::spec_parse_length(buf@, seq![p])
                == Result::<(int, nat), DecodeErr>::Err(err_view(e)),
        },
{
    let end = match line_end1(buf, p) {
        Result::Ok(end) => end,
        Result::Err(e) => {
            return Result::Err(e);
        },
    };
    proof {
        crate::wire::lemma_find_crlf_at_some(buf@, 0, end as int);
    }
    let payload = slice_subrange(buf, 1, end);
    match parse_usize_bytes(payload) {
        Result::Ok(len) => Result::Ok((end, len)),
        Result::Err(e) => Result::Err(e),
    }
}

/// Relies on `String::from_utf8`: it succeeds exactly on valid UTF-8 and
/// returns the string those bytes encode.
#[verifier::external_body]
pub(crate) fn string_from_utf8(v: Vec<u8>) -> (r: Result<String, RespError>)
    ensures
        match r {
            Result::Ok(s) => vstd::utf8::valid_utf8(v@) && s@ == vstd::utf8::decode_utf8(v@)
                && v@ == vstd::utf8::encode_utf8(s@),
            Result::Err(e) => !vstd::utf8::valid_utf8(v@) && e == RespError::Utf8Error,
        },
{
    match String::from_utf8(v) {
        Ok(s) => Result::Ok(s),
        Err(_) => Result::Err(RespError::Utf8Error),
    }
}

/// Decode one text line (slice form): scan the line under `p`, then read
/// the payload strictly as UTF-8.  Returns the text and the bytes used.
pub(crate) fn decode_text_at(b: &[u8], p: u8) -> (r: Result<(String, usize), RespError>)
    ensures
        match r {
            Result::Ok(pair) => crate::wire::spec_decode_text(b@, p) matches Result::Ok((s, n))
                && pair.0@ == s && pair.1 == n && 1 <= n <= b@.len(),
            Result::Err(e) => crate::wire::spec_decode_text(b@, p) == Result::<
                (Seq<char>, nat),
                DecodeErr,
            >::Err(err_view(e)),
        },
{
    let end = match line_end1(b, p) {
        Result::Ok(end) => end,
        Result::Err(e) => {
            return Result::Err(e);
        },
    };
    proof {
        crate::wire::lemma_find_crlf_at_some(b@, 0, end as int);
    }
    let blen = b.len();
    assert(end + 2 <= blen);
    let payload = slice_subrange(b, 1, end);
    match string_from_utf8(vstd::slice::slice_to_vec(payload)) {
        Result::Ok(s) => Result::Ok((s, end + 2)),
        Result::Err(e) => Result::Err(e),
    }
}

/// Decode a fixed wire form (slice form): the buffer must begin with the
/// bytes of `w`; a strict prefix of them is not complete yet, anything
/// else mismatches the type.
pub(crate) fn fixed_at(b: &[u8], w: &[u8]) -> (r: Result<usize, RespError>)
    ensures
        match r {
            Result::Ok(n) => crate::wire::spec_fixed(b@, w@) == Result::<int, DecodeErr>::Ok(
                n as int,
            ) && n == w@.len() && n <= b@.len(),
            Result::Err(e) => crate::wire::spec_fixed(b@, w@) == Result::<int, DecodeErr>::Err(
                err_view(e),
            ),
        },
{
    let mut i: usize = 0;
    while i < w.len() && i < b.len()
        invariant
            0 <= i <= w@.len(),
            i <= b@.len(),
            forall|j: int| 0 <= j < i ==> b@[j] == w@[j],
        decreases w@.len() - i,
    {
        if byte_at(b, i) != byte_at(w, i) {
            proof {
                assert(b@.take(w@.len() as int) != w@ || b@.len() < w@.len()) by {
                    if b@.len() >= w@.len() {
                        assert(b@.take(w@.len() as int)[i as int] == b@[i as int]);
                    }
                }
                assert(!crate::wire::strict_prefix_of(b@, w@)) by {
                    if b@.len() < w@.len() {
                        assert(w@.take(b@.len() as int)[i as int] == w@[i as int]);
                    }
                }
            }
            return Result::Err(RespError::InvalidFrameType("unexpected frame bytes".to_owned()));
        }
        i += 1;
    }
    if b.len() < w.len() {
        proof {
            assert(b@ =~= w@.take(b@.len() as int));
        }
        return Result::Err(RespError::NotComplete);
    }
    proof {
        assert(b@.take(w@.len() as int) =~= w@);
    }
    Result::Ok(w.len())
}

/// The `_\r\n` wire form.
pub(crate) fn wire_null() -> (r: Vec<u8>)
    ensures
        r@ == crate::wire::null_wire(),
{
    let mut v: Vec<u8> = Vec::new();
    v.push(95);
    v.push(CR);
    v.push(LF);
    proof {
        assert(v@ =~= crate::wire::null_wire());
    }
    v
}

/// The `#t\r\n` wire form.
pub(crate) fn wire_bool_true() -> (r: Vec<u8>)
    ensures
        r@ == crate::wire::bool_true_wire(),
{
    let mut v: Vec<u8> = Vec::new();
    v.push(35);
    v.push(116);
    v.push(CR);
    v.push(LF);
    proof {
        assert(v@ =~= crate::wire::bool_true_wire());
    }
    v
}

/// The `#f\r\n` wire form.
pub(crate) fn wire_bool_false() -> (r: Vec<u8>)
    ensures
        r@ == crate::wire::bool_false_wire(),
{
    let mut v: Vec<u8> = Vec::new();
    v.push(35);
    v.push(102);
    v.push(CR);
    v.push(LF);
    proof {
        assert(v@ =~= crate::wire::bool_false_wire());
    }
    v
}

/// The `$-1\r\n` wire form.
pub(crate) fn wire_null_bulk() -> (r: Vec<u8>)
    ensures
        r@ == crate::wire::null_bulk_wire(),
{
    let mut v: Vec<u8> = Vec::new();
    v.push(36);
    v.push(45);
    v.push(49);
    v.push(CR);
    v.push(LF);
    proof {
        assert(v@ =~= crate::wire::null_bulk_wire());
    }
    v
}

/// The `*-1\r\n` wire form.
pub(crate) fn wire_null_array() -> (r: Vec<u8>)
    ensures
        r@ == crate::wire::null_array_wire(),
{
    let mut v: Vec<u8> = Vec::new();
    v.push(42);
    v.push(45);
    v.push(49);
    v.push(CR);
    v.push(LF);
    proof {
        assert(v@ =~= crate::wire::null_array_wire());
    }
    v
}

/// Render a length or integer magnitude as decimal digits appended to
/// `out`, most significant digit first.
pub(crate) fn push_decimal(out: &mut Vec<u8>, n: u64)
    ensures
        final(out)@ == old(out)@ + crate::wire::dec_rep(n as nat),
    decreases n,
{
    if n < 10 {
        out.push(48 + (n as u8));
        assert(out@ =~= old(out)@ + crate::wire::dec_rep(n as nat));
    } else {
        push_decimal(out, n / 10);
        out.push(48 + ((n % 10) as u8));
        assert(out@ =~= old(out)@ + crate::wire::dec_rep(n as nat));
    }
}

/// The total byte length of the frame whose length line ends at `end`
/// and declares `len`: for arrays, maps and sets the nested frames are
/// walked; for the map the declared count is of entries, two frames each.
pub fn calc_total_length(buf: &[u8], end: usize, len: usize, prefix: &str) -> (r: Result<
    usize,
    RespError,
>)
    requires
        1 <= end,
        end + 2 <= buf@.len(),
        prefix.spec_bytes().len() >= 1,
        len <= usize::MAX - 2,
    ensures
        match r {
            Result::Ok(n) => crate::wire::spec_calc_total(
                buf@,
                end as int,
                len as nat,
                prefix.spec_bytes()[0],
            ) == Result::<nat, DecodeErr>::Ok(n as nat),
            Result::Err(e) => crate::wire::spec_calc_total(
                buf@,
                end as int,
                len as nat,
                prefix.spec_bytes()[0],
            ) == Result::<nat, DecodeErr>::Err(err_view(e)),
        },
{
    let blen = buf.len();
    assert(end + 2 <= blen);
    let pb = prefix.as_bytes();
    let p = byte_at(pb, 0);
    if p == 42 || p == 126 {
        match crate::resp::frame::RespFrame::calc_elems_at(buf, end + 2, len as u128) {
            Result::Ok(t) => Result::Ok(end + 2 + t),
            Result::Err(e) => Result::Err(e),
        }
    } else if p == 37 {
        match crate::resp::frame::RespFrame::calc_elems_at(buf, end + 2, 2 * (len as u128)) {
            Result::Ok(t) => Result::Ok(end + 2 + t),
            Result::Err(e) => Result::Err(e),
        }
    } else {
        Result::Ok(len + 2)
    }
}

/// Check and consume a fixed wire form: the buffer must begin with the
/// bytes of `expect`, which are then dropped from its front; a strict
/// prefix of them is not complete yet, anything else mismatches the frame
/// type named by `expect_type`.  On any failure the buffer is unchanged.
pub fn extract_fixed_data(buf: &mut bytes::BytesMut, expect: &str, expect_type: &str) -> (r:
    Result<(), RespError>)
    ensures
        match r {
            Result::Ok(_) => crate::wire::spec_fixed(
                crate::bytebuf::bytes_view(*old(buf)),
                expect.spec_bytes(),
            ) matches Result::Ok(n) && crate::bytebuf::bytes_view(*final(buf))
                == crate::bytebuf::bytes_view(*old(buf)).skip(n),
            Result::Err(e) => crate::bytebuf::bytes_view(*final(buf))
                == crate::bytebuf::bytes_view(*old(buf)) && crate::wire::spec_fixed(
                crate::bytebuf::bytes_view(*old(buf)),
                expect.spec_bytes(),
            ) == Result::<int, DecodeErr>::Err(err_view(e)),
        },
{
    let b = crate::bytebuf::buf_bytes(buf);
    match fixed_at(b, expect.as_bytes()) {
        Result::Ok(n) => {
            crate::bytebuf::buf_advance(buf, n);
            Result::Ok(())
        },
        Result::Err(RespError::NotComplete) => Result::Err(RespError::NotComplete),
        Result::Err(_) => {
            let mut msg = "expected the fixed form of ".to_owned();
            msg.append(expect_type);
            Result::Err(RespError::InvalidFrameType(msg))
        },
    }
}

/// Whether two byte slices hold the same bytes.
pub(crate) fn eq_bytes(a: &[u8], b: &[u8]) -> (r: bool)
    ensures
        r == (a@ == b@),
{
    if a.len() != b.len() {
        assert(a@ != b@) by {
            assert(a@.len() != b@.len());
        }
        return false;
    }
    let n = a.len();
    let mut i: usize = 0;
    while i < n
        invariant
            0 <= i <= n == a@.len() == b@.len(),
            forall|j: int| 0 <= j < i ==> a@[j] == b@[j],
        decreases n - i,
    {
        if byte_at(a, i) != byte_at(b, i) {
            return false;
        }
        i += 1;
    }
    proof {
        assert(a@ =~= b@);
    }
    true
}

/// ASCII lowercasing of a byte slice.
pub(crate) fn ascii_lower_vec(d: &[u8]) -> (r: Vec<u8>)
    ensures
        r@ == crate::wire::ascii_lower(d@),
{
    let n = d.len();
    let mut out: Vec<u8> = Vec::new();
    let mut i: usize = 0;
    while i < n
        invariant
            0 <= i <= n == d@.len(),
            out@.len() == i,
            forall|j: int|
                0 <= j < i ==> #[trigger] out@[j] == (if 65 <= d@[j] <= 90 {
                    (d@[j] + 32) as u8
                } else {
                    d@[j]
                }),
        decreases n - i,
    {
        let c = byte_at(d, i);
        if 65 <= c && c <= 90 {
            out.push(c + 32);
        } else {
            out.push(c);
        }
        i += 1;
    }
    proof {
        assert(out@ =~= crate::wire::ascii_lower(d@));
    }
    out
}

/// Relies on `str`'s equality: two string slices are equal exactly when
/// their characters are.
#[verifier::external_body]
pub(crate) fn str_eq(a: &str, b: &str) -> (r: bool)
    ensures
        r == (a@ == b@),
{
    a == b
}

} // verus!

pub mod simple_string;
pub mod simple_error;
pub mod null;
pub mod boolean;
pub mod integer;
pub mod double;
pub mod bulk_string;
pub mod convert;
pub mod frame;
pub mod array;
pub mod map;
pub mod set;
