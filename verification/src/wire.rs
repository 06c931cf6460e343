//! Mathematical model of the RESP wire format: the value model (`FrameView`),
//! the byte-exact encoding function, and the text-level helpers (CRLF search,
//! decimal fields, float text) that both decoders are specified against.
use vstd::prelude::*;
use vstd::utf8::encode_utf8;

verus! {

broadcast use vstd::seq::axiom_seq_index_decreases, vstd::seq::axiom_seq_subrange_decreases;

pub const CR: u8 = 13;
pub const LF: u8 = 10;

/// The value carried by one RESP frame, with text fields as character
/// sequences and binary fields as byte sequences.
#[verifier::ext_equal]
pub enum FrameView {
    Simple(Seq<char>),
    Error(Seq<char>),
    Integer(int),
    Bulk(Option<Seq<u8>>),
    Array(Seq<FrameView>),
    NullArray,
    Null,
    Boolean(bool),
    Double(Seq<char>),
    Mapping(Seq<(Seq<char>, FrameView)>),
    Collection(Seq<FrameView>),
}

pub open spec fn crlf() -> Seq<u8> {
    seq![CR, LF]
}

/// A byte sequence free of the CR LF pair; a line payload must satisfy this
/// for the line scanner to find the terminator that the encoder appended.
pub open spec fn crlf_free(b: Seq<u8>) -> bool {
    forall|i: int| 0 <= i < b.len() - 1 ==> !(#[trigger] b[i] == CR && b[i + 1] == LF)
}

pub open spec fn dec_digit(d: nat) -> u8 {
    (48 + d) as u8
}

/// Decimal rendering of a natural number, most significant digit first,
/// without a sign and without leading zeros (`0` is rendered as `"0"`).
pub open spec fn dec_rep(n: nat) -> Seq<u8>
    decreases n,
{
    if n < 10 {
        seq![dec_digit(n)]
    } else {
        dec_rep(n / 10).push(dec_digit(n % 10))
    }
}

/// Rendering of a signed integer with the sign always written, as the
/// integer frame is put on the wire.
pub open spec fn signed_rep(i: int) -> Seq<u8> {
    if i >= 0 {
        seq![43u8] + dec_rep(i as nat)
    } else {
        seq![45u8] + dec_rep((-i) as nat)
    }
}

/// One simple line: prefix byte, payload, CRLF.
pub open spec fn line(prefix: u8, payload: Seq<u8>) -> Seq<u8> {
    seq![prefix] + payload + crlf()
}

pub open spec fn null_bulk_wire() -> Seq<u8> {
    seq![36u8, 45u8, 49u8, CR, LF]
}

pub open spec fn null_array_wire() -> Seq<u8> {
    seq![42u8, 45u8, 49u8, CR, LF]
}

/// The one wire representation of a frame value.
pub open spec fn encode_frame(f: FrameView) -> Seq<u8>
    decreases f, 1int,
{
    match f {
        FrameView::Simple(s) => line(43u8, encode_utf8(s)),
        FrameView::Error(s) => line(45u8, encode_utf8(s)),
        FrameView::Integer(i) => line(58u8, signed_rep(i)),
        FrameView::Bulk(od) => match od {
            Option::Some(d) => seq![36u8] + dec_rep(d.len()) + crlf() + d + crlf(),
            Option::None => null_bulk_wire(),
        },
        FrameView::Array(es) => seq![42u8] + dec_rep(es.len()) + crlf() + encode_elems(es),
        FrameView::NullArray => null_array_wire(),
        FrameView::Null => seq![95u8] + crlf(),
        FrameView::Boolean(b) => seq![35u8, if b { 116u8 } else { 102u8 }] + crlf(),
        FrameView::Double(t) => line(44u8, encode_utf8(t)),
        FrameView::Mapping(entries) => seq![37u8] + dec_rep(entries.len()) + crlf()
            + encode_entries(entries),
        FrameView::Collection(es) => seq![126u8] + dec_rep(es.len()) + crlf() + encode_elems(es),
    }
}

/// The concatenated encodings of a sequence of frames.
pub open spec fn encode_elems(es: Seq<FrameView>) -> Seq<u8>
    decreases es, 0int,
{
    if es.len() == 0 {
        Seq::<u8>::empty()
    } else {
        encode_frame(es[0]) + encode_elems(es.drop_first())
    }
}

/// The concatenated encodings of map entries: each key as a simple string
/// line, then the value frame.
pub open spec fn encode_entries(entries: Seq<(Seq<char>, FrameView)>) -> Seq<u8>
    decreases entries, 0int,
{
    if entries.len() == 0 {
        Seq::<u8>::empty()
    } else {
        line(43u8, encode_utf8(entries[0].0)) + encode_frame(entries[0].1)
            + encode_entries(entries.drop_first())
    }
}

/// Index of the first CR LF pair at or after position `i`, if any.
pub open spec fn find_crlf_at(b: Seq<u8>, i: int) -> Option<int>
    decreases b.len() - i,
{
    if i < 0 || i + 1 >= b.len() {
        Option::None
    } else if b[i] == CR && b[i + 1] == LF {
        Option::Some(i)
    } else {
        find_crlf_at(b, i + 1)
    }
}

/// Index of the first CR LF pair in `b`, if any.
pub open spec fn find_crlf(b: Seq<u8>) -> Option<int> {
    find_crlf_at(b, 0)
}

pub open spec fn is_dec_digit(b: u8) -> bool {
    48 <= b <= 57
}

/// Every byte a decimal digit, and at least one of them.
pub open spec fn all_digits(b: Seq<u8>) -> bool {
    b.len() > 0 && forall|i: int| 0 <= i < b.len() ==> is_dec_digit(#[trigger] b[i])
}

/// Value of one digit byte; bytes outside the digit range count as zero,
/// and are ruled out wherever the value is relied on.
pub open spec fn digit_val(b: u8) -> nat {
    if is_dec_digit(b) {
        (b - 48) as nat
    } else {
        0
    }
}

/// Value of a digit string, most significant digit first.
pub open spec fn digits_val(b: Seq<u8>) -> nat
    decreases b.len(),
{
    if b.len() == 0 {
        0
    } else {
        digits_val(b.drop_last()) * 10 + digit_val(b.last())
    }
}

/// How the decoders fail, with the retry signal among them.  The error
/// frames carried by the executable error type map onto these kinds.
pub enum DecodeErr {
    /// More bytes are needed before the frame can be judged.
    Incomplete,
    /// The prefix byte does not announce the expected frame type.
    BadType,
    /// A negative length other than the null sentinel.
    BadLength,
    /// The payload of an integer frame or a length field is not a decimal
    /// number that fits the machine type.
    BadInt,
    /// A text payload is not valid UTF-8.
    BadUtf8,
    /// A double payload is not float text.
    BadFloat,
    /// The frame is structurally broken in some other way.
    BadFrame,
}

/// Mirror of the one-line scanner: at least prefix and CRLF must be present,
/// the buffer must start with the prefix, and the line ends at the first
/// CR LF pair.  The result is the index of that pair.
pub open spec fn spec_simple_line(b: Seq<u8>, prefix: Seq<u8>) -> Result<int, DecodeErr> {
    if b.len() < 3 {
        Result::Err(DecodeErr::Incomplete)
    } else if !prefix.is_prefix_of(b) {
        Result::Err(DecodeErr::BadType)
    } else {
        match find_crlf(b) {
            Option::Some(i) => if i == 0 {
                Result::Err(DecodeErr::Incomplete)
            } else {
                Result::Ok(i)
            },
            Option::None => Result::Err(DecodeErr::Incomplete),
        }
    }
}

/// Mirror of the unsigned decimal parser used for length fields: an
/// optional leading `+`, then digits, with the value bounded by the
/// machine word as the standard library's parser bounds it.
pub open spec fn spec_parse_usize(b: Seq<u8>) -> Result<nat, DecodeErr> {
    let d = if b.len() >= 1 && b[0] == 43 {
        b.drop_first()
    } else {
        b
    };
    if all_digits(d) && digits_val(d) <= usize::MAX {
        Result::Ok(digits_val(d))
    } else {
        Result::Err(DecodeErr::BadInt)
    }
}

/// Mirror of the signed decimal parser used for integer frames: an optional
/// sign, then digits, with the value within the signed 64-bit range.
pub open spec fn spec_parse_i64(b: Seq<u8>) -> Result<int, DecodeErr> {
    let negative = b.len() >= 1 && b[0] == 45;
    let d = if b.len() >= 1 && (b[0] == 43 || b[0] == 45) {
        b.drop_first()
    } else {
        b
    };
    let v = if negative {
        -(digits_val(d) as int)
    } else {
        digits_val(d) as int
    };
    if all_digits(d) && i64::MIN <= v <= i64::MAX {
        Result::Ok(v)
    } else {
        Result::Err(DecodeErr::BadInt)
    }
}

/// Mirror of the length-line parser: scan the line under the given one-byte
/// prefix, then read its payload as an unsigned length.  Returns the CRLF
/// index and the length.
pub open spec fn spec_parse_length(b: Seq<u8>, prefix: Seq<u8>) -> Result<(int, nat), DecodeErr> {
    match spec_simple_line(b, prefix) {
        Result::Err(e) => Result::Err(e),
        Result::Ok(end) => match spec_parse_usize(b.subrange(prefix.len() as int, end)) {
            Result::Err(e) => Result::Err(e),
            Result::Ok(n) => Result::Ok((end, n)),
        },
    }
}

/// Index of the first non-digit at or after `i` (or the end of `b`).
pub open spec fn digits_end(b: Seq<u8>, i: int) -> int
    decreases b.len() - i,
{
    if i < 0 || i >= b.len() {
        i
    } else if is_dec_digit(b[i]) {
        digits_end(b, i + 1)
    } else {
        i
    }
}

/// An exponent part: empty, or `e`/`E`, an optional sign, and at least one
/// digit running to the end.
pub open spec fn exponent_ok(t: Seq<u8>) -> bool {
    ||| t.len() == 0
    ||| {
        &&& (t[0] == 101 || t[0] == 69)
        &&& {
            let s = if t.len() >= 2 && (t[1] == 43 || t[1] == 45) {
                2int
            } else {
                1int
            };
            t.len() > s && digits_end(t, s) == t.len()
        }
    }
}

/// A float body: digits, optionally a dot with more digits, with digits on
/// at least one side of the dot, then an optional exponent.
pub open spec fn float_body(b: Seq<u8>) -> bool {
    let e1 = digits_end(b, 0);
    if e1 == b.len() {
        b.len() > 0
    } else if b[e1] == 46 {
        let e2 = digits_end(b, e1 + 1);
        (e1 > 0 || e2 > e1 + 1) && exponent_ok(b.skip(e2))
    } else {
        e1 > 0 && exponent_ok(b.skip(e1))
    }
}

/// ASCII lowercasing of a byte string.
pub open spec fn ascii_lower(b: Seq<u8>) -> Seq<u8> {
    b.map_values(
        |x: u8|
            if 65 <= x <= 90 {
                (x + 32) as u8
            } else {
                x
            },
    )
}

/// The keyword forms the standard library's float parser accepts, in any
/// letter case.
pub open spec fn float_keyword(b: Seq<u8>) -> bool {
    ||| ascii_lower(b) == encode_utf8("inf"@)
    ||| ascii_lower(b) == encode_utf8("infinity"@)
    ||| ascii_lower(b) == encode_utf8("nan"@)
}

/// The float text accepted in a double payload: an optional sign, then a
/// float body or one of the keyword forms, as the standard library's
/// float parser reads a decimal or scientific number, an infinity, or a
/// not-a-number.
pub open spec fn is_float_text(b: Seq<u8>) -> bool {
    let body = if b.len() >= 1 && (b[0] == 43 || b[0] == 45) {
        b.drop_first()
    } else {
        b
    };
    float_body(body) || float_keyword(body)
}

pub open spec fn bool_true_wire() -> Seq<u8> {
    seq![35u8, 116u8, CR, LF]
}

pub open spec fn bool_false_wire() -> Seq<u8> {
    seq![35u8, 102u8, CR, LF]
}

pub open spec fn null_wire() -> Seq<u8> {
    seq![95u8, CR, LF]
}

/// True when `b` is a strict prefix of the fixed wire form `w`; such a
/// buffer can still grow into `w`, so the decoder reports `Incomplete`.
pub open spec fn strict_prefix_of(b: Seq<u8>, w: Seq<u8>) -> bool {
    b.len() < w.len() && b == w.take(b.len() as int)
}

/// Mirror of the fixed-form decoder (booleans, nulls, the two null
/// sentinels): the buffer must begin with the fixed bytes; a strict prefix
/// of them is incomplete, anything else is a type mismatch.
pub open spec fn spec_fixed(b: Seq<u8>, w: Seq<u8>) -> Result<int, DecodeErr> {
    if b.len() >= w.len() && b.take(w.len() as int) == w {
        Result::Ok(w.len() as int)
    } else if strict_prefix_of(b, w) {
        Result::Err(DecodeErr::Incomplete)
    } else {
        Result::Err(DecodeErr::BadType)
    }
}

/// Mirror of the completeness probe: the total byte length of the first
/// frame in `b`, computed from prefixes and length fields alone.  For the
/// nested types it walks each element; for bulk strings the result may
/// exceed the buffer, which the decoder turns into `Incomplete`.
pub open spec fn spec_expect_length(b: Seq<u8>) -> Result<nat, DecodeErr>
    decreases b.len(), 0int, 0int,
{
    if b.len() == 0 {
        Result::Err(DecodeErr::Incomplete)
    } else if b[0] == 43 || b[0] == 45 || b[0] == 58 || b[0] == 44 {
        match spec_simple_line(b, seq![b[0]]) {
            Result::Err(e) => Result::Err(e),
            Result::Ok(end) => Result::Ok((end + 2) as nat),
        }
    } else if b[0] == 35 {
        Result::Ok(4)
    } else if b[0] == 95 {
        Result::Ok(3)
    } else if b[0] == 36 {
        match spec_fixed(b, null_bulk_wire()) {
            Result::Ok(n) => Result::Ok(n as nat),
            Result::Err(DecodeErr::Incomplete) => Result::Err(DecodeErr::Incomplete),
            Result::Err(_) => match spec_parse_length(b, seq![36u8]) {
                Result::Err(e) => Result::Err(e),
                Result::Ok((end, len)) => if end + 2 + len + 2 > usize::MAX {
                    Result::Err(DecodeErr::Incomplete)
                } else {
                    Result::Ok((end + 2 + len + 2) as nat)
                },
            },
        }
    } else if b[0] == 42 || b[0] == 126 {
        if b[0] == 42 && (b.len() >= 5 && b.take(5) == null_array_wire() || strict_prefix_of(
            b,
            null_array_wire(),
        )) {
            match spec_fixed(b, null_array_wire()) {
                Result::Ok(n) => Result::Ok(n as nat),
                Result::Err(e) => Result::Err(e),
            }
        } else {
            match spec_parse_length(b, seq![b[0]]) {
                Result::Err(e) => Result::Err(e),
                Result::Ok((end, len)) => if end < 1 || end + 2 > b.len() {
                    Result::Err(DecodeErr::BadFrame)
                } else {
                    match spec_calc_elems(b.skip(end + 2), len) {
                        Result::Err(e) => Result::Err(e),
                        Result::Ok(total) => Result::Ok((end + 2 + total) as nat),
                    }
                },
            }
        }
    } else if b[0] == 37 {
        match spec_parse_length(b, seq![37u8]) {
            Result::Err(e) => Result::Err(e),
            Result::Ok((end, len)) => if end < 1 || end + 2 > b.len() {
                Result::Err(DecodeErr::BadFrame)
            } else {
                match spec_calc_elems(b.skip(end + 2), 2 * len) {
                    Result::Err(e) => Result::Err(e),
                    Result::Ok(total) => Result::Ok((end + 2 + total) as nat),
                }
            },
        }
    } else {
        Result::Err(DecodeErr::BadType)
    }
}

/// Walk `n` frames from the front of `b`, summing their probed lengths.
/// A probed length that does not fit in the buffer means the walk cannot
/// go on, so the whole frame is not complete yet.
pub open spec fn spec_calc_elems(b: Seq<u8>, n: nat) -> Result<nat, DecodeErr>
    decreases b.len(), 1int, n,
{
    if n == 0 {
        Result::Ok(0)
    } else {
        match spec_expect_length(b) {
            Result::Err(e) => Result::Err(e),
            Result::Ok(len) => if len == 0 || len > b.len() {
                Result::Err(DecodeErr::Incomplete)
            } else {
                match spec_calc_elems(b.skip(len as int), (n - 1) as nat) {
                    Result::Err(e) => Result::Err(e),
                    Result::Ok(rest) => Result::Ok((len + rest) as nat),
                }
            },
        }
    }
}

/// Insert into an entry list with map semantics: an existing key keeps its
/// position and takes the new value; a new key is appended.
pub open spec fn upsert(
    entries: Seq<(Seq<char>, FrameView)>,
    k: Seq<char>,
    v: FrameView,
) -> Seq<(Seq<char>, FrameView)>
    decreases entries,
{
    if entries.len() == 0 {
        seq![(k, v)]
    } else if entries[0].0 == k {
        seq![(k, v)] + entries.drop_first()
    } else {
        seq![entries[0]] + upsert(entries.drop_first(), k, v)
    }
}

/// Mirror of one text-payload line (`+` or `-`): the payload between the
/// prefix and the first CRLF, decoded strictly as UTF-8.
pub open spec fn spec_decode_text(b: Seq<u8>, prefix: u8) -> Result<(Seq<char>, nat), DecodeErr> {
    match spec_simple_line(b, seq![prefix]) {
        Result::Err(e) => Result::Err(e),
        Result::Ok(end) => {
            let payload = b.subrange(1, end);
            if vstd::utf8::valid_utf8(payload) {
                Result::Ok((vstd::utf8::decode_utf8(payload), (end + 2) as nat))
            } else {
                Result::Err(DecodeErr::BadUtf8)
            }
        },
    }
}

/// Mirror of the integer frame decoder: one `:` line holding a signed
/// 64-bit decimal.
pub open spec fn spec_decode_integer(b: Seq<u8>) -> Result<(int, nat), DecodeErr> {
    match spec_simple_line(b, seq![58u8]) {
        Result::Err(e) => Result::Err(e),
        Result::Ok(end) => match spec_parse_i64(b.subrange(1, end)) {
            Result::Err(e) => Result::Err(e),
            Result::Ok(v) => Result::Ok((v, (end + 2) as nat)),
        },
    }
}

/// Mirror of the double frame decoder: one `,` line whose payload must be
/// float text.  The sign is made explicit: a payload that carries none
/// decodes with a leading `+`, so re-encoding writes the sign the wire
/// format requires of non-negative doubles.
pub open spec fn spec_decode_double(b: Seq<u8>) -> Result<(Seq<char>, nat), DecodeErr> {
    match spec_simple_line(b, seq![44u8]) {
        Result::Err(e) => Result::Err(e),
        Result::Ok(end) => {
            let payload = b.subrange(1, end);
            if is_float_text(payload) && vstd::utf8::valid_utf8(payload) {
                let t0 = vstd::utf8::decode_utf8(payload);
                let t = if payload.len() >= 1 && (payload[0] == 43 || payload[0] == 45) {
                    t0
                } else {
                    seq!['+'] + t0
                };
                Result::Ok((t, (end + 2) as nat))
            } else {
                Result::Err(DecodeErr::BadFloat)
            }
        },
    }
}

/// Mirror of the boolean decoder: the `#t` form is tried first, then the
/// `#f` form; an incomplete prefix of the first is reported before the
/// second is tried.
pub open spec fn spec_decode_bool(b: Seq<u8>) -> Result<(bool, nat), DecodeErr> {
    match spec_fixed(b, bool_true_wire()) {
        Result::Ok(n) => Result::Ok((true, n as nat)),
        Result::Err(DecodeErr::Incomplete) => Result::Err(DecodeErr::Incomplete),
        Result::Err(_) => match spec_fixed(b, bool_false_wire()) {
            Result::Ok(n) => Result::Ok((false, n as nat)),
            Result::Err(e) => Result::Err(e),
        },
    }
}

/// Mirror of the bulk string decoder: the `$-1` null sentinel, or a length
/// line followed by that many raw bytes and a CRLF.
pub open spec fn spec_decode_bulk(b: Seq<u8>) -> Result<(Option<Seq<u8>>, nat), DecodeErr> {
    match spec_fixed(b, null_bulk_wire()) {
        Result::Ok(n) => Result::Ok((Option::None, n as nat)),
        Result::Err(DecodeErr::Incomplete) => Result::Err(DecodeErr::Incomplete),
        Result::Err(_) => match spec_parse_length(b, seq![36u8]) {
            Result::Err(e) => Result::Err(e),
            Result::Ok((end, len)) => if b.len() < end + 2 + len + 2 {
                Result::Err(DecodeErr::Incomplete)
            } else {
                Result::Ok(
                    (
                        Option::Some(b.subrange(end + 2, end + 2 + len)),
                        (end + 2 + len + 2) as nat,
                    ),
                )
            },
        },
    }
}

/// Mirror of the recursive-descent decoder: one frame from the front of
/// `b`, with the number of bytes it occupies.  Text payloads must be valid
/// UTF-8 and double payloads float text; the nested types first confirm
/// completeness with the probe, exactly as the executable decoder does.
pub open spec fn spec_decode(b: Seq<u8>) -> Result<(FrameView, nat), DecodeErr>
    decreases b.len(), 0int, 1int,
{
    if b.len() == 0 {
        Result::Err(DecodeErr::Incomplete)
    } else if b[0] == 43 || b[0] == 45 {
        match spec_decode_text(b, b[0]) {
            Result::Err(e) => Result::Err(e),
            Result::Ok((s, n)) => Result::Ok(
                (
                    if b[0] == 43 {
                        FrameView::Simple(s)
                    } else {
                        FrameView::Error(s)
                    },
                    n,
                ),
            ),
        }
    } else if b[0] == 58 {
        match spec_decode_integer(b) {
            Result::Err(e) => Result::Err(e),
            Result::Ok((v, n)) => Result::Ok((FrameView::Integer(v), n)),
        }
    } else if b[0] == 44 {
        match spec_decode_double(b) {
            Result::Err(e) => Result::Err(e),
            Result::Ok((t, n)) => Result::Ok((FrameView::Double(t), n)),
        }
    } else if b[0] == 35 {
        match spec_decode_bool(b) {
            Result::Err(e) => Result::Err(e),
            Result::Ok((v, n)) => Result::Ok((FrameView::Boolean(v), n)),
        }
    } else if b[0] == 95 {
        match spec_fixed(b, null_wire()) {
            Result::Err(e) => Result::Err(e),
            Result::Ok(n) => Result::Ok((FrameView::Null, n as nat)),
        }
    } else if b[0] == 36 {
        match spec_decode_bulk(b) {
            Result::Err(e) => Result::Err(e),
            Result::Ok((d, n)) => Result::Ok((FrameView::Bulk(d), n)),
        }
    } else if b[0] == 42 || b[0] == 126 {
        if b[0] == 42 && (b.len() >= 5 && b.take(5) == null_array_wire()
            || strict_prefix_of(b, null_array_wire())) {
            match spec_fixed(b, null_array_wire()) {
                Result::Err(e) => Result::Err(e),
                Result::Ok(n) => Result::Ok((FrameView::NullArray, n as nat)),
            }
        } else {
            match spec_parse_length(b, seq![b[0]]) {
                Result::Err(e) => Result::Err(e),
                Result::Ok((end, len)) => if end < 1 || end + 2 > b.len() {
                    Result::Err(DecodeErr::BadFrame)
                } else {
                    match spec_calc_elems(b.skip(end + 2), len) {
                        Result::Err(e) => Result::Err(e),
                        Result::Ok(total) => if b.len() < end + 2 + total {
                            Result::Err(DecodeErr::Incomplete)
                        } else {
                            match spec_decode_elems(b.skip(end + 2), len) {
                                Result::Err(e) => Result::Err(e),
                                Result::Ok((es, used)) => Result::Ok(
                                    (
                                        if b[0] == 42 {
                                            FrameView::Array(es)
                                        } else {
                                            FrameView::Collection(es)
                                        },
                                        (end + 2 + used) as nat,
                                    ),
                                ),
                            }
                        },
                    }
                },
            }
        }
    } else if b[0] == 37 {
        match spec_parse_length(b, seq![37u8]) {
            Result::Err(e) => Result::Err(e),
            Result::Ok((end, len)) => if end < 1 || end + 2 > b.len() {
                Result::Err(DecodeErr::BadFrame)
            } else {
                match spec_calc_elems(b.skip(end + 2), 2 * len) {
                    Result::Err(e) => Result::Err(e),
                    Result::Ok(total) => if b.len() < end + 2 + total {
                        Result::Err(DecodeErr::Incomplete)
                    } else {
                        match spec_decode_entries(b.skip(end + 2), len, Seq::empty()) {
                            Result::Err(e) => Result::Err(e),
                            Result::Ok((entries, used)) => Result::Ok(
                                (FrameView::Mapping(entries), (end + 2 + used) as nat),
                            ),
                        }
                    },
                }
            },
        }
    } else {
        Result::Err(DecodeErr::BadType)
    }
}

/// Decode `n` frames from the front of `b`, in order.
pub open spec fn spec_decode_elems(b: Seq<u8>, n: nat) -> Result<(Seq<FrameView>, nat), DecodeErr>
    decreases b.len(), 1int, n,
{
    if n == 0 {
        Result::Ok((Seq::empty(), 0))
    } else {
        match spec_decode(b) {
            Result::Err(e) => Result::Err(e),
            Result::Ok((f, k)) => if k == 0 || k > b.len() {
                Result::Err(DecodeErr::BadFrame)
            } else {
                match spec_decode_elems(b.skip(k as int), (n - 1) as nat) {
                    Result::Err(e) => Result::Err(e),
                    Result::Ok((fs, m)) => Result::Ok((seq![f] + fs, (k + m) as nat)),
                }
            },
        }
    }
}

/// Decode `n` map entries from the front of `b`: each a simple-string key
/// line followed by a value frame, folded into `acc` with map semantics.
pub open spec fn spec_decode_entries(
    b: Seq<u8>,
    n: nat,
    acc: Seq<(Seq<char>, FrameView)>,
) -> Result<(Seq<(Seq<char>, FrameView)>, nat), DecodeErr>
    decreases b.len(), 1int, n,
{
    if n == 0 {
        Result::Ok((acc, 0))
    } else {
        match spec_simple_line(b, seq![43u8]) {
            Result::Err(e) => Result::Err(e),
            Result::Ok(end) => if end < 1 || end + 2 > b.len() {
                Result::Err(DecodeErr::BadFrame)
            } else {
                let payload = b.subrange(1, end);
                if !vstd::utf8::valid_utf8(payload) {
                    Result::Err(DecodeErr::BadUtf8)
                } else {
                    let key = vstd::utf8::decode_utf8(payload);
                    match spec_decode(b.skip(end + 2)) {
                        Result::Err(e) => Result::Err(e),
                        Result::Ok((v, k)) => if end + 2 + k > b.len() {
                            Result::Err(DecodeErr::BadFrame)
                        } else {
                            match spec_decode_entries(
                                b.skip(end + 2 + k),
                                (n - 1) as nat,
                                upsert(acc, key, v),
                            ) {
                                Result::Err(e) => Result::Err(e),
                                Result::Ok((entries, m)) => Result::Ok(
                                    (entries, (end + 2 + k + m) as nat),
                                ),
                            }
                        },
                    }
                }
            },
        }
    }
}

/// Distinct keys in an entry list.
pub open spec fn distinct_keys(entries: Seq<(Seq<char>, FrameView)>) -> bool {
    forall|i: int, j: int|
        0 <= i < j < entries.len() ==> (#[trigger] entries[i]).0 != (#[trigger] entries[j]).0
}

/// The frames whose one wire representation decodes back to the same value:
/// text payloads must not contain the CR LF pair, doubles must carry float
/// text with an explicit sign, lengths must fit the machine word, and map
/// keys must be distinct.
pub open spec fn wf_frame(f: FrameView) -> bool
    decreases f, 1int,
{
    match f {
        FrameView::Simple(s) => crlf_free(encode_utf8(s)),
        FrameView::Error(s) => crlf_free(encode_utf8(s)),
        FrameView::Integer(i) => i64::MIN <= i <= i64::MAX,
        FrameView::Bulk(od) => match od {
            Option::Some(d) => d.len() + 32 <= usize::MAX,
            Option::None => true,
        },
        FrameView::Array(es) => es.len() <= usize::MAX && wf_elems(es),
        FrameView::NullArray => true,
        FrameView::Null => true,
        FrameView::Boolean(_) => true,
        FrameView::Double(t) => is_float_text(encode_utf8(t)) && encode_utf8(t).len() >= 1 && (
        encode_utf8(t)[0] == 43 || encode_utf8(t)[0] == 45),
        FrameView::Mapping(entries) => entries.len() <= usize::MAX && distinct_keys(entries)
            && wf_entries(entries),
        FrameView::Collection(es) => es.len() <= usize::MAX && wf_elems(es),
    }
}

pub open spec fn wf_elems(es: Seq<FrameView>) -> bool
    decreases es, 0int,
{
    if es.len() == 0 {
        true
    } else {
        wf_frame(es[0]) && wf_elems(es.drop_first())
    }
}

pub open spec fn wf_entries(entries: Seq<(Seq<char>, FrameView)>) -> bool
    decreases entries, 0int,
{
    if entries.len() == 0 {
        true
    } else {
        crlf_free(encode_utf8(entries[0].0)) && wf_frame(entries[0].1)
            && wf_entries(entries.drop_first())
    }
}


/// What a successful CRLF search means: the pair is there, within bounds,
/// and no pair comes earlier in the scanned range.
pub proof fn lemma_find_crlf_at_some(b: Seq<u8>, i: int, j: int)
    requires
        0 <= i,
        find_crlf_at(b, i) == Option::Some(j),
    ensures
        i <= j,
        j + 1 < b.len(),
        b[j] == CR,
        b[j + 1] == LF,
        forall|k: int| i <= k < j ==> !(#[trigger] b[k] == CR && b[k + 1] == LF),
    decreases b.len() - i,
{
    if i + 1 >= b.len() {
    } else if b[i] == CR && b[i + 1] == LF {
    } else {
        lemma_find_crlf_at_some(b, i + 1, j);
    }
}

/// A failed CRLF search means no pair from the start of the scanned range.
pub proof fn lemma_find_crlf_at_none(b: Seq<u8>, i: int)
    requires
        0 <= i,
        find_crlf_at(b, i) == Option::<int>::None,
    ensures
        forall|k: int| i <= k < b.len() - 1 ==> !(#[trigger] b[k] == CR && b[k + 1] == LF),
    decreases b.len() - i,
{
    if i + 1 >= b.len() {
    } else {
        lemma_find_crlf_at_none(b, i + 1);
    }
}

/// The search finds a pair known to be first.
pub proof fn lemma_find_crlf_first(b: Seq<u8>, j: int)
    requires
        0 <= j,
        j + 1 < b.len(),
        b[j] == CR,
        b[j + 1] == LF,
        forall|k: int| 0 <= k < j ==> !(#[trigger] b[k] == CR && b[k + 1] == LF),
    ensures
        find_crlf(b) == Option::Some(j),
{
    lemma_find_crlf_first_from(b, 0, j);
}

pub proof fn lemma_find_crlf_first_from(b: Seq<u8>, i: int, j: int)
    requires
        0 <= i <= j,
        j + 1 < b.len(),
        b[j] == CR,
        b[j + 1] == LF,
        forall|k: int| i <= k < j ==> !(#[trigger] b[k] == CR && b[k + 1] == LF),
    ensures
        find_crlf_at(b, i) == Option::Some(j),
    decreases j - i,
{
    if i < j {
        lemma_find_crlf_first_from(b, i + 1, j);
    }
}

/// Appending one frame to a sequence appends its encoding.
pub proof fn lemma_encode_elems_snoc(es: Seq<FrameView>, x: FrameView)
    ensures
        encode_elems(es.push(x)) == encode_elems(es) + encode_frame(x),
    decreases es.len(),
{
    if es.len() == 0 {
        assert(es.push(x)[0] == x);
        assert(es.push(x).drop_first() =~= Seq::<FrameView>::empty());
        assert(encode_elems(Seq::<FrameView>::empty()) == Seq::<u8>::empty());
        assert(encode_elems(es.push(x)) =~= encode_elems(es) + encode_frame(x));
    } else {
        assert(es.push(x)[0] == es[0]);
        assert(es.push(x).drop_first() =~= es.drop_first().push(x));
        lemma_encode_elems_snoc(es.drop_first(), x);
        assert(encode_elems(es.push(x)) =~= encode_elems(es) + encode_frame(x));
    }
}

/// Appending one entry to an entry list appends its key line and value
/// encoding.
pub proof fn lemma_encode_entries_snoc(es: Seq<(Seq<char>, FrameView)>, x: (Seq<char>, FrameView))
    ensures
        encode_entries(es.push(x)) == encode_entries(es) + line(43u8, encode_utf8(x.0))
            + encode_frame(x.1),
    decreases es.len(),
{
    if es.len() == 0 {
        assert(es.push(x)[0] == x);
        assert(es.push(x).drop_first() =~= Seq::<(Seq<char>, FrameView)>::empty());
        assert(encode_entries(Seq::<(Seq<char>, FrameView)>::empty()) == Seq::<u8>::empty());
        assert(encode_entries(es.push(x)) =~= encode_entries(es) + line(43u8, encode_utf8(x.0))
            + encode_frame(x.1));
    } else {
        assert(es.push(x)[0] == es[0]);
        assert(es.push(x).drop_first() =~= es.drop_first().push(x));
        lemma_encode_entries_snoc(es.drop_first(), x);
        assert(encode_entries(es.push(x)) =~= encode_entries(es) + line(43u8, encode_utf8(x.0))
            + encode_frame(x.1));
    }
}


/// What the total-length helper computes: for the nested types the walk
/// from just after the length line, for anything else the payload length
/// plus the CRLF.
pub open spec fn spec_calc_total(b: Seq<u8>, end: int, len: nat, p: u8) -> Result<nat, DecodeErr> {
    if p == 42 || p == 126 {
        match spec_calc_elems(b.skip(end + 2), len) {
            Result::Ok(t) => Result::Ok((end + 2 + t) as nat),
            Result::Err(e) => Result::Err(e),
        }
    } else if p == 37 {
        match spec_calc_elems(b.skip(end + 2), 2 * len) {
            Result::Ok(t) => Result::Ok((end + 2 + t) as nat),
            Result::Err(e) => Result::Err(e),
        }
    } else {
        Result::Ok((len + 2) as nat)
    }
}

/// Between a position and its digit run's end, every byte is a digit.
pub proof fn lemma_digits_end_all(t: Seq<u8>, s: int, e: int)
    requires
        0 <= s,
        e == digits_end(t, s),
    ensures
        s <= e <= t.len() || e == s,
        forall|j: int| s <= j < e ==> is_dec_digit(#[trigger] t[j]),
    decreases t.len() - s,
{
    if s < t.len() && is_dec_digit(t[s]) {
        lemma_digits_end_all(t, s + 1, e);
    }
}

/// The end of a digit run is bounded and past its start.
pub proof fn lemma_digits_end_bounds(t: Seq<u8>, s: int)
    requires
        0 <= s <= t.len(),
    ensures
        s <= digits_end(t, s) <= t.len(),
    decreases t.len() - s,
{
    if s < t.len() && is_dec_digit(t[s]) {
        lemma_digits_end_bounds(t, s + 1);
    }
}

/// Float text holds neither CR nor LF, so it is CRLF-free.
pub proof fn lemma_float_text_crlf_free(b: Seq<u8>)
    requires
        is_float_text(b),
    ensures
        crlf_free(b),
{
    let body = if b.len() >= 1 && (b[0] == 43 || b[0] == 45) {
        b.drop_first()
    } else {
        b
    };
    let off: int = if b.len() >= 1 && (b[0] == 43 || b[0] == 45) {
        1
    } else {
        0
    };
    if float_body(body) {
        let e1 = digits_end(body, 0);
        lemma_digits_end_bounds(body, 0);
        lemma_digits_end_all(body, 0, e1);
        assert forall|i: int| 0 <= i < body.len() implies #[trigger] body[i] != CR && body[i]
            != LF by {
            if i < e1 {
            } else if e1 == body.len() {
            } else if body[e1] == 46 {
                let e2 = digits_end(body, e1 + 1);
                lemma_digits_end_bounds(body, e1 + 1);
                lemma_digits_end_all(body, e1 + 1, e2);
                if i == e1 {
                } else if i < e2 {
                } else {
                    lemma_exponent_bytes(body.skip(e2), i - e2);
                    assert(body.skip(e2)[i - e2] == body[i]);
                }
            } else {
                lemma_exponent_bytes(body.skip(e1), i - e1);
                assert(body.skip(e1)[i - e1] == body[i]);
            }
        }
    } else {
        lemma_keyword_bytes(body);
    }
    assert forall|i: int| 0 <= i < b.len() - 1 implies !(#[trigger] b[i] == CR && b[i + 1] == LF)
        by {
        if i >= off {
            assert(b[i] == body[i - off]);
        }
    }
}

/// No byte of a float keyword is CR or LF.
pub proof fn lemma_keyword_bytes(b: Seq<u8>)
    requires
        float_keyword(b),
    ensures
        forall|i: int| 0 <= i < b.len() ==> #[trigger] b[i] != CR && b[i] != LF,
{
    broadcast use vstd::utf8::is_ascii_chars_encode_utf8;

    reveal_strlit("inf");
    reveal_strlit("infinity");
    reveal_strlit("nan");
    assert(vstd::utf8::is_ascii_chars("inf"@));
    assert(vstd::utf8::is_ascii_chars("infinity"@));
    assert(vstd::utf8::is_ascii_chars("nan"@));
    let l = ascii_lower(b);
    assert forall|i: int| 0 <= i < b.len() implies #[trigger] b[i] != CR && b[i] != LF by {
        assert(l[i] == if 65 <= b[i] <= 90 {
            (b[i] + 32) as u8
        } else {
            b[i]
        });
        assert(l[i] != CR && l[i] != LF);
    }
}

/// No byte of a well-formed exponent part is CR or LF.
pub proof fn lemma_exponent_bytes(t: Seq<u8>, i: int)
    requires
        exponent_ok(t),
        0 <= i < t.len(),
    ensures
        t[i] != CR && t[i] != LF,
{
    if t.len() > 0 {
        let s: int = if t.len() >= 2 && (t[1] == 43 || t[1] == 45) {
            2
        } else {
            1
        };
        lemma_digits_end_all(t, s, digits_end(t, s));
    }
}

/// Every encoded frame is at least three bytes long.
pub proof fn lemma_encode_len_pos(f: FrameView)
    ensures
        3 <= encode_frame(f).len(),
{
    match f {
        FrameView::Integer(i) => {
            assert(signed_rep(i).len() >= 2) by {
                if i >= 0 {
                    assert(dec_rep(i as nat).len() >= 1);
                } else {
                    assert(dec_rep((-i) as nat).len() >= 1);
                }
            }
        },
        FrameView::Array(es) => {
            assert(dec_rep(es.len()).len() >= 1);
        },
        FrameView::Mapping(entries) => {
            assert(dec_rep(entries.len()).len() >= 1);
        },
        FrameView::Collection(es) => {
            assert(dec_rep(es.len()).len() >= 1);
        },
        FrameView::Bulk(od) => {
            match od {
                Option::Some(d) => {
                    assert(dec_rep(d.len()).len() >= 1);
                },
                Option::None => {},
            }
        },
        _ => {},
    }
}


/// With no CRLF pair anywhere, the search fails.
pub proof fn lemma_find_crlf_none(b: Seq<u8>)
    requires
        forall|k: int| 0 <= k < b.len() - 1 ==> !(#[trigger] b[k] == CR && b[k + 1] == LF),
    ensures
        find_crlf(b) == Option::<int>::None,
{
    lemma_find_crlf_none_from(b, 0);
}

pub proof fn lemma_find_crlf_none_from(b: Seq<u8>, i: int)
    requires
        0 <= i,
        forall|k: int| i <= k < b.len() - 1 ==> !(#[trigger] b[k] == CR && b[k + 1] == LF),
    ensures
        find_crlf_at(b, i) == Option::<int>::None,
    decreases b.len() - i,
{
    if i + 1 < b.len() {
        lemma_find_crlf_none_from(b, i + 1);
    }
}

/// Prepending a `+` to a character sequence prepends its one-byte
/// encoding.
pub proof fn lemma_encode_utf8_plus(t: Seq<char>)
    ensures
        encode_utf8(seq!['+'] + t) == seq![43u8] + encode_utf8(t),
{
    let s = seq!['+'] + t;
    assert(s.len() >= 1 && s[0] == '+');
    assert(s.drop_first() =~= t);
    let v: u32 = '+' as u32;
    assert(v == 43);
    assert(vstd::utf8::has_width_1_encoding(v));
    assert(vstd::utf8::leading_byte_width_1(v) == 43) by (bit_vector)
        requires
            v == 43,
    ;
    assert(vstd::utf8::encode_scalar(v) =~= seq![43u8]);
    assert(encode_utf8(s) =~= seq![43u8] + encode_utf8(t));
}

} // verus!
