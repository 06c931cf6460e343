//! The laws of the codec: a frame's one wire form decodes back to the
//! frame, whatever bytes follow it, and any strict prefix of that form is
//! reported as not complete.  Well-formedness, [`crate::wire::wf_frame`],
//! names the frames for which this holds: line payloads free of CRLF,
//! float text in doubles, distinct map keys, and lengths that fit the
//! machine word.
use vstd::prelude::*;
use crate::wire::{
    all_digits, bool_false_wire, bool_true_wire, crlf, crlf_free, dec_rep, digit_val, digits_val,
    distinct_keys, encode_elems, encode_entries, encode_frame, find_crlf, is_dec_digit, line,
    null_array_wire, null_bulk_wire, null_wire, signed_rep, spec_calc_elems, spec_decode,
    spec_decode_bool, spec_decode_bulk, spec_decode_double, spec_decode_elems,
    spec_decode_entries, spec_decode_integer, spec_decode_text, spec_expect_length, spec_fixed,
    spec_parse_i64, spec_parse_length, spec_parse_usize, spec_simple_line, strict_prefix_of,
    upsert, wf_elems, wf_entries, wf_frame, DecodeErr, FrameView, CR, LF,
};
use vstd::utf8::{decode_utf8, encode_utf8, valid_utf8};

verus! {

broadcast use vstd::seq::axiom_seq_index_decreases, vstd::seq::axiom_seq_subrange_decreases;

/// Ten to the `k`.
pub open spec fn pow10(k: nat) -> nat
    decreases k,
{
    if k == 0 {
        1
    } else {
        10 * pow10((k - 1) as nat)
    }
}

/// The decimal rendering of a number under `pow10(k)` has at most `k`
/// digits.
pub proof fn lemma_dec_rep_len(n: nat, k: nat)
    requires
        k >= 1,
        n < pow10(k),
    ensures
        1 <= dec_rep(n).len() <= k,
    decreases k,
{
    if n < 10 {
    } else {
        assert(pow10(k) == 10 * pow10((k - 1) as nat));
        assert(n / 10 < pow10((k - 1) as nat)) by (nonlinear_arith)
            requires
                n < 10 * pow10((k - 1) as nat),
                n >= 10,
        ;
        lemma_dec_rep_len(n / 10, (k - 1) as nat);
    }
}

/// Any machine-word value has at most twenty digits.
pub proof fn lemma_dec_rep_len_usize(n: nat)
    requires
        n <= usize::MAX,
    ensures
        1 <= dec_rep(n).len() <= 20,
{
    assert(pow10(20) == 100000000000000000000) by {
        assert(pow10(0) == 1);
        assert(pow10(1) == 10);
        assert(pow10(2) == 100);
        assert(pow10(3) == 1000);
        assert(pow10(4) == 10000);
        assert(pow10(5) == 100000);
        assert(pow10(6) == 1000000);
        assert(pow10(7) == 10000000);
        assert(pow10(8) == 100000000);
        assert(pow10(9) == 1000000000);
        assert(pow10(10) == 10000000000);
        assert(pow10(11) == 100000000000);
        assert(pow10(12) == 1000000000000);
        assert(pow10(13) == 10000000000000);
        assert(pow10(14) == 100000000000000);
        assert(pow10(15) == 1000000000000000);
        assert(pow10(16) == 10000000000000000);
        assert(pow10(17) == 100000000000000000);
        assert(pow10(18) == 1000000000000000000);
        assert(pow10(19) == 10000000000000000000);
        assert(pow10(20) == 100000000000000000000);
    }
    lemma_dec_rep_len(n, 20);
}

/// A decimal rendering is digits through and through, and reads back as
/// the number it renders.
pub proof fn lemma_dec_rep_digits(n: nat)
    ensures
        all_digits(dec_rep(n)),
        digits_val(dec_rep(n)) == n,
    decreases n,
{
    if n < 10 {
        assert(dec_rep(n) =~= seq![(48 + n) as u8]);
        assert(dec_rep(n).drop_last() =~= Seq::<u8>::empty());
        assert(dec_rep(n).last() == (48 + n) as u8);
        assert(digits_val(dec_rep(n)) == digits_val(Seq::<u8>::empty()) * 10 + digit_val(
            (48 + n) as u8,
        ));
    } else {
        lemma_dec_rep_digits(n / 10);
        let d = dec_rep(n / 10);
        assert(dec_rep(n) == d.push(dec_digit_of(n % 10)));
        assert(dec_rep(n).drop_last() =~= d);
        assert(dec_rep(n).last() == dec_digit_of(n % 10));
        assert(digits_val(dec_rep(n)) == digits_val(d) * 10 + (n % 10));
        assert(n / 10 * 10 + n % 10 == n) by (nonlinear_arith);
        assert forall|i: int| 0 <= i < dec_rep(n).len() implies is_dec_digit(
            #[trigger] dec_rep(n)[i],
        ) by {
            if i < d.len() {
                assert(dec_rep(n)[i] == d[i]);
            }
        }
    }
}

/// The digit byte of a value below ten.
pub open spec fn dec_digit_of(d: nat) -> u8 {
    (48 + d) as u8
}

/// Digits contain no CR and no LF.
pub proof fn lemma_digits_crlf_free(b: Seq<u8>)
    requires
        forall|i: int| 0 <= i < b.len() ==> is_dec_digit(#[trigger] b[i]),
    ensures
        crlf_free(b),
        forall|i: int| 0 <= i < b.len() ==> #[trigger] b[i] != CR && b[i] != LF,
{
}

/// A rendered unsigned length parses back to its value.
pub proof fn lemma_parse_usize_dec(n: nat)
    requires
        n <= usize::MAX,
    ensures
        spec_parse_usize(dec_rep(n)) == Result::<nat, DecodeErr>::Ok(n),
{
    lemma_dec_rep_digits(n);
    assert(dec_rep(n)[0] != 43);
}

/// A rendered signed integer parses back to its value.
pub proof fn lemma_parse_i64_signed(i: int)
    requires
        i64::MIN <= i <= i64::MAX,
    ensures
        spec_parse_i64(signed_rep(i)) == Result::<int, DecodeErr>::Ok(i),
{
    if i >= 0 {
        lemma_dec_rep_digits(i as nat);
        assert(signed_rep(i).drop_first() =~= dec_rep(i as nat));
        assert(signed_rep(i)[0] == 43);
    } else {
        lemma_dec_rep_digits((-i) as nat);
        assert(signed_rep(i).drop_first() =~= dec_rep((-i) as nat));
        assert(signed_rep(i)[0] == 45);
    }
}

/// Where a line's payload is CRLF-free, the scanner finds exactly the
/// appended CRLF, whatever follows the line.
pub proof fn lemma_line_scan(p: u8, payload: Seq<u8>, rest: Seq<u8>)
    requires
        p != CR,
        crlf_free(payload),
    ensures
        spec_simple_line(line(p, payload) + rest, seq![p]) == Result::<int, DecodeErr>::Ok(
            1 + payload.len() as int,
        ),
        (line(p, payload) + rest).subrange(1, 1 + payload.len() as int) == payload,
{
    let b = line(p, payload) + rest;
    let e = 1 + payload.len() as int;
    assert(b.len() == payload.len() + 3 + rest.len());
    assert(b[e] == CR && b[e + 1] == LF);
    assert forall|k: int| 0 <= k < e implies !(#[trigger] b[k] == CR && b[k + 1] == LF) by {
        if k == 0 {
            assert(b[0] == p);
        } else if k < e - 1 {
            assert(b[k] == payload[k - 1] && b[k + 1] == payload[k]);
        } else {
            assert(b[k + 1] == CR);
        }
    }
    crate::wire::lemma_find_crlf_first(b, e);
    assert(seq![p].is_prefix_of(b)) by {
        assert(seq![p] =~= b.subrange(0, 1));
    }
    assert(b.subrange(1, e) =~= payload);
}

/// A rendered length line parses back: the line ends after the digits and
/// carries the rendered number.
pub proof fn lemma_length_line(p: u8, n: nat, tail: Seq<u8>)
    requires
        p != CR,
        n <= usize::MAX,
    ensures
        spec_parse_length(seq![p] + dec_rep(n) + crlf() + tail, seq![p]) == Result::<
            (int, nat),
            DecodeErr,
        >::Ok((1 + dec_rep(n).len() as int, n)),
{
    lemma_dec_rep_digits(n);
    lemma_digits_crlf_free(dec_rep(n));
    lemma_line_scan(p, dec_rep(n), tail);
    assert(seq![p] + dec_rep(n) + crlf() + tail =~= line(p, dec_rep(n)) + tail);
    lemma_parse_usize_dec(n);
}

/// The completeness probe accepts a well-formed frame's encoding, whatever
/// follows it, and reports exactly its length.
pub proof fn lemma_probe(f: FrameView, rest: Seq<u8>)
    requires
        wf_frame(f),
    ensures
        spec_expect_length(encode_frame(f) + rest) == Result::<nat, DecodeErr>::Ok(
            encode_frame(f).len() as nat,
        ),
    decreases f, 0int,
{
    let b = encode_frame(f) + rest;
    match f {
        FrameView::Simple(s) => {
            lemma_line_scan(43, encode_utf8(s), rest);
            assert(b =~= line(43u8, encode_utf8(s)) + rest);
            assert(b[0] == 43);
        },
        FrameView::Error(s) => {
            lemma_line_scan(45, encode_utf8(s), rest);
            assert(b =~= line(45u8, encode_utf8(s)) + rest);
            assert(b[0] == 45);
        },
        FrameView::Integer(i) => {
            assert(crlf_free(signed_rep(i))) by {
                if i >= 0 {
                    lemma_dec_rep_digits(i as nat);
                    lemma_digits_crlf_free(dec_rep(i as nat));
                } else {
                    lemma_dec_rep_digits((-i) as nat);
                    lemma_digits_crlf_free(dec_rep((-i) as nat));
                }
                assert forall|k: int| 0 <= k < signed_rep(i).len() - 1 implies !(
                #[trigger] signed_rep(i)[k] == CR && signed_rep(i)[k + 1] == LF) by {
                    if k > 0 {
                        if i >= 0 {
                            assert(signed_rep(i)[k] == dec_rep(i as nat)[k - 1]);
                        } else {
                            assert(signed_rep(i)[k] == dec_rep((-i) as nat)[k - 1]);
                        }
                    }
                }
            }
            lemma_line_scan(58, signed_rep(i), rest);
            assert(b =~= line(58u8, signed_rep(i)) + rest);
            assert(b[0] == 58);
        },
        FrameView::Double(t) => {
            crate::wire::lemma_float_text_crlf_free(encode_utf8(t));
            lemma_line_scan(44, encode_utf8(t), rest);
            assert(b =~= line(44u8, encode_utf8(t)) + rest);
            assert(b[0] == 44);
        },
        FrameView::Boolean(v) => {
            assert(b[0] == 35);
            assert(encode_frame(f).len() == 4);
        },
        FrameView::Null => {
            assert(b[0] == 95);
            assert(encode_frame(f).len() == 3);
        },
        FrameView::NullArray => {
            assert(b[0] == 42);
            assert(b.take(5) =~= null_array_wire());
            assert(spec_fixed(b, null_array_wire()) == Result::<int, DecodeErr>::Ok(5));
        },
        FrameView::Bulk(od) => {
            match od {
                Option::None => {
                    assert(b[0] == 36);
                    assert(b.take(5) =~= null_bulk_wire());
                    assert(spec_fixed(b, null_bulk_wire()) == Result::<int, DecodeErr>::Ok(5));
                },
                Option::Some(d) => {
                    let ln = dec_rep(d.len());
                    lemma_dec_rep_digits(d.len());
                    lemma_dec_rep_len_usize(d.len());
                    assert(b[0] == 36);
                    assert(b[1] == ln[0]);
                    assert(is_dec_digit(ln[0]));
                    assert(b.len() >= 6);
                    assert(spec_fixed(b, null_bulk_wire()) == Result::<int, DecodeErr>::Err(
                        DecodeErr::BadType,
                    )) by {
                        assert(b.take(5)[1] == b[1]);
                        assert(null_bulk_wire()[1] == 45);
                        assert(b.take(5) != null_bulk_wire());
                        assert(!strict_prefix_of(b, null_bulk_wire()));
                    }
                    lemma_length_line(36, d.len(), d + crlf() + rest);
                    assert(b =~= seq![36u8] + ln + crlf() + (d + crlf() + rest));
                    assert(spec_parse_length(b, seq![36u8]) == Result::<(int, nat), DecodeErr>::Ok(
                        (1 + ln.len() as int, d.len()),
                    ));
                    assert(1 + ln.len() + 2 + d.len() + 2 <= usize::MAX);
                    assert(encode_frame(f).len() == 1 + ln.len() + 2 + d.len() + 2);
                },
            }
        },
        FrameView::Array(es) => {
            lemma_probe_seq_arm(42, es, rest);
        },
        FrameView::Collection(es) => {
            lemma_probe_seq_arm(126, es, rest);
        },
        FrameView::Mapping(entries) => {
            let ln = dec_rep(entries.len());
            lemma_dec_rep_digits(entries.len());
            assert(b[0] == 37);
            lemma_length_line(37, entries.len(), encode_entries(entries) + rest);
            assert(b =~= seq![37u8] + ln + crlf() + (encode_entries(entries) + rest));
            let end = 1 + ln.len() as int;
            assert(b.skip(end + 2) =~= encode_entries(entries) + rest);
            lemma_probe_entries(entries, rest);
            assert(encode_frame(f).len() == end + 2 + encode_entries(entries).len());
        },
    }
}

/// The probe of the array and set arms: length line, then the walk of the
/// declared number of elements.
pub proof fn lemma_probe_seq_arm(p: u8, es: Seq<FrameView>, rest: Seq<u8>)
    requires
        p == 42 || p == 126,
        es.len() <= usize::MAX,
        wf_elems(es),
    ensures
        spec_expect_length(
            (seq![p] + dec_rep(es.len()) + crlf() + encode_elems(es)) + rest,
        ) == Result::<nat, DecodeErr>::Ok(
            (seq![p] + dec_rep(es.len()) + crlf() + encode_elems(es)).len() as nat,
        ),
    decreases es, 1int, 1int,
{
    let enc = seq![p] + dec_rep(es.len()) + crlf() + encode_elems(es);
    let b = enc + rest;
    let ln = dec_rep(es.len());
    lemma_dec_rep_digits(es.len());
    assert(b[0] == p);
    if p == 42 {
        assert(b[1] == ln[0]);
        assert(is_dec_digit(ln[0]));
        assert(b.len() >= 4);
        assert(spec_fixed(b, null_array_wire()) == Result::<int, DecodeErr>::Err(
            DecodeErr::BadType,
        )) by {
            if b.len() >= 5 {
                assert(b.take(5)[1] == b[1]);
                assert(null_array_wire()[1] == 45);
                assert(b.take(5) != null_array_wire());
            }
            assert(!strict_prefix_of(b, null_array_wire())) by {
                if b.len() < 5 {
                    assert(null_array_wire().take(b.len() as int)[1] == 45);
                }
            }
        }
        assert(!(b.len() >= 5 && b.take(5) == null_array_wire()));
    }
    lemma_length_line(p, es.len(), encode_elems(es) + rest);
    assert(b =~= seq![p] + ln + crlf() + (encode_elems(es) + rest));
    let end = 1 + ln.len() as int;
    assert(b.skip(end + 2) =~= encode_elems(es) + rest);
    lemma_probe_elems(es, rest);
}

/// Walking the elements of a well-formed sequence probes each in turn and
/// sums to the whole encoding's length.
pub proof fn lemma_probe_elems(es: Seq<FrameView>, rest: Seq<u8>)
    requires
        wf_elems(es),
    ensures
        spec_calc_elems(encode_elems(es) + rest, es.len()) == Result::<nat, DecodeErr>::Ok(
            encode_elems(es).len() as nat,
        ),
    decreases es, 1int, 0int,
{
    if es.len() == 0 {
        assert(encode_elems(es) =~= Seq::<u8>::empty());
    } else {
        let head = encode_frame(es[0]);
        let tail = encode_elems(es.drop_first());
        assert(encode_elems(es) == head + tail);
        let b = encode_elems(es) + rest;
        assert(b =~= head + (tail + rest));
        lemma_probe(es[0], tail + rest);
        crate::wire::lemma_encode_len_pos(es[0]);
        assert(b.skip(head.len() as int) =~= tail + rest);
        lemma_probe_elems(es.drop_first(), rest);
    }
}

/// Walking the entries of a well-formed map probes each key line and each
/// value in turn, two frames per entry, and sums to the whole encoding's
/// length.
#[verifier::rlimit(60)]
pub proof fn lemma_probe_entries(entries: Seq<(Seq<char>, FrameView)>, rest: Seq<u8>)
    requires
        wf_entries(entries),
    ensures
        spec_calc_elems(encode_entries(entries) + rest, 2 * entries.len()) == Result::<
            nat,
            DecodeErr,
        >::Ok(encode_entries(entries).len() as nat),
    decreases entries, 1int, 0int,
{
    if entries.len() == 0 {
        assert(encode_entries(entries) =~= Seq::<u8>::empty());
    } else {
        let n2 = 2 * entries.len();
        let kline = line(43u8, encode_utf8(entries[0].0));
        let venc = encode_frame(entries[0].1);
        let tail = encode_entries(entries.drop_first());
        let kl = kline.len() as int;
        let vl = venc.len() as int;
        assert(encode_entries(entries) == kline + venc + tail);
        let b = encode_entries(entries) + rest;
        assert(b =~= kline + (venc + tail + rest));
        lemma_line_scan(43, encode_utf8(entries[0].0), venc + tail + rest);
        assert(b[0] == 43);
        assert(spec_expect_length(b) == Result::<nat, DecodeErr>::Ok(kline.len() as nat));
        assert(b.skip(kl) =~= venc + (tail + rest));
        lemma_probe(entries[0].1, tail + rest);
        assert(spec_expect_length(b.skip(kl)) == Result::<nat, DecodeErr>::Ok(venc.len() as nat));
        crate::wire::lemma_encode_len_pos(entries[0].1);
        assert(b.skip(kl).skip(vl) =~= tail + rest);
        assert(b.skip(kl + vl) =~= tail + rest);
        lemma_probe_entries(entries.drop_first(), rest);
        assert(2 * entries.len() - 2 == 2 * entries.drop_first().len());
        assert(spec_calc_elems(b.skip(kl).skip(vl), (n2 - 2) as nat) == Result::<
            nat,
            DecodeErr,
        >::Ok(tail.len() as nat));
        assert(spec_calc_elems(b.skip(kl), (n2 - 1) as nat) == Result::<nat, DecodeErr>::Ok(
            (venc.len() + tail.len()) as nat,
        ));
        assert(spec_calc_elems(b, n2) == Result::<nat, DecodeErr>::Ok(
            (kline.len() + venc.len() + tail.len()) as nat,
        ));
    }
}

/// Round trip: a well-formed frame's one wire form decodes back to
/// exactly that frame, consuming exactly its bytes, whatever follows it
/// in the buffer.
#[verifier::rlimit(100)]
pub proof fn lemma_round_trip(f: FrameView, rest: Seq<u8>)
    requires
        wf_frame(f),
    ensures
        spec_decode(encode_frame(f) + rest) == Result::<(FrameView, nat), DecodeErr>::Ok(
            (f, encode_frame(f).len() as nat),
        ),
    decreases f, 2int, 0int,
{
    let b = encode_frame(f) + rest;
    match f {
        FrameView::Simple(s) => {
            lemma_line_scan(43, encode_utf8(s), rest);
            assert(b =~= line(43u8, encode_utf8(s)) + rest);
            assert(b[0] == 43);
            vstd::utf8::encode_utf8_valid_utf8(s);
            vstd::utf8::encode_utf8_decode_utf8(s);
        },
        FrameView::Error(s) => {
            lemma_line_scan(45, encode_utf8(s), rest);
            assert(b =~= line(45u8, encode_utf8(s)) + rest);
            assert(b[0] == 45);
            vstd::utf8::encode_utf8_valid_utf8(s);
            vstd::utf8::encode_utf8_decode_utf8(s);
        },
        FrameView::Integer(i) => {
            assert(crlf_free(signed_rep(i))) by {
                if i >= 0 {
                    lemma_dec_rep_digits(i as nat);
                    lemma_digits_crlf_free(dec_rep(i as nat));
                } else {
                    lemma_dec_rep_digits((-i) as nat);
                    lemma_digits_crlf_free(dec_rep((-i) as nat));
                }
                assert forall|k: int| 0 <= k < signed_rep(i).len() - 1 implies !(
                #[trigger] signed_rep(i)[k] == CR && signed_rep(i)[k + 1] == LF) by {
                    if k > 0 {
                        if i >= 0 {
                            assert(signed_rep(i)[k] == dec_rep(i as nat)[k - 1]);
                        } else {
                            assert(signed_rep(i)[k] == dec_rep((-i) as nat)[k - 1]);
                        }
                    }
                }
            }
            lemma_line_scan(58, signed_rep(i), rest);
            assert(b =~= line(58u8, signed_rep(i)) + rest);
            assert(b[0] == 58);
            lemma_parse_i64_signed(i);
        },
        FrameView::Double(t) => {
            crate::wire::lemma_float_text_crlf_free(encode_utf8(t));
            lemma_line_scan(44, encode_utf8(t), rest);
            assert(b =~= line(44u8, encode_utf8(t)) + rest);
            assert(b[0] == 44);
            vstd::utf8::encode_utf8_valid_utf8(t);
            vstd::utf8::encode_utf8_decode_utf8(t);
        },
        FrameView::Boolean(v) => {
            assert(b[0] == 35);
            if v {
                assert(b.take(4) =~= bool_true_wire());
                assert(spec_fixed(b, bool_true_wire()) == Result::<int, DecodeErr>::Ok(4));
            } else {
                assert(b.take(4) =~= bool_false_wire());
                assert(b.take(4)[1] == 102);
                assert(spec_fixed(b, bool_true_wire()) == Result::<int, DecodeErr>::Err(
                    DecodeErr::BadType,
                )) by {
                    assert(bool_true_wire()[1] == 116);
                    if b.len() >= 4 {
                        assert(b.take(4) != bool_true_wire());
                    }
                    assert(!strict_prefix_of(b, bool_true_wire()));
                }
                assert(spec_fixed(b, bool_false_wire()) == Result::<int, DecodeErr>::Ok(4));
            }
        },
        FrameView::Null => {
            assert(b[0] == 95);
            assert(b.take(3) =~= null_wire());
            assert(spec_fixed(b, null_wire()) == Result::<int, DecodeErr>::Ok(3));
        },
        FrameView::NullArray => {
            assert(b[0] == 42);
            assert(b.take(5) =~= null_array_wire());
            assert(spec_fixed(b, null_array_wire()) == Result::<int, DecodeErr>::Ok(5));
        },
        FrameView::Bulk(od) => {
            match od {
                Option::None => {
                    assert(b[0] == 36);
                    assert(b.take(5) =~= null_bulk_wire());
                    assert(spec_fixed(b, null_bulk_wire()) == Result::<int, DecodeErr>::Ok(5));
                },
                Option::Some(d) => {
                    let ln = dec_rep(d.len());
                    lemma_dec_rep_digits(d.len());
                    assert(b[0] == 36);
                    assert(b[1] == ln[0]);
                    assert(is_dec_digit(ln[0]));
                    assert(b.len() >= 6);
                    assert(spec_fixed(b, null_bulk_wire()) == Result::<int, DecodeErr>::Err(
                        DecodeErr::BadType,
                    )) by {
                        assert(b.take(5)[1] == b[1]);
                        assert(null_bulk_wire()[1] == 45);
                        assert(b.take(5) != null_bulk_wire());
                        assert(!strict_prefix_of(b, null_bulk_wire()));
                    }
                    lemma_length_line(36, d.len(), d + crlf() + rest);
                    assert(b =~= seq![36u8] + ln + crlf() + (d + crlf() + rest));
                    let end = 1 + ln.len() as int;
                    assert(b.len() == end + 2 + d.len() + 2 + rest.len());
                    assert(b.subrange(end + 2, end + 2 + d.len() as int) =~= d);
                    assert(encode_frame(f).len() == end + 2 + d.len() + 2);
                },
            }
        },
        FrameView::Array(es) => {
            lemma_rt_seq_arm(42, es, rest);
        },
        FrameView::Collection(es) => {
            lemma_rt_seq_arm(126, es, rest);
        },
        FrameView::Mapping(entries) => {
            let ln = dec_rep(entries.len());
            lemma_dec_rep_digits(entries.len());
            assert(b[0] == 37);
            lemma_length_line(37, entries.len(), encode_entries(entries) + rest);
            assert(b =~= seq![37u8] + ln + crlf() + (encode_entries(entries) + rest));
            let end = 1 + ln.len() as int;
            assert(b.skip(end + 2) =~= encode_entries(entries) + rest);
            lemma_probe_entries(entries, rest);
            lemma_rt_entries(entries, rest, Seq::empty());
            assert(Seq::<(Seq<char>, FrameView)>::empty() + entries =~= entries);
            assert(encode_frame(f).len() == end + 2 + encode_entries(entries).len());
        },
    }
}

/// Round trip of the array and set arms.
#[verifier::rlimit(60)]
pub proof fn lemma_rt_seq_arm(p: u8, es: Seq<FrameView>, rest: Seq<u8>)
    requires
        p == 42 || p == 126,
        es.len() <= usize::MAX,
        wf_elems(es),
    ensures
        spec_decode((seq![p] + dec_rep(es.len()) + crlf() + encode_elems(es)) + rest)
            == Result::<(FrameView, nat), DecodeErr>::Ok(
            (
                if p == 42 {
                    FrameView::Array(es)
                } else {
                    FrameView::Collection(es)
                },
                (seq![p] + dec_rep(es.len()) + crlf() + encode_elems(es)).len() as nat,
            ),
        ),
    decreases es, 3int, 1int,
{
    let enc = seq![p] + dec_rep(es.len()) + crlf() + encode_elems(es);
    let b = enc + rest;
    let ln = dec_rep(es.len());
    lemma_dec_rep_digits(es.len());
    assert(b[0] == p);
    if p == 42 {
        assert(b[1] == ln[0]);
        assert(is_dec_digit(ln[0]));
        assert(b.len() >= 4);
        assert(!(b.len() >= 5 && b.take(5) == null_array_wire())) by {
            if b.len() >= 5 {
                assert(b.take(5)[1] == b[1]);
                assert(null_array_wire()[1] == 45);
            }
        }
        assert(!strict_prefix_of(b, null_array_wire())) by {
            if b.len() < 5 {
                assert(null_array_wire().take(b.len() as int)[1] == 45);
            }
        }
    }
    lemma_length_line(p, es.len(), encode_elems(es) + rest);
    assert(b =~= seq![p] + ln + crlf() + (encode_elems(es) + rest));
    let end = 1 + ln.len() as int;
    assert(b.skip(end + 2) =~= encode_elems(es) + rest);
    lemma_probe_elems(es, rest);
    lemma_rt_elems(es, rest);
    assert(enc.len() == end + 2 + encode_elems(es).len());
}

/// Decoding the elements of a well-formed sequence yields them in order
/// and consumes exactly their encodings.
pub proof fn lemma_rt_elems(es: Seq<FrameView>, rest: Seq<u8>)
    requires
        wf_elems(es),
    ensures
        spec_decode_elems(encode_elems(es) + rest, es.len()) == Result::<
            (Seq<FrameView>, nat),
            DecodeErr,
        >::Ok((es, encode_elems(es).len() as nat)),
    decreases es, 3int, 0int,
{
    if es.len() == 0 {
        assert(encode_elems(es) =~= Seq::<u8>::empty());
        assert(es =~= Seq::<FrameView>::empty());
    } else {
        let head = encode_frame(es[0]);
        let tail = encode_elems(es.drop_first());
        assert(encode_elems(es) == head + tail);
        let b = encode_elems(es) + rest;
        assert(b =~= head + (tail + rest));
        lemma_round_trip(es[0], tail + rest);
        crate::wire::lemma_encode_len_pos(es[0]);
        assert(b.skip(head.len() as int) =~= tail + rest);
        lemma_rt_elems(es.drop_first(), rest);
        assert(seq![es[0]] + es.drop_first() =~= es);
    }
}

/// Decoding the entries of a well-formed map folds them into the running
/// list; with keys distinct from each other and from the accumulator,
/// each insertion appends, so the entries come out in wire order.
#[verifier::rlimit(60)]
pub proof fn lemma_rt_entries(
    entries: Seq<(Seq<char>, FrameView)>,
    rest: Seq<u8>,
    acc: Seq<(Seq<char>, FrameView)>,
)
    requires
        wf_entries(entries),
        distinct_keys(entries),
        forall|i: int, j: int|
            0 <= i < acc.len() && 0 <= j < entries.len() ==> (#[trigger] acc[i]).0 != (
            #[trigger] entries[j]).0,
    ensures
        spec_decode_entries(encode_entries(entries) + rest, entries.len(), acc) == Result::<
            (Seq<(Seq<char>, FrameView)>, nat),
            DecodeErr,
        >::Ok((acc + entries, encode_entries(entries).len() as nat)),
    decreases entries, 3int, 0int,
{
    if entries.len() == 0 {
        assert(encode_entries(entries) =~= Seq::<u8>::empty());
        assert(acc + entries =~= acc);
    } else {
        let k0 = entries[0].0;
        let v0 = entries[0].1;
        let kline = line(43u8, encode_utf8(k0));
        let venc = encode_frame(v0);
        let tail = encode_entries(entries.drop_first());
        let kl = kline.len() as int;
        let vl = venc.len() as int;
        assert(encode_entries(entries) == kline + venc + tail);
        let b = encode_entries(entries) + rest;
        assert(b =~= kline + (venc + tail + rest));
        lemma_line_scan(43, encode_utf8(k0), venc + tail + rest);
        vstd::utf8::encode_utf8_valid_utf8(k0);
        vstd::utf8::encode_utf8_decode_utf8(k0);
        assert(b.subrange(1, 1 + encode_utf8(k0).len() as int) == encode_utf8(k0));
        assert(b.skip(kl) =~= venc + (tail + rest));
        lemma_round_trip(v0, tail + rest);
        crate::wire::lemma_encode_len_pos(v0);
        assert(b.skip(kl).skip(vl) =~= tail + rest);
        assert(b.skip(kl + vl) =~= tail + rest);
        assert(forall|j: int| 0 <= j < acc.len() ==> (#[trigger] acc[j]).0 != k0);
        crate::resp::map::lemma_upsert_missing(acc, k0, v0);
        let acc2 = acc.push((k0, v0));
        assert(forall|i: int, j: int|
            0 <= i < acc2.len() && 0 <= j < entries.drop_first().len() ==> (#[trigger] acc2[i]).0
                != (#[trigger] entries.drop_first()[j]).0) by {
            assert forall|i: int, j: int|
                0 <= i < acc2.len() && 0 <= j < entries.drop_first().len() implies (
            #[trigger] acc2[i]).0 != (#[trigger] entries.drop_first()[j]).0 by {
                assert(entries.drop_first()[j] == entries[j + 1]);
                if i < acc.len() {
                    assert(acc2[i] == acc[i]);
                } else {
                    assert(acc2[i] == (k0, v0));
                }
            }
        }
        assert(distinct_keys(entries.drop_first())) by {
            assert forall|i: int, j: int|
                0 <= i < j < entries.drop_first().len() implies (
            #[trigger] entries.drop_first()[i]).0 != (#[trigger] entries.drop_first()[j]).0 by {
                assert(entries.drop_first()[i] == entries[i + 1]);
                assert(entries.drop_first()[j] == entries[j + 1]);
            }
        }
        assert(wf_entries(entries.drop_first()));
        lemma_rt_entries(entries.drop_first(), rest, acc2);
        assert(acc2 + entries.drop_first() =~= acc + entries);
    }
}

/// A strict prefix of a line has no CRLF pair, so the scanner reports it
/// incomplete.
pub proof fn lemma_line_prefix_scan(p: u8, payload: Seq<u8>, j: int)
    requires
        p != CR,
        crlf_free(payload),
        0 <= j < line(p, payload).len(),
    ensures
        spec_simple_line(line(p, payload).take(j), seq![p]) == Result::<int, DecodeErr>::Err(
            DecodeErr::Incomplete,
        ),
{
    let full = line(p, payload);
    let b = full.take(j);
    if j >= 3 {
        assert(seq![p].is_prefix_of(b)) by {
            assert(seq![p] =~= b.subrange(0, 1));
        }
        assert forall|k: int| 0 <= k < b.len() - 1 implies !(#[trigger] b[k] == CR && b[k + 1]
            == LF) by {
            assert(b[k] == full[k] && b[k + 1] == full[k + 1]);
            if k == 0 {
            } else if k < payload.len() as int {
                assert(full[k] == payload[k - 1] && full[k + 1] == payload[k]);
            } else {
                assert(k == payload.len() as int);
                assert(full[k + 1] == CR);
            }
        }
        crate::wire::lemma_find_crlf_none(b);
    }
}

/// The completeness probe never accepts a strict prefix of a well-formed
/// frame's encoding short: it reports it incomplete, or already knows the
/// frame's full length from the length fields alone.
pub proof fn lemma_probe_prefix(f: FrameView, j: int)
    requires
        wf_frame(f),
        0 <= j < encode_frame(f).len(),
    ensures
        spec_expect_length(encode_frame(f).take(j)) == Result::<nat, DecodeErr>::Err(
            DecodeErr::Incomplete,
        ) || spec_expect_length(encode_frame(f).take(j)) == Result::<nat, DecodeErr>::Ok(
            encode_frame(f).len() as nat,
        ),
    decreases f, 0int, 0int,
{
    let enc = encode_frame(f);
    let b = enc.take(j);
    if j == 0 {
        return ;
    }
    match f {
        FrameView::Simple(s) => {
            assert(b =~= line(43u8, encode_utf8(s)).take(j));
            lemma_line_prefix_scan(43, encode_utf8(s), j);
            assert(b[0] == 43);
        },
        FrameView::Error(s) => {
            assert(b =~= line(45u8, encode_utf8(s)).take(j));
            lemma_line_prefix_scan(45, encode_utf8(s), j);
            assert(b[0] == 45);
        },
        FrameView::Integer(i) => {
            lemma_signed_rep_crlf_free(i);
            assert(b =~= line(58u8, signed_rep(i)).take(j));
            lemma_line_prefix_scan(58, signed_rep(i), j);
            assert(b[0] == 58);
        },
        FrameView::Double(t) => {
            crate::wire::lemma_float_text_crlf_free(encode_utf8(t));
            assert(b =~= line(44u8, encode_utf8(t)).take(j));
            lemma_line_prefix_scan(44, encode_utf8(t), j);
            assert(b[0] == 44);
        },
        FrameView::Boolean(_) => {
            assert(b[0] == 35);
        },
        FrameView::Null => {
            assert(b[0] == 95);
        },
        FrameView::NullArray => {
            assert(b[0] == 42);
            assert(strict_prefix_of(b, null_array_wire())) by {
                assert(b =~= null_array_wire().take(j));
            }
            assert(spec_fixed(b, null_array_wire()) == Result::<int, DecodeErr>::Err(
                DecodeErr::Incomplete,
            )) by {
                assert(b.len() < 5);
            }
        },
        FrameView::Bulk(od) => {
            match od {
                Option::None => {
                    assert(b[0] == 36);
                    assert(strict_prefix_of(b, null_bulk_wire())) by {
                        assert(b =~= null_bulk_wire().take(j));
                    }
                    assert(spec_fixed(b, null_bulk_wire()) == Result::<int, DecodeErr>::Err(
                        DecodeErr::Incomplete,
                    )) by {
                        assert(b.len() < 5);
                    }
                },
                Option::Some(d) => {
                    lemma_bulk_prefix(d, j);
                },
            }
        },
        FrameView::Array(es) => {
            lemma_container_prefix(42, es, j);
        },
        FrameView::Collection(es) => {
            lemma_container_prefix(126, es, j);
        },
        FrameView::Mapping(entries) => {
            let ln = dec_rep(entries.len());
            lemma_dec_rep_digits(entries.len());
            let end = 1 + ln.len() as int;
            assert(b[0] == 37);
            if j < end + 2 {
                assert(b =~= line(37u8, ln).take(j));
                lemma_line_prefix_scan(37, ln, j);
            } else {
                lemma_length_line(37, entries.len(), encode_entries(entries).take(j - end - 2));
                assert(b =~= seq![37u8] + ln + crlf() + encode_entries(entries).take(
                    j - end - 2,
                ));
                assert(b.skip(end + 2) =~= encode_entries(entries).take(j - end - 2));
                lemma_calc_entries_prefix(entries, j - end - 2);
            }
        },
    }
}

/// CRLF-freedom of a signed rendering.
pub proof fn lemma_signed_rep_crlf_free(i: int)
    ensures
        crlf_free(signed_rep(i)),
{
    if i >= 0 {
        lemma_dec_rep_digits(i as nat);
        lemma_digits_crlf_free(dec_rep(i as nat));
    } else {
        lemma_dec_rep_digits((-i) as nat);
        lemma_digits_crlf_free(dec_rep((-i) as nat));
    }
    assert forall|k: int| 0 <= k < signed_rep(i).len() - 1 implies !(#[trigger] signed_rep(i)[k]
        == CR && signed_rep(i)[k + 1] == LF) by {
        if k > 0 {
            if i >= 0 {
                assert(signed_rep(i)[k] == dec_rep(i as nat)[k - 1]);
            } else {
                assert(signed_rep(i)[k] == dec_rep((-i) as nat)[k - 1]);
            }
        }
    }
}

/// A strict prefix of a bulk string's encoding probes incomplete or to
/// the full length.
pub proof fn lemma_bulk_prefix(d: Seq<u8>, j: int)
    requires
        d.len() + 32 <= usize::MAX,
        1 <= j < (seq![36u8] + dec_rep(d.len()) + crlf() + d + crlf()).len(),
    ensures
        spec_expect_length(
            (seq![36u8] + dec_rep(d.len()) + crlf() + d + crlf()).take(j),
        ) == Result::<nat, DecodeErr>::Err(DecodeErr::Incomplete) || spec_expect_length(
            (seq![36u8] + dec_rep(d.len()) + crlf() + d + crlf()).take(j),
        ) == Result::<nat, DecodeErr>::Ok(
            (seq![36u8] + dec_rep(d.len()) + crlf() + d + crlf()).len() as nat,
        ),
{
    let enc = seq![36u8] + dec_rep(d.len()) + crlf() + d + crlf();
    let b = enc.take(j);
    let ln = dec_rep(d.len());
    lemma_dec_rep_digits(d.len());
    lemma_dec_rep_len_usize(d.len());
    let end = 1 + ln.len() as int;
    assert(b[0] == 36);
    if j == 1 {
        assert(strict_prefix_of(b, null_bulk_wire())) by {
            assert(b =~= null_bulk_wire().take(1));
        }
    } else {
        assert(b[1] == ln[0]);
        assert(is_dec_digit(ln[0]));
        assert(spec_fixed(b, null_bulk_wire()) is Err) by {
            if b.len() >= 5 {
                assert(b.take(5)[1] == b[1]);
                assert(null_bulk_wire()[1] == 45);
                assert(b.take(5) != null_bulk_wire());
            }
        }
        assert(!(spec_fixed(b, null_bulk_wire()) matches Result::Err(DecodeErr::Incomplete))
            ==> spec_fixed(b, null_bulk_wire()) == Result::<int, DecodeErr>::Err(
            DecodeErr::BadType,
        ));
        if j < end + 2 {
            assert(b =~= line(36u8, ln).take(j));
            lemma_line_prefix_scan(36, ln, j);
        } else {
            lemma_length_line(36, d.len(), (d + crlf()).take(j - end - 2));
            assert(b =~= seq![36u8] + ln + crlf() + (d + crlf()).take(j - end - 2));
            assert(end + 2 + d.len() + 2 <= usize::MAX);
            assert(enc.len() == end + 2 + d.len() + 2);
        }
    }
}

/// A strict prefix of an array or set encoding probes incomplete.
pub proof fn lemma_container_prefix(p: u8, es: Seq<FrameView>, j: int)
    requires
        p == 42 || p == 126,
        es.len() <= usize::MAX,
        wf_elems(es),
        1 <= j < (seq![p] + dec_rep(es.len()) + crlf() + encode_elems(es)).len(),
    ensures
        spec_expect_length(
            (seq![p] + dec_rep(es.len()) + crlf() + encode_elems(es)).take(j),
        ) == Result::<nat, DecodeErr>::Err(DecodeErr::Incomplete),
    decreases es, 1int, 2int,
{
    let enc = seq![p] + dec_rep(es.len()) + crlf() + encode_elems(es);
    let b = enc.take(j);
    let ln = dec_rep(es.len());
    lemma_dec_rep_digits(es.len());
    let end = 1 + ln.len() as int;
    assert(b[0] == p);
    if p == 42 {
        if j == 1 {
            assert(strict_prefix_of(b, null_array_wire())) by {
                assert(b =~= null_array_wire().take(1));
            }
        } else {
            assert(b[1] == ln[0]);
            assert(is_dec_digit(ln[0]));
            assert(!(b.len() >= 5 && b.take(5) == null_array_wire())) by {
                if b.len() >= 5 {
                    assert(b.take(5)[1] == b[1]);
                    assert(null_array_wire()[1] == 45);
                }
            }
            assert(!strict_prefix_of(b, null_array_wire())) by {
                if b.len() < 5 {
                    assert(null_array_wire().take(b.len() as int)[1] == 45);
                }
            }
        }
    }
    if p == 42 && j == 1 {
    } else {
        if j < end + 2 {
            assert(b =~= line(p, ln).take(j));
            lemma_line_prefix_scan(p, ln, j);
        } else {
            lemma_length_line(p, es.len(), encode_elems(es).take(j - end - 2));
            assert(b =~= seq![p] + ln + crlf() + encode_elems(es).take(j - end - 2));
            assert(b.skip(end + 2) =~= encode_elems(es).take(j - end - 2));
            lemma_calc_elems_prefix(es, j - end - 2);
        }
    }
}

/// Walking elements over a strict prefix of their encodings comes up
/// short.
pub proof fn lemma_calc_elems_prefix(es: Seq<FrameView>, j: int)
    requires
        wf_elems(es),
        0 <= j < encode_elems(es).len(),
    ensures
        spec_calc_elems(encode_elems(es).take(j), es.len()) == Result::<nat, DecodeErr>::Err(
            DecodeErr::Incomplete,
        ),
    decreases es, 1int, 1int,
{
    let head = encode_frame(es[0]);
    let tail = encode_elems(es.drop_first());
    assert(encode_elems(es) == head + tail);
    let b = encode_elems(es).take(j);
    crate::wire::lemma_encode_len_pos(es[0]);
    if j < head.len() {
        assert(b =~= head.take(j));
        lemma_probe_prefix(es[0], j);
        if spec_expect_length(b) == Result::<nat, DecodeErr>::Ok(head.len() as nat) {
            assert(head.len() > b.len());
        }
    } else {
        assert(b =~= head + tail.take(j - head.len()));
        lemma_probe(es[0], tail.take(j - head.len()));
        assert(b.skip(head.len() as int) =~= tail.take(j - head.len()));
        lemma_calc_elems_prefix(es.drop_first(), j - head.len());
    }
}

/// Walking entries over a strict prefix of their encodings comes up
/// short: the cut falls in some entry's key line or value.
#[verifier::rlimit(100)]
pub proof fn lemma_calc_entries_prefix(entries: Seq<(Seq<char>, FrameView)>, j: int)
    requires
        wf_entries(entries),
        0 <= j < encode_entries(entries).len(),
    ensures
        spec_calc_elems(encode_entries(entries).take(j), 2 * entries.len()) == Result::<
            nat,
            DecodeErr,
        >::Err(DecodeErr::Incomplete),
    decreases entries, 1int, 1int,
{
    let kline = line(43u8, encode_utf8(entries[0].0));
    let venc = encode_frame(entries[0].1);
    let tail = encode_entries(entries.drop_first());
    let kl = kline.len() as int;
    let vl = venc.len() as int;
    assert(encode_entries(entries) == kline + venc + tail);
    let b = encode_entries(entries).take(j);
    let n2 = 2 * entries.len();
    crate::wire::lemma_encode_len_pos(entries[0].1);
    if j < kl {
        lemma_entries_prefix_in_key(entries, j);
    } else if j < kl + vl {
        lemma_entries_prefix_in_value(entries, j);
    } else {
        assert(b =~= kline + (venc + tail.take(j - kl - vl)));
        lemma_line_scan(43, encode_utf8(entries[0].0), venc + tail.take(j - kl - vl));
        assert(b[0] == 43);
        assert(spec_expect_length(b) == Result::<nat, DecodeErr>::Ok(kline.len() as nat));
        assert(b.skip(kl) =~= venc + tail.take(j - kl - vl));
        lemma_probe(entries[0].1, tail.take(j - kl - vl));
        assert(b.skip(kl).skip(vl) =~= tail.take(j - kl - vl));
        lemma_calc_entries_prefix(entries.drop_first(), j - kl - vl);
        assert(2 * entries.len() - 2 == 2 * entries.drop_first().len());
        assert(spec_calc_elems(b.skip(kl).skip(vl), (n2 - 2) as nat) == Result::<
            nat,
            DecodeErr,
        >::Err(DecodeErr::Incomplete));
        assert(spec_calc_elems(b.skip(kl), (n2 - 1) as nat) == Result::<nat, DecodeErr>::Err(
            DecodeErr::Incomplete,
        ));
    }
}

/// The cut falls inside the first entry's key line.
#[verifier::rlimit(100)]
pub proof fn lemma_entries_prefix_in_key(entries: Seq<(Seq<char>, FrameView)>, j: int)
    requires
        wf_entries(entries),
        entries.len() > 0,
        0 <= j < line(43u8, encode_utf8(entries[0].0)).len(),
        j < encode_entries(entries).len(),
    ensures
        spec_calc_elems(encode_entries(entries).take(j), 2 * entries.len()) == Result::<
            nat,
            DecodeErr,
        >::Err(DecodeErr::Incomplete),
{
    let kline = line(43u8, encode_utf8(entries[0].0));
    let venc = encode_frame(entries[0].1);
    let tail = encode_entries(entries.drop_first());
    assert(encode_entries(entries) == kline + venc + tail);
    let b = encode_entries(entries).take(j);
    assert(b =~= kline.take(j));
    lemma_line_prefix_scan(43, encode_utf8(entries[0].0), j);
    if j == 0 {
        assert(b.len() == 0);
        assert(spec_expect_length(b) == Result::<nat, DecodeErr>::Err(DecodeErr::Incomplete));
    } else {
        assert(b[0] == 43);
        assert(spec_expect_length(b) == Result::<nat, DecodeErr>::Err(DecodeErr::Incomplete));
    }
    assert(2 * entries.len() > 0);
    assert(spec_calc_elems(encode_entries(entries).take(j), 2 * entries.len()) == Result::<
        nat,
        DecodeErr,
    >::Err(DecodeErr::Incomplete));
}

/// The cut falls inside the first entry's value.
#[verifier::rlimit(100)]
pub proof fn lemma_entries_prefix_in_value(entries: Seq<(Seq<char>, FrameView)>, j: int)
    requires
        wf_entries(entries),
        entries.len() > 0,
        line(43u8, encode_utf8(entries[0].0)).len() <= j < line(
            43u8,
            encode_utf8(entries[0].0),
        ).len() + encode_frame(entries[0].1).len(),
        j < encode_entries(entries).len(),
    ensures
        spec_calc_elems(encode_entries(entries).take(j), 2 * entries.len()) == Result::<
            nat,
            DecodeErr,
        >::Err(DecodeErr::Incomplete),
    decreases entries, 0int, 0int,
{
    let kline = line(43u8, encode_utf8(entries[0].0));
    let venc = encode_frame(entries[0].1);
    let tail = encode_entries(entries.drop_first());
    let kl = kline.len() as int;
    let vl = venc.len() as int;
    assert(encode_entries(entries) == kline + venc + tail);
    let b = encode_entries(entries).take(j);
    let n2 = 2 * entries.len();
    crate::wire::lemma_encode_len_pos(entries[0].1);
    assert(b =~= kline + venc.take(j - kl));
    lemma_line_scan(43, encode_utf8(entries[0].0), venc.take(j - kl));
    assert(b[0] == 43);
    assert(spec_expect_length(b) == Result::<nat, DecodeErr>::Ok(kline.len() as nat));
    assert(b.skip(kl) =~= venc.take(j - kl));
    lemma_probe_prefix(entries[0].1, j - kl);
    if spec_expect_length(venc.take(j - kl)) == Result::<nat, DecodeErr>::Ok(venc.len() as nat) {
        assert(venc.len() > j - kl);
    }
    assert(spec_calc_elems(b.skip(kl), (n2 - 1) as nat) == Result::<nat, DecodeErr>::Err(
        DecodeErr::Incomplete,
    ));
}

/// Fragmentation: feed the decoder any strict prefix of a well-formed
/// frame's encoding and it reports "not complete", never an error and
/// never a value; only the full encoding decodes, and to the frame
/// itself.
#[verifier::rlimit(100)]
pub proof fn lemma_partial_feed_incomplete(f: FrameView, j: int)
    requires
        wf_frame(f),
        0 <= j < encode_frame(f).len(),
    ensures
        spec_decode(encode_frame(f).take(j)) == Result::<(FrameView, nat), DecodeErr>::Err(
            DecodeErr::Incomplete,
        ),
{
    let enc = encode_frame(f);
    let b = enc.take(j);
    if j == 0 {
        return ;
    }
    match f {
        FrameView::Simple(s) => {
            assert(b =~= line(43u8, encode_utf8(s)).take(j));
            lemma_line_prefix_scan(43, encode_utf8(s), j);
            assert(b[0] == 43);
        },
        FrameView::Error(s) => {
            assert(b =~= line(45u8, encode_utf8(s)).take(j));
            lemma_line_prefix_scan(45, encode_utf8(s), j);
            assert(b[0] == 45);
        },
        FrameView::Integer(i) => {
            lemma_signed_rep_crlf_free(i);
            assert(b =~= line(58u8, signed_rep(i)).take(j));
            lemma_line_prefix_scan(58, signed_rep(i), j);
            assert(b[0] == 58);
        },
        FrameView::Double(t) => {
            crate::wire::lemma_float_text_crlf_free(encode_utf8(t));
            assert(b =~= line(44u8, encode_utf8(t)).take(j));
            lemma_line_prefix_scan(44, encode_utf8(t), j);
            assert(b[0] == 44);
        },
        FrameView::Boolean(v) => {
            assert(b[0] == 35);
            if v {
                assert(strict_prefix_of(b, bool_true_wire())) by {
                    assert(b =~= bool_true_wire().take(j));
                }
            } else {
                assert(strict_prefix_of(b, bool_false_wire())) by {
                    assert(b =~= bool_false_wire().take(j));
                }
                if j == 1 {
                    assert(strict_prefix_of(b, bool_true_wire())) by {
                        assert(b =~= bool_true_wire().take(1));
                    }
                } else {
                    assert(spec_fixed(b, bool_true_wire()) == Result::<int, DecodeErr>::Err(
                        DecodeErr::BadType,
                    )) by {
                        assert(b[1] == 102);
                        assert(bool_true_wire()[1] == 116);
                        if b.len() >= 4 {
                            assert(b.take(4)[1] == b[1]);
                        }
                        assert(!strict_prefix_of(b, bool_true_wire())) by {
                            assert(bool_true_wire().take(b.len() as int)[1] == 116);
                        }
                    }
                }
            }
        },
        FrameView::Null => {
            assert(b[0] == 95);
            assert(strict_prefix_of(b, null_wire())) by {
                assert(b =~= null_wire().take(j));
            }
        },
        FrameView::NullArray => {
            assert(b[0] == 42);
            assert(strict_prefix_of(b, null_array_wire())) by {
                assert(b =~= null_array_wire().take(j));
            }
        },
        FrameView::Bulk(od) => {
            match od {
                Option::None => {
                    assert(b[0] == 36);
                    assert(strict_prefix_of(b, null_bulk_wire())) by {
                        assert(b =~= null_bulk_wire().take(j));
                    }
                },
                Option::Some(d) => {
                    let ln = dec_rep(d.len());
                    lemma_dec_rep_digits(d.len());
                    let end = 1 + ln.len() as int;
                    assert(b[0] == 36);
                    if j == 1 {
                        assert(strict_prefix_of(b, null_bulk_wire())) by {
                            assert(b =~= null_bulk_wire().take(1));
                        }
                    } else {
                        assert(b[1] == ln[0]);
                        assert(is_dec_digit(ln[0]));
                        assert(spec_fixed(b, null_bulk_wire()) == Result::<int, DecodeErr>::Err(
                            DecodeErr::BadType,
                        )) by {
                            assert(null_bulk_wire()[1] == 45);
                            if b.len() >= 5 {
                                assert(b.take(5)[1] == b[1]);
                                assert(b.take(5) != null_bulk_wire());
                            }
                            assert(!strict_prefix_of(b, null_bulk_wire())) by {
                                if b.len() < 5 {
                                    assert(null_bulk_wire().take(b.len() as int)[1] == 45);
                                }
                            }
                        }
                        if j < end + 2 {
                            assert(b =~= line(36u8, ln).take(j));
                            lemma_line_prefix_scan(36, ln, j);
                        } else {
                            lemma_length_line(36, d.len(), (d + crlf()).take(j - end - 2));
                            assert(b =~= seq![36u8] + ln + crlf() + (d + crlf()).take(
                                j - end - 2,
                            ));
                            assert(b.len() < end + 2 + d.len() + 2);
                        }
                    }
                },
            }
        },
        FrameView::Array(es) => {
            lemma_decode_container_prefix(42, es, j);
        },
        FrameView::Collection(es) => {
            lemma_decode_container_prefix(126, es, j);
        },
        FrameView::Mapping(entries) => {
            let ln = dec_rep(entries.len());
            lemma_dec_rep_digits(entries.len());
            let end = 1 + ln.len() as int;
            assert(b[0] == 37);
            if j < end + 2 {
                assert(b =~= line(37u8, ln).take(j));
                lemma_line_prefix_scan(37, ln, j);
            } else {
                lemma_length_line(37, entries.len(), encode_entries(entries).take(j - end - 2));
                assert(b =~= seq![37u8] + ln + crlf() + encode_entries(entries).take(
                    j - end - 2,
                ));
                assert(b.skip(end + 2) =~= encode_entries(entries).take(j - end - 2));
                lemma_calc_entries_prefix(entries, j - end - 2);
            }
        },
    }
}

/// The array and set arms of the partial-feed law.
pub proof fn lemma_decode_container_prefix(p: u8, es: Seq<FrameView>, j: int)
    requires
        p == 42 || p == 126,
        es.len() <= usize::MAX,
        wf_elems(es),
        1 <= j < (seq![p] + dec_rep(es.len()) + crlf() + encode_elems(es)).len(),
    ensures
        spec_decode((seq![p] + dec_rep(es.len()) + crlf() + encode_elems(es)).take(j))
            == Result::<(FrameView, nat), DecodeErr>::Err(DecodeErr::Incomplete),
{
    let enc = seq![p] + dec_rep(es.len()) + crlf() + encode_elems(es);
    let b = enc.take(j);
    let ln = dec_rep(es.len());
    lemma_dec_rep_digits(es.len());
    let end = 1 + ln.len() as int;
    assert(b[0] == p);
    if p == 42 && j == 1 {
        assert(strict_prefix_of(b, null_array_wire())) by {
            assert(b =~= null_array_wire().take(1));
        }
        return ;
    }
    if p == 42 {
        assert(b[1] == ln[0]);
        assert(is_dec_digit(ln[0]));
        assert(!(b.len() >= 5 && b.take(5) == null_array_wire())) by {
            if b.len() >= 5 {
                assert(b.take(5)[1] == b[1]);
                assert(null_array_wire()[1] == 45);
            }
        }
        assert(!strict_prefix_of(b, null_array_wire())) by {
            if b.len() < 5 {
                assert(null_array_wire().take(b.len() as int)[1] == 45);
            }
        }
    }
    if j < end + 2 {
        assert(b =~= line(p, ln).take(j));
        lemma_line_prefix_scan(p, ln, j);
    } else {
        lemma_length_line(p, es.len(), encode_elems(es).take(j - end - 2));
        assert(b =~= seq![p] + ln + crlf() + encode_elems(es).take(j - end - 2));
        assert(b.skip(end + 2) =~= encode_elems(es).take(j - end - 2));
        lemma_calc_elems_prefix(es, j - end - 2);
    }
}


/// Writers to distinct keys never lose each other's update: the two
/// `set` commands leave both values, in either order.
pub proof fn lemma_distinct_writes_commute(
    kv: Map<Seq<char>, FrameView>,
    k1: Seq<char>,
    v1: FrameView,
    k2: Seq<char>,
    v2: FrameView,
)
    requires
        k1 != k2,
    ensures
        crate::cmd::command_kv(
            crate::cmd::CmdView::SetCmd(k2, v2),
            crate::cmd::command_kv(crate::cmd::CmdView::SetCmd(k1, v1), kv),
        ) == crate::cmd::command_kv(
            crate::cmd::CmdView::SetCmd(k1, v1),
            crate::cmd::command_kv(crate::cmd::CmdView::SetCmd(k2, v2), kv),
        ),
        crate::cmd::command_kv(
            crate::cmd::CmdView::SetCmd(k2, v2),
            crate::cmd::command_kv(crate::cmd::CmdView::SetCmd(k1, v1), kv),
        ).index(k1) == v1,
        crate::cmd::command_kv(
            crate::cmd::CmdView::SetCmd(k2, v2),
            crate::cmd::command_kv(crate::cmd::CmdView::SetCmd(k1, v1), kv),
        ).index(k2) == v2,
{
    assert(kv.insert(k1, v1).insert(k2, v2) =~= kv.insert(k2, v2).insert(k1, v1));
}

/// Writers to the same key leave exactly the later value: the last
/// writer wins and no third state exists.
pub proof fn lemma_same_key_last_writer_wins(
    kv: Map<Seq<char>, FrameView>,
    k: Seq<char>,
    v1: FrameView,
    v2: FrameView,
)
    ensures
        crate::cmd::command_kv(
            crate::cmd::CmdView::SetCmd(k, v2),
            crate::cmd::command_kv(crate::cmd::CmdView::SetCmd(k, v1), kv),
        ) == crate::cmd::command_kv(crate::cmd::CmdView::SetCmd(k, v2), kv),
        crate::cmd::command_kv(
            crate::cmd::CmdView::SetCmd(k, v2),
            crate::cmd::command_kv(crate::cmd::CmdView::SetCmd(k, v1), kv),
        ).index(k) == v2,
{
    assert(kv.insert(k, v1).insert(k, v2) =~= kv.insert(k, v2));
}

} // verus!
