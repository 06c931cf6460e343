//! The frame value: the tagged union over every RESP data type, its view
//! onto the wire model, and the recursive codec entry points.
use vstd::prelude::*;
use crate::resp::array::{RespArray, RespNullArray};
use crate::resp::boolean::decode_bool_at;
use crate::resp::bulk_string::{bulk_expected, decode_bulk_at, BulkString};
use crate::resp::double::{decode_double_at, RespDouble};
use crate::resp::integer::decode_integer_at;
use crate::resp::map::RespMap;
use crate::resp::null::RespNull;
use crate::resp::set::RespSet;
use crate::resp::simple_error::SimpleError;
use crate::resp::simple_string::SimpleString;
use crate::resp::{byte_at, err_view, RespError};
use crate::wire::{null_array_wire, DecodeErr, FrameView};

verus! {

broadcast use vstd::seq::axiom_seq_index_decreases, vstd::seq::axiom_seq_subrange_decreases,
    vstd::std_specs::vec::axiom_vec_index_decreases,
    vstd::std_specs::vec::axiom_vec_decreases_to_view;

/// One decoded RESP value of any variant.
#[derive(Debug, PartialEq)]
pub enum RespFrame {
    SimpleString(SimpleString),
    Error(SimpleError),
    Integer(i64),
    BulkString(BulkString),
    Array(RespArray),
    NullArray(RespNullArray),
    Null(RespNull),
    Boolean(bool),
    Double(RespDouble),
    Mapping(RespMap),
    Collection(RespSet),
}

/// The value a frame stands for.
pub open spec fn frame_view(f: RespFrame) -> FrameView
    decreases f, 1int,
{
    match f {
        RespFrame::SimpleString(s) => FrameView::Simple(s@),
        RespFrame::Error(s) => FrameView::Error(s@),
        RespFrame::Integer(i) => FrameView::Integer(i as int),
        RespFrame::BulkString(b) => FrameView::Bulk(b@),
        RespFrame::Array(a) => FrameView::Array(frames_view(a.0@)),
        RespFrame::NullArray(_) => FrameView::NullArray,
        RespFrame::Null(_) => FrameView::Null,
        RespFrame::Boolean(b) => FrameView::Boolean(b),
        RespFrame::Double(d) => FrameView::Double(d@),
        RespFrame::Mapping(m) => FrameView::Mapping(entries_view(m.0@)),
        RespFrame::Collection(s) => FrameView::Collection(frames_view(s.0@)),
    }
}

/// The values a sequence of frames stands for, in order.
pub open spec fn frames_view(s: Seq<RespFrame>) -> Seq<FrameView>
    decreases s, 0int,
{
    if s.len() == 0 {
        Seq::empty()
    } else {
        seq![frame_view(s[0])] + frames_view(s.drop_first())
    }
}

/// The entries a key/frame list stands for, in order.
pub open spec fn entries_view(s: Seq<(String, RespFrame)>) -> Seq<(Seq<char>, FrameView)>
    decreases s, 0int,
{
    if s.len() == 0 {
        Seq::empty()
    } else {
        seq![(s[0].0@, frame_view(s[0].1))] + entries_view(s.drop_first())
    }
}

impl View for RespFrame {
    type V = FrameView;

    open spec fn view(&self) -> FrameView {
        frame_view(*self)
    }
}

/// A frame-sequence view has the same length and views each frame in
/// place.
pub proof fn lemma_frames_view_index(s: Seq<RespFrame>)
    ensures
        frames_view(s).len() == s.len(),
        forall|i: int| 0 <= i < s.len() ==> #[trigger] frames_view(s)[i] == frame_view(s[i]),
    decreases s.len(),
{
    if s.len() > 0 {
        lemma_frames_view_index(s.drop_first());
        assert forall|i: int| 0 <= i < s.len() implies #[trigger] frames_view(s)[i] == frame_view(
            s[i],
        ) by {
            if i > 0 {
                assert(s.drop_first()[i - 1] == s[i]);
            }
        }
    }
}

/// An entry-list view has the same length and views each entry in place.
pub proof fn lemma_entries_view_index(s: Seq<(String, RespFrame)>)
    ensures
        entries_view(s).len() == s.len(),
        forall|i: int|
            0 <= i < s.len() ==> #[trigger] entries_view(s)[i] == (s[i].0@, frame_view(s[i].1)),
    decreases s.len(),
{
    if s.len() > 0 {
        lemma_entries_view_index(s.drop_first());
        assert forall|i: int| 0 <= i < s.len() implies #[trigger] entries_view(s)[i] == (
            s[i].0@,
            frame_view(s[i].1),
        ) by {
            if i > 0 {
                assert(s.drop_first()[i - 1] == s[i]);
            }
        }
    }
}

impl RespFrame {
    /// The completeness probe: the total byte length of the frame at the
    /// front of the buffer, from prefixes and length fields alone.
    pub fn expect_length(buf: &[u8]) -> (r: Result<usize, RespError>)
        ensures
            match r {
                Result::Ok(n) => crate::wire::spec_expect_length(buf@) == Result::<
                    nat,
                    DecodeErr,
                >::Ok(n as nat),
                Result::Err(e) => crate::wire::spec_expect_length(buf@) == Result::<
                    nat,
                    DecodeErr,
                >::Err(err_view(e)),
            },
        decreases buf@.len(), 1int,
    {
        if buf.len() == 0 {
            return Result::Err(RespError::NotComplete);
        }
        let p = byte_at(buf, 0);
        if p == 43 || p == 45 || p == 58 || p == 44 {
            match crate::resp::line_end1(buf, p) {
                Result::Ok(end) => {
                    proof {
                        crate::wire::lemma_find_crlf_at_some(buf@, 0, end as int);
                    }
                    let blen = buf.len();
                    assert(end + 2 <= blen);
                    Result::Ok(end + 2)
                },
                Result::Err(e) => Result::Err(e),
            }
        } else if p == 35 {
            Result::Ok(4)
        } else if p == 95 {
            Result::Ok(3)
        } else if p == 36 {
            BulkString::expect_length(buf)
        } else if p == 42 || p == 126 {
            if p == 42 {
                let w = crate::resp::wire_null_array();
                match crate::resp::fixed_at(buf, w.as_slice()) {
                    Result::Ok(n) => {
                        return Result::Ok(n);
                    },
                    Result::Err(RespError::NotComplete) => {
                        return Result::Err(RespError::NotComplete);
                    },
                    Result::Err(_) => {},
                }
            }
            let (end, len) = match crate::resp::parse_length1(buf, p) {
                Result::Ok(q) => q,
                Result::Err(e) => {
                    return Result::Err(e);
                },
            };
            proof {
                crate::wire::lemma_find_crlf_at_some(buf@, 0, end as int);
            }
            let blen = buf.len();
            assert(1 <= end && end + 2 <= blen);
            match Self::calc_elems_at(buf, end + 2, len as u128) {
                Result::Ok(sum) => Result::Ok(end + 2 + sum),
                Result::Err(e) => Result::Err(e),
            }
        } else if p == 37 {
            let (end, len) = match crate::resp::parse_length1(buf, 37) {
                Result::Ok(q) => q,
                Result::Err(e) => {
                    return Result::Err(e);
                },
            };
            proof {
                crate::wire::lemma_find_crlf_at_some(buf@, 0, end as int);
            }
            let blen = buf.len();
            assert(1 <= end && end + 2 <= blen);
            match Self::calc_elems_at(buf, end + 2, 2 * (len as u128)) {
                Result::Ok(sum) => Result::Ok(end + 2 + sum),
                Result::Err(e) => Result::Err(e),
            }
        } else {
            Result::Err(RespError::InvalidFrameType("unknown frame prefix".to_owned()))
        }
    }

    /// Walk `count` frames from `start`, summing their probed lengths; a
    /// probed length past the end of the buffer means the walk cannot go
    /// on yet.
    pub(crate) fn calc_elems_at(buf: &[u8], start: usize, count: u128) -> (r: Result<
        usize,
        RespError,
    >)
        requires
            1 <= start <= buf@.len(),
        ensures
            match r {
                Result::Ok(sum) => crate::wire::spec_calc_elems(
                    buf@.skip(start as int),
                    count as nat,
                ) == Result::<nat, DecodeErr>::Ok(sum as nat) && start + sum <= buf@.len(),
                Result::Err(e) => crate::wire::spec_calc_elems(buf@.skip(start as int), count as nat)
                    == Result::<nat, DecodeErr>::Err(err_view(e)),
            },
        decreases buf@.len(), 0int,
    {
        let blen = buf.len();
        let ghost orig = buf@.skip(start as int);
        let mut off: usize = start;
        let mut cnt: u128 = count;
        loop
            invariant
                1 <= start <= off <= blen == buf@.len(),
                cnt <= count,
                orig == buf@.skip(start as int),
                match crate::wire::spec_calc_elems(buf@.skip(off as int), cnt as nat) {
                    Result::Ok(s) => crate::wire::spec_calc_elems(orig, count as nat) == Result::<
                        nat,
                        DecodeErr,
                    >::Ok(((off - start) + s) as nat),
                    Result::Err(e) => crate::wire::spec_calc_elems(orig, count as nat) == Result::<
                        nat,
                        DecodeErr,
                    >::Err(e),
                },
            decreases cnt,
        {
            if cnt == 0 {
                assert(crate::wire::spec_calc_elems(buf@.skip(off as int), 0) == Result::<
                    nat,
                    DecodeErr,
                >::Ok(0));
                return Result::Ok(off - start);
            }
            let data = vstd::slice::slice_subrange(buf, off, blen);
            match Self::expect_length(data) {
                Result::Ok(flen) => {
                    if flen == 0 || flen > blen - off {
                        return Result::Err(RespError::NotComplete);
                    }
                    proof {
                        assert(buf@.skip(off as int).skip(flen as int) =~= buf@.skip(
                            off as int + flen as int,
                        ));
                    }
                    off += flen;
                    cnt -= 1;
                },
                Result::Err(e) => {
                    return Result::Err(e);
                },
            }
        }
    }

    /// Decode the frame at the front of the slice, returning it with the
    /// number of bytes it occupies; the slice is not modified.
    pub fn decode_at(b: &[u8]) -> (r: Result<(RespFrame, usize), RespError>)
        ensures
            match r {
                Result::Ok(p) => crate::wire::spec_decode(b@) == Result::<
                    (FrameView, nat),
                    DecodeErr,
                >::Ok((frame_view(p.0), p.1 as nat)) && 1 <= p.1 <= b@.len(),
                Result::Err(e) => crate::wire::spec_decode(b@) == Result::<
                    (FrameView, nat),
                    DecodeErr,
                >::Err(err_view(e)),
            },
        decreases b@.len(),
    {
        if b.len() == 0 {
            return Result::Err(RespError::NotComplete);
        }
        let p = byte_at(b, 0);
        if p == 43 {
            match crate::resp::decode_text_at(b, 43) {
                Result::Ok(q) => Result::Ok((RespFrame::SimpleString(SimpleString::new(q.0)), q.1)),
                Result::Err(e) => Result::Err(e),
            }
        } else if p == 45 {
            match crate::resp::decode_text_at(b, 45) {
                Result::Ok(q) => Result::Ok((RespFrame::Error(SimpleError::new(q.0)), q.1)),
                Result::Err(e) => Result::Err(e),
            }
        } else if p == 58 {
            match decode_integer_at(b) {
                Result::Ok(q) => Result::Ok((RespFrame::Integer(q.0), q.1)),
                Result::Err(e) => Result::Err(e),
            }
        } else if p == 44 {
            match decode_double_at(b) {
                Result::Ok(q) => Result::Ok((RespFrame::Double(q.0), q.1)),
                Result::Err(e) => Result::Err(e),
            }
        } else if p == 35 {
            match decode_bool_at(b) {
                Result::Ok(q) => Result::Ok((RespFrame::Boolean(q.0), q.1)),
                Result::Err(e) => Result::Err(e),
            }
        } else if p == 95 {
            let w = crate::resp::wire_null();
            match crate::resp::fixed_at(b, w.as_slice()) {
                Result::Ok(n) => Result::Ok((RespFrame::Null(RespNull), n)),
                Result::Err(e) => Result::Err(e),
            }
        } else if p == 36 {
            match decode_bulk_at(b) {
                Result::Ok(q) => Result::Ok((RespFrame::BulkString(q.0), q.1)),
                Result::Err(e) => Result::Err(e),
            }
        } else if p == 42 || p == 126 {
            if p == 42 {
                let w = crate::resp::wire_null_array();
                match crate::resp::fixed_at(b, w.as_slice()) {
                    Result::Ok(n) => {
                        return Result::Ok((RespFrame::NullArray(RespNullArray), n));
                    },
                    Result::Err(RespError::NotComplete) => {
                        return Result::Err(RespError::NotComplete);
                    },
                    Result::Err(_) => {},
                }
            }
            Self::decode_seq_at(b, p)
        } else if p == 37 {
            Self::decode_map_at(b)
        } else {
            Result::Err(RespError::InvalidFrameType("unknown frame prefix".to_owned()))
        }
    }

    /// Decode an array or set frame (the `*`-without-sentinel and `~`
    /// paths): confirm completeness with the probe, then decode the
    /// declared number of elements.
    #[verifier::rlimit(60)]
    pub(crate) fn decode_seq_at(b: &[u8], p: u8) -> (r: Result<(RespFrame, usize), RespError>)
        requires
            b@.len() > 0,
            b@[0] == p,
            p == 42 || p == 126,
            p == 42 ==> crate::wire::spec_fixed(b@, null_array_wire()) == Result::<
                int,
                DecodeErr,
            >::Err(DecodeErr::BadType),
        ensures
            match r {
                Result::Ok(q) => crate::wire::spec_decode(b@) == Result::<
                    (FrameView, nat),
                    DecodeErr,
                >::Ok((frame_view(q.0), q.1 as nat)) && 1 <= q.1 <= b@.len(),
                Result::Err(e) => crate::wire::spec_decode(b@) == Result::<
                    (FrameView, nat),
                    DecodeErr,
                >::Err(err_view(e)),
            },
        decreases b@.len(), 0int,
    {
        let (end, len) = match crate::resp::parse_length1(b, p) {
            Result::Ok(q) => q,
            Result::Err(e) => {
                return Result::Err(e);
            },
        };
        proof {
            crate::wire::lemma_find_crlf_at_some(b@, 0, end as int);
        }
        let blen = b.len();
        assert(1 <= end && end + 2 <= blen);
        let ghost total = 0nat;
        match Self::calc_elems_at(b, end + 2, len as u128) {
            Result::Ok(t) => {
                proof {
                    total = t as nat;
                }
            },
            Result::Err(e) => {
                return Result::Err(e);
            },
        }
        let ghost orig = b@.skip(end as int + 2);
        let mut elems: Vec<RespFrame> = Vec::new();
        let mut off: usize = end + 2;
        let mut remaining: usize = len;
        loop
            invariant
                b@.len() > 0,
                b@[0] == p,
                p == 42 || p == 126,
                p == 42 ==> crate::wire::spec_fixed(b@, null_array_wire()) == Result::<
                    int,
                    DecodeErr,
                >::Err(DecodeErr::BadType),
                crate::wire::spec_parse_length(b@, seq![p]) == Result::<(int, nat), DecodeErr>::Ok(
                    (end as int, len as nat),
                ),
                1 <= end,
                end + 2 <= off <= blen == b@.len(),
                orig == b@.skip(end as int + 2),
                crate::wire::spec_calc_elems(orig, len as nat) == Result::<nat, DecodeErr>::Ok(
                    total,
                ),
                end + 2 + total <= blen,
                remaining <= len,
                match crate::wire::spec_decode_elems(b@.skip(off as int), remaining as nat) {
                    Result::Ok(q) => crate::wire::spec_decode_elems(orig, len as nat) == Result::<
                        (Seq<FrameView>, nat),
                        DecodeErr,
                    >::Ok((frames_view(elems@) + q.0, ((off - end - 2) + q.1) as nat)),
                    Result::Err(e) => crate::wire::spec_decode_elems(orig, len as nat) == Result::<
                        (Seq<FrameView>, nat),
                        DecodeErr,
                    >::Err(e),
                },
            ensures
                end + 2 <= off <= blen,
                crate::wire::spec_decode_elems(orig, len as nat) == Result::<
                    (Seq<FrameView>, nat),
                    DecodeErr,
                >::Ok((frames_view(elems@), (off - end - 2) as nat)),
            decreases remaining,
        {
            if remaining == 0 {
                proof {
                    assert(crate::wire::spec_decode_elems(b@.skip(off as int), 0) == Result::<
                        (Seq<FrameView>, nat),
                        DecodeErr,
                    >::Ok((Seq::empty(), 0)));
                    assert(frames_view(elems@) + Seq::<FrameView>::empty() =~= frames_view(
                        elems@,
                    ));
                }
                break ;
            }
            let cur = vstd::slice::slice_subrange(b, off, blen);
            proof {
                assert(cur@ =~= b@.skip(off as int));
            }
            match RespFrame::decode_at(cur) {
                Result::Ok((f, n)) => {
                    let ghost off0 = off;
                    let ghost rem0 = remaining;
                    let ghost fs0 = frames_view(elems@);
                    let ghost fv = frame_view(f);
                    proof {
                        lemma_frames_view_index(elems@);
                    }
                    elems.push(f);
                    proof {
                        lemma_frames_view_index(elems@);
                        assert(frames_view(elems@) =~= fs0 + seq![fv]);
                    }
                    off += n;
                    remaining -= 1;
                    proof {
                        assert(b@.skip(off0 as int).skip(n as int) =~= b@.skip(off as int));
                        let tail = crate::wire::spec_decode_elems(
                            b@.skip(off as int),
                            remaining as nat,
                        );
                        match tail {
                            Result::Ok(q) => {
                                assert((fs0 + (seq![fv] + q.0)) =~= ((fs0 + seq![fv]) + q.0));
                            },
                            Result::Err(_) => {},
                        }
                    }
                },
                Result::Err(e) => {
                    proof {
                        assert(crate::wire::spec_decode_elems(
                            b@.skip(off as int),
                            remaining as nat,
                        ) == Result::<(Seq<FrameView>, nat), DecodeErr>::Err(err_view(e)));
                        assert(crate::wire::spec_decode(b@) == Result::<
                            (FrameView, nat),
                            DecodeErr,
                        >::Err(err_view(e)));
                    }
                    return Result::Err(e);
                },
            }
        }
        let fr = if p == 42 {
            RespFrame::Array(RespArray(elems))
        } else {
            RespFrame::Collection(RespSet(elems))
        };
        proof {
            let es = frames_view(elems@);
            assert(crate::wire::spec_decode_elems(orig, len as nat) == Result::<
                (Seq<FrameView>, nat),
                DecodeErr,
            >::Ok((es, (off - end - 2) as nat)));
            assert(frame_view(fr) == if p == 42 {
                FrameView::Array(es)
            } else {
                FrameView::Collection(es)
            });
            assert(crate::wire::spec_decode(b@) == Result::<(FrameView, nat), DecodeErr>::Ok(
                (frame_view(fr), off as nat),
            ));
        }
        Result::Ok((fr, off))
    }

    /// Decode a map frame (the `%` path): confirm completeness with the
    /// probe over twice the entry count, then decode the declared number
    /// of key/value entries with map insertion semantics.
    #[verifier::rlimit(60)]
    pub(crate) fn decode_map_at(b: &[u8]) -> (r: Result<(RespFrame, usize), RespError>)
        requires
            b@.len() > 0,
            b@[0] == 37,
        ensures
            match r {
                Result::Ok(q) => crate::wire::spec_decode(b@) == Result::<
                    (FrameView, nat),
                    DecodeErr,
                >::Ok((frame_view(q.0), q.1 as nat)) && 1 <= q.1 <= b@.len(),
                Result::Err(e) => crate::wire::spec_decode(b@) == Result::<
                    (FrameView, nat),
                    DecodeErr,
                >::Err(err_view(e)),
            },
        decreases b@.len(), 0int,
    {
        let (end, len) = match crate::resp::parse_length1(b, 37) {
            Result::Ok(q) => q,
            Result::Err(e) => {
                return Result::Err(e);
            },
        };
        proof {
            crate::wire::lemma_find_crlf_at_some(b@, 0, end as int);
        }
        let blen = b.len();
        assert(1 <= end && end + 2 <= blen);
        let ghost total = 0nat;
        match Self::calc_elems_at(b, end + 2, 2 * (len as u128)) {
            Result::Ok(t) => {
                proof {
                    total = t as nat;
                }
            },
            Result::Err(e) => {
                return Result::Err(e);
            },
        }
        let ghost orig = b@.skip(end as int + 2);
        let mut map = RespMap::new();
        let mut off: usize = end + 2;
        let mut remaining: usize = len;
        loop
            invariant
                b@.len() > 0,
                b@[0] == 37,
                crate::wire::spec_parse_length(b@, seq![37u8]) == Result::<
                    (int, nat),
                    DecodeErr,
                >::Ok((end as int, len as nat)),
                1 <= end,
                end + 2 <= off <= blen == b@.len(),
                orig == b@.skip(end as int + 2),
                crate::wire::spec_calc_elems(orig, 2 * len as nat) == Result::<
                    nat,
                    DecodeErr,
                >::Ok(total),
                end + 2 + total <= blen,
                remaining <= len,
                match crate::wire::spec_decode_entries(b@.skip(off as int), remaining as nat, map@) {
                    Result::Ok(q) => crate::wire::spec_decode_entries(
                        orig,
                        len as nat,
                        Seq::empty(),
                    ) == Result::<(Seq<(Seq<char>, FrameView)>, nat), DecodeErr>::Ok(
                        (q.0, ((off - end - 2) + q.1) as nat),
                    ),
                    Result::Err(e) => crate::wire::spec_decode_entries(
                        orig,
                        len as nat,
                        Seq::empty(),
                    ) == Result::<(Seq<(Seq<char>, FrameView)>, nat), DecodeErr>::Err(e),
                },
            ensures
                end + 2 <= off <= blen,
                crate::wire::spec_decode_entries(orig, len as nat, Seq::empty()) == Result::<
                    (Seq<(Seq<char>, FrameView)>, nat),
                    DecodeErr,
                >::Ok((map@, (off - end - 2) as nat)),
            decreases remaining,
        {
            if remaining == 0 {
                proof {
                    assert(crate::wire::spec_decode_entries(b@.skip(off as int), 0, map@)
                        == Result::<(Seq<(Seq<char>, FrameView)>, nat), DecodeErr>::Ok((map@, 0)));
                }
                break ;
            }
            let cur = vstd::slice::slice_subrange(b, off, blen);
            proof {
                assert(cur@ =~= b@.skip(off as int));
            }
            let (key, kn) = match crate::resp::decode_text_at(cur, 43) {
                Result::Ok(q) => q,
                Result::Err(e) => {
                    proof {
                        let sl = crate::wire::spec_simple_line(cur@, seq![43u8]);
                        match sl {
                            Result::Ok(end2) => {
                                crate::wire::lemma_find_crlf_at_some(cur@, 0, end2);
                            },
                            Result::Err(_) => {},
                        }
                        assert(crate::wire::spec_decode_entries(
                            b@.skip(off as int),
                            remaining as nat,
                            map@,
                        ) == Result::<(Seq<(Seq<char>, FrameView)>, nat), DecodeErr>::Err(
                            err_view(e),
                        ));
                        assert(crate::wire::spec_decode(b@) == Result::<
                            (FrameView, nat),
                            DecodeErr,
                        >::Err(err_view(e)));
                    }
                    return Result::Err(e);
                },
            };
            proof {
                let sl = crate::wire::spec_simple_line(cur@, seq![43u8]);
                match sl {
                    Result::Ok(end2) => {
                        crate::wire::lemma_find_crlf_at_some(cur@, 0, end2);
                    },
                    Result::Err(_) => {
                        assert(false);
                    },
                }
            }
            let cur2 = vstd::slice::slice_subrange(b, off + kn, blen);
            proof {
                assert(cur2@ =~= cur@.skip(kn as int));
            }
            let (value, vn) = match Self::decode_at(cur2) {
                Result::Ok(q) => q,
                Result::Err(e) => {
                    proof {
                        assert(crate::wire::spec_decode_entries(
                            b@.skip(off as int),
                            remaining as nat,
                            map@,
                        ) == Result::<(Seq<(Seq<char>, FrameView)>, nat), DecodeErr>::Err(
                            err_view(e),
                        ));
                        assert(crate::wire::spec_decode(b@) == Result::<
                            (FrameView, nat),
                            DecodeErr,
                        >::Err(err_view(e)));
                    }
                    return Result::Err(e);
                },
            };
            let ghost off0 = off;
            let ghost key_v = key@;
            let ghost val_v = frame_view(value);
            let ghost acc0 = map@;
            map.insert(key, value);
            off += kn + vn;
            remaining -= 1;
            proof {
                assert(cur@.skip(kn as int).skip(vn as int) =~= cur@.skip(kn as int + vn as int));
                assert(b@.skip(off0 as int).skip(kn as int + vn as int) =~= b@.skip(off as int));
            }
        }
        proof {
            assert(crate::wire::spec_decode_entries(b@.skip(off as int), 0, map@) == Result::<
                (Seq<(Seq<char>, FrameView)>, nat),
                DecodeErr,
            >::Ok((map@, 0)));
            assert(crate::wire::spec_decode_entries(orig, len as nat, Seq::empty()) == Result::<
                (Seq<(Seq<char>, FrameView)>, nat),
                DecodeErr,
            >::Ok((map@, (off - end - 2) as nat)));
            assert(crate::wire::spec_decode(b@) == Result::<(FrameView, nat), DecodeErr>::Ok(
                (FrameView::Mapping(map@), off as nat),
            ));
        }
        Result::Ok((RespFrame::Mapping(map), off))
    }
}

impl RespFrame {
    /// Decode one frame from the front of the buffer, consuming exactly
    /// its bytes; on any failure the buffer is unchanged.
    pub fn decode(buf: &mut bytes::BytesMut) -> (r: Result<RespFrame, RespError>)
        ensures
            match r {
                Result::Ok(f) => crate::wire::spec_decode(crate::bytebuf::bytes_view(*old(buf)))
                    matches Result::Ok((fv, n)) && frame_view(f) == fv && crate::bytebuf::bytes_view(
                    *final(buf),
                ) == crate::bytebuf::bytes_view(*old(buf)).skip(n as int),
                Result::Err(e) => crate::bytebuf::bytes_view(*final(buf))
                    == crate::bytebuf::bytes_view(*old(buf)) && crate::wire::spec_decode(
                    crate::bytebuf::bytes_view(*old(buf)),
                ) == Result::<(FrameView, nat), DecodeErr>::Err(err_view(e)),
            },
    {
        let b = crate::bytebuf::buf_bytes(buf);
        let (f, n) = match Self::decode_at(b) {
            Result::Ok(p) => p,
            Result::Err(e) => {
                return Result::Err(e);
            },
        };
        crate::bytebuf::buf_advance(buf, n);
        Result::Ok(f)
    }

    /// Append this frame's wire bytes to `out`.
    pub fn encode_to(&self, out: &mut Vec<u8>)
        ensures
            final(out)@ == old(out)@ + crate::wire::encode_frame(frame_view(*self)),
        decreases *self,
    {
        let ghost fv = frame_view(*self);
        match self {
            RespFrame::SimpleString(s) => {
                out.push(43);
                out.extend_from_slice(s.as_str().as_bytes());
                out.push(crate::wire::CR);
                out.push(crate::wire::LF);
                assert(out@ =~= old(out)@ + crate::wire::encode_frame(fv));
            },
            RespFrame::Error(s) => {
                out.push(45);
                out.extend_from_slice(s.as_str().as_bytes());
                out.push(crate::wire::CR);
                out.push(crate::wire::LF);
                assert(out@ =~= old(out)@ + crate::wire::encode_frame(fv));
            },
            RespFrame::Integer(i) => {
                out.push(58);
                if *i >= 0 {
                    out.push(43);
                    crate::resp::push_decimal(out, *i as u64);
                } else {
                    out.push(45);
                    let mag: u64 = if *i == i64::MIN {
                        9223372036854775808
                    } else {
                        (-*i) as u64
                    };
                    crate::resp::push_decimal(out, mag);
                }
                out.push(crate::wire::CR);
                out.push(crate::wire::LF);
                assert(out@ =~= old(out)@ + crate::wire::encode_frame(fv));
            },
            RespFrame::BulkString(b) => {
                match b.data() {
                    Option::None => {
                        let w = crate::resp::wire_null_bulk();
                        out.extend_from_slice(w.as_slice());
                        assert(out@ =~= old(out)@ + crate::wire::encode_frame(fv));
                    },
                    Option::Some(data) => {
                        out.push(36);
                        crate::resp::push_decimal(out, data.len() as u64);
                        out.push(crate::wire::CR);
                        out.push(crate::wire::LF);
                        out.extend_from_slice(data.as_slice());
                        out.push(crate::wire::CR);
                        out.push(crate::wire::LF);
                        assert(out@ =~= old(out)@ + crate::wire::encode_frame(fv));
                    },
                }
            },
            RespFrame::Array(a) => {
                out.push(42);
                crate::resp::push_decimal(out, a.0.len() as u64);
                out.push(crate::wire::CR);
                out.push(crate::wire::LF);
                proof {
                    lemma_frames_view_index(a.0@);
                }
                Self::encode_elems_to(&a.0, out);
                assert(out@ =~= old(out)@ + crate::wire::encode_frame(fv));
            },
            RespFrame::NullArray(_) => {
                let w = crate::resp::wire_null_array();
                out.extend_from_slice(w.as_slice());
                assert(out@ =~= old(out)@ + crate::wire::encode_frame(fv));
            },
            RespFrame::Null(_) => {
                let w = crate::resp::wire_null();
                out.extend_from_slice(w.as_slice());
                assert(out@ =~= old(out)@ + crate::wire::encode_frame(fv));
            },
            RespFrame::Boolean(v) => {
                let w = if *v {
                    crate::resp::wire_bool_true()
                } else {
                    crate::resp::wire_bool_false()
                };
                out.extend_from_slice(w.as_slice());
                assert(out@ =~= old(out)@ + crate::wire::encode_frame(fv));
            },
            RespFrame::Double(d) => {
                out.push(44);
                out.extend_from_slice(d.as_str().as_bytes());
                out.push(crate::wire::CR);
                out.push(crate::wire::LF);
                assert(out@ =~= old(out)@ + crate::wire::encode_frame(fv));
            },
            RespFrame::Mapping(m) => {
                out.push(37);
                crate::resp::push_decimal(out, m.0.len() as u64);
                out.push(crate::wire::CR);
                out.push(crate::wire::LF);
                proof {
                    lemma_entries_view_index(m.0@);
                }
                Self::encode_entries_to(&m.0, out);
                assert(out@ =~= old(out)@ + crate::wire::encode_frame(fv));
            },
            RespFrame::Collection(c) => {
                out.push(126);
                crate::resp::push_decimal(out, c.0.len() as u64);
                out.push(crate::wire::CR);
                out.push(crate::wire::LF);
                proof {
                    lemma_frames_view_index(c.0@);
                }
                Self::encode_elems_to(&c.0, out);
                assert(out@ =~= old(out)@ + crate::wire::encode_frame(fv));
            },
        }
    }

    /// Append the wire bytes of each frame of `elems`, in order.
    fn encode_elems_to(elems: &Vec<RespFrame>, out: &mut Vec<u8>)
        ensures
            final(out)@ == old(out)@ + crate::wire::encode_elems(frames_view(elems@)),
        decreases *elems,
    {
        let ghost evs = frames_view(elems@);
        proof {
            lemma_frames_view_index(elems@);
        }
        let n = elems.len();
        let mut i: usize = 0;
        while i < n
            invariant
                0 <= i <= n == elems@.len(),
                evs == frames_view(elems@),
                evs.len() == elems@.len(),
                forall|j: int| 0 <= j < n ==> #[trigger] evs[j] == frame_view(elems@[j]),
                out@ == old(out)@ + crate::wire::encode_elems(evs.take(i as int)),
            decreases n - i,
        {
            proof {
                assert(evs.take(i as int).push(evs[i as int]) =~= evs.take(i + 1));
                crate::wire::lemma_encode_elems_snoc(evs.take(i as int), evs[i as int]);
            }
            let f = vstd::std_specs::vec::vec_index(elems, i);
            f.encode_to(out);
            i += 1;
        }
        proof {
            assert(evs.take(n as int) =~= evs);
        }
    }

    /// Append the wire bytes of each map entry: the key as a simple
    /// string line, then the value frame.
    fn encode_entries_to(entries: &Vec<(String, RespFrame)>, out: &mut Vec<u8>)
        ensures
            final(out)@ == old(out)@ + crate::wire::encode_entries(entries_view(entries@)),
        decreases *entries,
    {
        let ghost evs = entries_view(entries@);
        proof {
            lemma_entries_view_index(entries@);
        }
        let n = entries.len();
        let mut i: usize = 0;
        while i < n
            invariant
                0 <= i <= n == entries@.len(),
                evs == entries_view(entries@),
                evs.len() == entries@.len(),
                forall|j: int|
                    0 <= j < n ==> #[trigger] evs[j] == (
                        entries@[j].0@,
                        frame_view(entries@[j].1),
                    ),
                out@ == old(out)@ + crate::wire::encode_entries(evs.take(i as int)),
            decreases n - i,
        {
            proof {
                assert(evs.take(i as int).push(evs[i as int]) =~= evs.take(i + 1));
                crate::wire::lemma_encode_entries_snoc(evs.take(i as int), evs[i as int]);
            }
            let pair = vstd::std_specs::vec::vec_index(entries, i);
            out.push(43);
            out.extend_from_slice(pair.0.as_str().as_bytes());
            out.push(crate::wire::CR);
            out.push(crate::wire::LF);
            pair.1.encode_to(out);
            proof {
                assert(out@ =~= old(out)@ + crate::wire::encode_entries(evs.take(i + 1)));
            }
            i += 1;
        }
        proof {
            assert(evs.take(n as int) =~= evs);
        }
    }

    /// A structurally equal copy of the frame.
    pub fn deep_clone(&self) -> (r: RespFrame)
        ensures
            frame_view(r) == frame_view(*self),
        decreases *self,
    {
        match self {
            RespFrame::SimpleString(s) => RespFrame::SimpleString(SimpleString::new(
                s.as_str().to_owned(),
            )),
            RespFrame::Error(s) => RespFrame::Error(SimpleError::new(s.as_str().to_owned())),
            RespFrame::Integer(i) => RespFrame::Integer(*i),
            RespFrame::BulkString(b) => RespFrame::BulkString(
                match b.data() {
                    Option::Some(v) => BulkString::new(vstd::slice::slice_to_vec(v.as_slice())),
                    Option::None => BulkString::new_null(),
                },
            ),
            RespFrame::Array(a) => RespFrame::Array(RespArray(Self::clone_frames(&a.0))),
            RespFrame::NullArray(_) => RespFrame::NullArray(RespNullArray),
            RespFrame::Null(_) => RespFrame::Null(RespNull),
            RespFrame::Boolean(v) => RespFrame::Boolean(*v),
            RespFrame::Double(d) => RespFrame::Double(d.duplicate()),
            RespFrame::Mapping(m) => RespFrame::Mapping(RespMap(Self::clone_entries(&m.0))),
            RespFrame::Collection(c) => RespFrame::Collection(RespSet(Self::clone_frames(&c.0))),
        }
    }

    fn clone_frames(elems: &Vec<RespFrame>) -> (r: Vec<RespFrame>)
        ensures
            frames_view(r@) == frames_view(elems@),
        decreases *elems,
    {
        proof {
            lemma_frames_view_index(elems@);
        }
        let n = elems.len();
        let mut out: Vec<RespFrame> = Vec::new();
        let mut i: usize = 0;
        while i < n
            invariant
                0 <= i <= n == elems@.len(),
                out@.len() == i,
                forall|j: int|
                    0 <= j < i ==> frame_view(#[trigger] out@[j]) == frame_view(elems@[j]),
            decreases n - i,
        {
            let f = vstd::std_specs::vec::vec_index(elems, i);
            out.push(f.deep_clone());
            i += 1;
        }
        proof {
            lemma_frames_view_index(elems@);
            lemma_frames_view_index(out@);
            assert(frames_view(out@) =~= frames_view(elems@));
        }
        out
    }

    pub(crate) fn clone_entries(entries: &Vec<(String, RespFrame)>) -> (r: Vec<(String, RespFrame)>)
        ensures
            entries_view(r@) == entries_view(entries@),
        decreases *entries,
    {
        proof {
            lemma_entries_view_index(entries@);
        }
        let n = entries.len();
        let mut out: Vec<(String, RespFrame)> = Vec::new();
        let mut i: usize = 0;
        while i < n
            invariant
                0 <= i <= n == entries@.len(),
                out@.len() == i,
                forall|j: int|
                    0 <= j < i ==> (#[trigger] out@[j]).0@ == entries@[j].0@ && frame_view(
                        out@[j].1,
                    ) == frame_view(entries@[j].1),
            decreases n - i,
        {
            let pair = vstd::std_specs::vec::vec_index(entries, i);
            let k = pair.0.as_str().to_owned();
            let v = pair.1.deep_clone();
            out.push((k, v));
            i += 1;
        }
        proof {
            lemma_entries_view_index(entries@);
            lemma_entries_view_index(out@);
            assert(entries_view(out@) =~= entries_view(entries@));
        }
        out
    }
}

impl crate::resp::RespEncode for RespFrame {
    open spec fn wire(&self) -> Seq<u8> {
        crate::wire::encode_frame(frame_view(*self))
    }

    fn encode(self) -> (r: Vec<u8>) {
        let mut out: Vec<u8> = Vec::new();
        self.encode_to(&mut out);
        proof {
            assert(out@ =~= crate::wire::encode_frame(frame_view(self)));
        }
        out
    }
}

impl crate::resp::RespEncode for RespArray {
    open spec fn wire(&self) -> Seq<u8> {
        crate::wire::encode_frame(FrameView::Array(self@))
    }

    fn encode(self) -> (r: Vec<u8>) {
        let f = RespFrame::Array(self);
        let mut out: Vec<u8> = Vec::new();
        f.encode_to(&mut out);
        proof {
            assert(out@ =~= crate::wire::encode_frame(frame_view(f)));
        }
        out
    }
}

impl crate::resp::RespEncode for RespSet {
    open spec fn wire(&self) -> Seq<u8> {
        crate::wire::encode_frame(FrameView::Collection(self@))
    }

    fn encode(self) -> (r: Vec<u8>) {
        let f = RespFrame::Collection(self);
        let mut out: Vec<u8> = Vec::new();
        f.encode_to(&mut out);
        proof {
            assert(out@ =~= crate::wire::encode_frame(frame_view(f)));
        }
        out
    }
}

impl crate::resp::RespEncode for RespMap {
    open spec fn wire(&self) -> Seq<u8> {
        crate::wire::encode_frame(FrameView::Mapping(self@))
    }

    fn encode(self) -> (r: Vec<u8>) {
        let f = RespFrame::Mapping(self);
        let mut out: Vec<u8> = Vec::new();
        f.encode_to(&mut out);
        proof {
            assert(out@ =~= crate::wire::encode_frame(frame_view(f)));
        }
        out
    }
}

} // verus!
