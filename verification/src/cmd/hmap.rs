//! The nested-namespace commands: `hget`, `hset`, `hgetall`.
use vstd::prelude::*;
use crate::backend::{assoc_map, Backend};
use crate::cmd::{
    cmd_err_view, extract_args, inner_fields, interleave, ok_frame, spec_hget, spec_hgetall,
    spec_hset, validate_command, CmdErr, CommandError, HGet, HGetAll, HSet,
};
use crate::resp::array::RespArray;
use crate::resp::bulk_string::BulkString;
use crate::resp::frame::{
    frame_view, frames_view, lemma_entries_view_index, lemma_frames_view_index, RespFrame,
};
use crate::resp::map::frame_view_of;
use crate::resp::null::RespNull;
use crate::resp::simple_string::SimpleString;
use crate::resp::string_from_utf8;
use crate::wire::FrameView;
use vstd::utf8::encode_utf8;
use crate::cmd::slot_ok;

verus! {

/// Appending one entry appends its field line and value to the reply.
pub proof fn lemma_interleave_snoc(s: Seq<(Seq<char>, FrameView)>, x: (Seq<char>, FrameView))
    ensures
        interleave(s.push(x)) == interleave(s) + seq![
            FrameView::Bulk(Option::Some(encode_utf8(x.0))),
            x.1,
        ],
    decreases s.len(),
{
    if s.len() == 0 {
        assert(s.push(x)[0] == x);
        assert(s.push(x).drop_first() =~= Seq::<(Seq<char>, FrameView)>::empty());
        assert(interleave(Seq::<(Seq<char>, FrameView)>::empty()) == Seq::<FrameView>::empty());
        assert(interleave(s.push(x)) =~= interleave(s) + seq![
            FrameView::Bulk(Option::Some(encode_utf8(x.0))),
            x.1,
        ]);
    } else {
        assert(s.push(x)[0] == s[0]);
        assert(s.push(x).drop_first() =~= s.drop_first().push(x));
        lemma_interleave_snoc(s.drop_first(), x);
        assert(interleave(s.push(x)) =~= interleave(s) + seq![
            FrameView::Bulk(Option::Some(encode_utf8(x.0))),
            x.1,
        ]);
    }
}

impl HGet {
    /// Read an `hget` request: the key and the field, both UTF-8 bulk
    /// strings.
    pub fn try_from(value: RespArray) -> (r: Result<HGet, CommandError>)
        ensures
            match r {
                Result::Ok(c) => spec_hget(value@) == Result::<
                    (Seq<char>, Seq<char>),
                    CmdErr,
                >::Ok((c.key@, c.field@)),
                Result::Err(e) => spec_hget(value@) == Result::<
                    (Seq<char>, Seq<char>),
                    CmdErr,
                >::Err(cmd_err_view(e)),
            },
    {
        proof {
            reveal_strlit("hget");
        }
        let mut names: Vec<&str> = Vec::new();
        names.push("hget");
        match validate_command(&value, names.as_slice(), 2) {
            Result::Ok(_) => {},
            Result::Err(e) => {
                return Result::Err(e);
            },
        }
        let ghost fs = value@;
        proof {
            assert(fs.len() == 3);
            assert(slot_ok(fs[0], encode_utf8(names@[0]@)));
            assert(names@[0]@ == "hget"@);
            assert(slot_ok(fs[0], crate::cmd::name_hget()));
        }
        let mut args = extract_args(value, 1);
        proof {
            lemma_frames_view_index(args@);
            assert(fs.skip(1)[0] == fs[1] && fs.skip(1)[1] == fs[2]);
            assert(frame_view(args@[0]) == fs[1]);
            assert(frame_view(args@[1]) == fs[2]);
        }
        let ghost args0 = args@;
        let k = args.remove(0);
        proof {
            assert(args@ =~= args0.skip(1));
        }
        let f = args.remove(0);
        match (k, f) {
            (RespFrame::BulkString(kb), RespFrame::BulkString(fb)) => match (
                kb.into_data(),
                fb.into_data(),
            ) {
                (Option::Some(kv), Option::Some(fv)) => match string_from_utf8(kv) {
                    Result::Ok(ks) => match string_from_utf8(fv) {
                        Result::Ok(fsr) => Result::Ok(HGet { key: ks, field: fsr }),
                        Result::Err(_) => Result::Err(CommandError::Utf8Error),
                    },
                    Result::Err(_) => Result::Err(CommandError::Utf8Error),
                },
                _ => Result::Err(
                    CommandError::InvalidArgument("Expected key and field arguments".to_owned()),
                ),
            },
            _ => Result::Err(
                CommandError::InvalidArgument("Expected key and field arguments".to_owned()),
            ),
        }
    }

    /// Read one field of the nested namespace: the stored frame, or the
    /// null frame.
    pub fn execute(self, backend: &mut Backend) -> (r: RespFrame)
        requires
            old(backend).wf(),
        ensures
            final(backend).wf(),
            *final(backend) == *old(backend),
            frame_view(r) == (if inner_fields(old(backend).hkv(), self.key@).contains_key(
                self.field@,
            ) {
                inner_fields(old(backend).hkv(), self.key@).index(self.field@)
            } else {
                FrameView::Null
            }),
    {
        match backend.hget(self.key.as_str(), self.field.as_str()) {
            Option::Some(v) => v,
            Option::None => RespFrame::Null(RespNull),
        }
    }
}

impl HGetAll {
    /// Read an `hgetall` request: exactly one argument, the key, as a
    /// UTF-8 bulk string.
    pub fn try_from(value: RespArray) -> (r: Result<HGetAll, CommandError>)
        ensures
            match r {
                Result::Ok(c) => spec_hgetall(value@) == Result::<Seq<char>, CmdErr>::Ok(c.key@),
                Result::Err(e) => spec_hgetall(value@) == Result::<Seq<char>, CmdErr>::Err(
                    cmd_err_view(e),
                ),
            },
    {
        proof {
            reveal_strlit("hgetall");
        }
        let mut names: Vec<&str> = Vec::new();
        names.push("hgetall");
        match validate_command(&value, names.as_slice(), 1) {
            Result::Ok(_) => {},
            Result::Err(e) => {
                return Result::Err(e);
            },
        }
        let ghost fs = value@;
        proof {
            assert(fs.len() == 2);
            assert(slot_ok(fs[0], encode_utf8(names@[0]@)));
            assert(names@[0]@ == "hgetall"@);
            assert(slot_ok(fs[0], crate::cmd::name_hgetall()));
        }
        let mut args = extract_args(value, 1);
        proof {
            lemma_frames_view_index(args@);
            assert(fs.skip(1)[0] == fs[1]);
            assert(frame_view(args@[0]) == fs[1]);
        }
        let a = args.remove(0);
        match a {
            RespFrame::BulkString(b) => match b.into_data() {
                Option::Some(v) => match string_from_utf8(v) {
                    Result::Ok(s) => Result::Ok(HGetAll { key: s }),
                    Result::Err(_) => Result::Err(CommandError::Utf8Error),
                },
                Option::None => Result::Err(
                    CommandError::InvalidArgument("Expected key argument".to_owned()),
                ),
            },
            _ => Result::Err(CommandError::InvalidArgument("Expected key argument".to_owned())),
        }
    }

    /// Read all fields of a key: an array alternating field name and
    /// value in stored order, empty for an absent key.
    pub fn execute(self, backend: &mut Backend) -> (r: RespFrame)
        requires
            old(backend).wf(),
        ensures
            final(backend).wf(),
            *final(backend) == *old(backend),
            frame_view(r) == FrameView::Array(
                if old(backend).hkv().contains_key(self.key@) {
                    interleave(old(backend).hkv().index(self.key@))
                } else {
                    Seq::empty()
                },
            ),
    {
        let inner = match backend.hgetall(self.key.as_str()) {
            Option::Some(m) => m,
            Option::None => {
                let out: Vec<RespFrame> = Vec::new();
                proof {
                    lemma_frames_view_index(out@);
                    assert(frames_view(out@) =~= Seq::<FrameView>::empty());
                }
                return RespFrame::Array(crate::resp::array::RespArray(out));
            },
        };
        let ghost entries = inner@;
        proof {
            lemma_entries_view_index(inner.0@);
        }
        let n = inner.0.len();
        let mut out: Vec<RespFrame> = Vec::new();
        let mut i: usize = 0;
        while i < n
            invariant
                0 <= i <= n == inner.0@.len(),
                entries == inner@,
                entries.len() == n,
                forall|j: int|
                    0 <= j < n ==> #[trigger] entries[j] == (
                        inner.0@[j].0@,
                        frame_view(inner.0@[j].1),
                    ),
                frames_view(out@) == interleave(entries.take(i as int)),
            decreases n - i,
        {
            proof {
                assert(entries.take(i as int).push(entries[i as int]) =~= entries.take(i + 1));
                lemma_interleave_snoc(entries.take(i as int), entries[i as int]);
            }
            let pair = vstd::std_specs::vec::vec_index(&inner.0, i);
            let ghost out0 = out@;
            out.push(
                RespFrame::BulkString(
                    BulkString::new(vstd::slice::slice_to_vec(pair.0.as_str().as_bytes())),
                ),
            );
            out.push(pair.1.deep_clone());
            proof {
                lemma_frames_view_index(out0);
                lemma_frames_view_index(out@);
                assert(frames_view(out@) =~= interleave(entries.take(i + 1)));
            }
            i += 1;
        }
        proof {
            assert(entries.take(n as int) =~= entries);
        }
        RespFrame::Array(crate::resp::array::RespArray(out))
    }
}

impl HSet {
    /// Read an `hset` request: key and field as UTF-8 bulk strings, and
    /// the stored frame of any type.
    pub fn try_from(value: RespArray) -> (r: Result<HSet, CommandError>)
        ensures
            match r {
                Result::Ok(c) => spec_hset(value@) == Result::<
                    (Seq<char>, Seq<char>, FrameView),
                    CmdErr,
                >::Ok((c.key@, c.field@, frame_view(c.value))),
                Result::Err(e) => spec_hset(value@) == Result::<
                    (Seq<char>, Seq<char>, FrameView),
                    CmdErr,
                >::Err(cmd_err_view(e)),
            },
    {
        proof {
            reveal_strlit("hset");
        }
        let mut names: Vec<&str> = Vec::new();
        names.push("hset");
        match validate_command(&value, names.as_slice(), 3) {
            Result::Ok(_) => {},
            Result::Err(e) => {
                return Result::Err(e);
            },
        }
        let ghost fs = value@;
        proof {
            assert(fs.len() == 4);
            assert(slot_ok(fs[0], encode_utf8(names@[0]@)));
            assert(names@[0]@ == "hset"@);
            assert(slot_ok(fs[0], crate::cmd::name_hset()));
        }
        let mut args = extract_args(value, 1);
        proof {
            lemma_frames_view_index(args@);
            assert(fs.skip(1)[0] == fs[1] && fs.skip(1)[1] == fs[2] && fs.skip(1)[2] == fs[3]);
            assert(frame_view(args@[0]) == fs[1]);
            assert(frame_view(args@[1]) == fs[2]);
            assert(frame_view(args@[2]) == fs[3]);
        }
        let ghost args0 = args@;
        let k = args.remove(0);
        proof {
            assert(args@ =~= args0.skip(1));
        }
        let f = args.remove(0);
        proof {
            assert(args@ =~= args0.skip(2));
        }
        let v = args.remove(0);
        match (k, f) {
            (RespFrame::BulkString(kb), RespFrame::BulkString(fb)) => match (
                kb.into_data(),
                fb.into_data(),
            ) {
                (Option::Some(kv), Option::Some(fv)) => match string_from_utf8(kv) {
                    Result::Ok(ks) => match string_from_utf8(fv) {
                        Result::Ok(fsr) => Result::Ok(HSet { key: ks, field: fsr, value: v }),
                        Result::Err(_) => Result::Err(CommandError::Utf8Error),
                    },
                    Result::Err(_) => Result::Err(CommandError::Utf8Error),
                },
                _ => Result::Err(
                    CommandError::InvalidArgument(
                        "Expected key, field and value arguments".to_owned(),
                    ),
                ),
            },
            _ => Result::Err(
                CommandError::InvalidArgument(
                    "Expected key, field and value arguments".to_owned(),
                ),
            ),
        }
    }

    /// Write one field of the nested namespace and reply `OK`.
    pub fn execute(self, backend: &mut Backend) -> (r: RespFrame)
        requires
            old(backend).wf(),
        ensures
            final(backend).wf(),
            final(backend).kv() == old(backend).kv(),
            final(backend).hkv() == old(backend).hkv().insert(
                self.key@,
                crate::wire::upsert(
                    if old(backend).hkv().contains_key(self.key@) {
                        old(backend).hkv().index(self.key@)
                    } else {
                        Seq::empty()
                    },
                    self.field@,
                    frame_view_of(self.value),
                ),
            ),
            frame_view(r) == ok_frame(),
    {
        backend.hset(self.key, self.field, self.value);
        RespFrame::SimpleString(SimpleString::new("OK".to_owned()))
    }
}

} // verus!
