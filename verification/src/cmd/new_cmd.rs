//! The remaining commands: `echo` and `hmget`.
use vstd::prelude::*;
use crate::backend::Backend;
use crate::cmd::{
    cmd_err_view, collect_fields, extract_args, hmget_frames, inner_fields, spec_echo, spec_hmget,
    validate_command, CmdErr, CommandError, Echo, HMGet,
};
use crate::resp::array::RespArray;
use crate::resp::frame::{frame_view, frames_view, lemma_frames_view_index, RespFrame};
use crate::resp::simple_string::SimpleString;
use crate::resp::string_from_utf8;
use crate::wire::FrameView;
use vstd::utf8::encode_utf8;
use crate::cmd::{key_of, slot_ok};

verus! {

impl Echo {
    /// Read an `echo` request: exactly one argument, the message, as a
    /// UTF-8 bulk string.
    pub fn try_from(value: RespArray) -> (r: Result<Echo, CommandError>)
        ensures
            match r {
                Result::Ok(c) => spec_echo(value@) == Result::<Seq<char>, CmdErr>::Ok(c.message@),
                Result::Err(e) => spec_echo(value@) == Result::<Seq<char>, CmdErr>::Err(
                    cmd_err_view(e),
                ),
            },
    {
        proof {
            reveal_strlit("echo");
        }
        let mut names: Vec<&str> = Vec::new();
        names.push("echo");
        match validate_command(&value, names.as_slice(), 1) {
            Result::Ok(_) => {},
            Result::Err(e) => {
                return Result::Err(e);
            },
        }
        let ghost fs = value@;
        proof {
            assert(fs.len() == 2);
            assert(slot_ok(fs[0], encode_utf8(names@[0]@)));
            assert(names@[0]@ == "echo"@);
            assert(slot_ok(fs[0], crate::cmd::name_echo()));
        }
        let mut args = extract_args(value, 1);
        proof {
            lemma_frames_view_index(args@);
            assert(fs.skip(1)[0] == fs[1]);
            assert(frame_view(args@[0]) == fs[1]);
        }
        let a = args.remove(0);
        match a {
            RespFrame::BulkString(b) => match b.into_data() {
                Option::Some(v) => match string_from_utf8(v) {
                    Result::Ok(s) => Result::Ok(Echo { message: s }),
                    Result::Err(_) => Result::Err(CommandError::Utf8Error),
                },
                Option::None => Result::Err(
                    CommandError::InvalidArgument("Invalid message".to_owned()),
                ),
            },
            _ => Result::Err(CommandError::InvalidArgument("Invalid message".to_owned())),
        }
    }

    /// Reply with the message as a simple string; the store is untouched.
    pub fn execute(self, backend: &mut Backend) -> (r: RespFrame)
        requires
            old(backend).wf(),
        ensures
            final(backend).wf(),
            *final(backend) == *old(backend),
            frame_view(r) == FrameView::Simple(self.message@),
    {
        RespFrame::SimpleString(SimpleString::new(self.message))
    }
}

impl HMGet {
    /// Read an `hmget` request: the key, then fields taken greedily while
    /// the arguments keep being bulk strings holding bytes; a null bulk
    /// string, like any argument of another shape, ends the fields, and
    /// anything after it is ignored.  The count is not checked.
    pub fn try_from(value: RespArray) -> (r: Result<HMGet, CommandError>)
        ensures
            match r {
                Result::Ok(c) => spec_hmget(value@) == Result::<
                    (Seq<char>, Seq<Seq<char>>),
                    CmdErr,
                >::Ok((c.key@, c.fields.deep_view())),
                Result::Err(e) => spec_hmget(value@) == Result::<
                    (Seq<char>, Seq<Seq<char>>),
                    CmdErr,
                >::Err(cmd_err_view(e)),
            },
    {
        let ghost fs = value@;
        proof {
            lemma_frames_view_index(value.0@);
        }
        if value.0.len() < 2 {
            return Result::Err(CommandError::InvalidArgument("Invalid key".to_owned()));
        }
        let mut args = extract_args(value, 1);
        proof {
            lemma_frames_view_index(args@);
            assert(fs.skip(1)[0] == fs[1]);
            assert(frame_view(args@[0]) == fs[1]);
        }
        let ghost argsfull = args@;
        let a = args.remove(0);
        proof {
            assert(args@ =~= argsfull.skip(1));
        }
        let key = match a {
            RespFrame::BulkString(b) => match b.into_data() {
                Option::Some(v) => match string_from_utf8(v) {
                    Result::Ok(s) => s,
                    Result::Err(_) => {
                        return Result::Err(CommandError::Utf8Error);
                    },
                },
                Option::None => {
                    return Result::Err(CommandError::InvalidArgument("Invalid key".to_owned()));
                },
            },
            _ => {
                return Result::Err(CommandError::InvalidArgument("Invalid key".to_owned()));
            },
        };
        proof {
            lemma_frames_view_index(args@);
            assert forall|j: int| 0 <= j < args@.len() implies fs[j + 2] == frame_view(
                #[trigger] args@[j],
            ) by {
                assert(args@[j] == argsfull[j + 1]);
                assert(frames_view(argsfull)[j + 1] == frame_view(argsfull[j + 1]));
                assert(fs.skip(1)[j + 1] == fs[j + 2]);
            }
        }
        let n = args.len();
        let mut fields: Vec<String> = Vec::new();
        let mut i: usize = 0;
        while i < n
            invariant
                fs == value@,
                0 <= i <= n == args@.len(),
                fs.len() == args@.len() + 2,
                key_of(fs[1]) == Result::<Seq<char>, CmdErr>::Ok(key@),
                forall|j: int| 0 <= j < n ==> fs[j + 2] == frame_view(#[trigger] args@[j]),
                match collect_fields(fs, 2 + i) {
                    Result::Ok(rest) => collect_fields(fs, 2) == Result::<
                        Seq<Seq<char>>,
                        CmdErr,
                    >::Ok(fields.deep_view() + rest),
                    Result::Err(e) => collect_fields(fs, 2) == Result::<
                        Seq<Seq<char>>,
                        CmdErr,
                    >::Err(e),
                },
            decreases n - i,
        {
            let f = vstd::std_specs::vec::vec_index(&args, i);
            match f {
                RespFrame::BulkString(b) => match b.data() {
                    Option::Some(d) => {
                        match string_from_utf8(vstd::slice::slice_to_vec(d.as_slice())) {
                            Result::Ok(s) => {
                                let ghost dv0 = fields.deep_view();
                                fields.push(s);
                                proof {
                                    assert(fields.deep_view() =~= dv0.push(s@));
                                    match collect_fields(fs, 2 + i + 1) {
                                        Result::Ok(rest) => {
                                            assert((dv0 + (seq![s@] + rest)) =~= (dv0.push(s@)
                                                + rest));
                                        },
                                        Result::Err(_) => {},
                                    }
                                }
                                i += 1;
                            },
                            Result::Err(_) => {
                                return Result::Err(CommandError::Utf8Error);
                            },
                        }
                    },
                    Option::None => {
                        proof {
                            assert(collect_fields(fs, 2 + i) == Result::<
                                Seq<Seq<char>>,
                                CmdErr,
                            >::Ok(Seq::empty()));
                            assert(fields.deep_view() + Seq::<Seq<char>>::empty()
                                =~= fields.deep_view());
                        }
                        return Result::Ok(HMGet { key, fields });
                    },
                },
                _ => {
                    proof {
                        assert(collect_fields(fs, 2 + i) == Result::<Seq<Seq<char>>, CmdErr>::Ok(
                            Seq::empty(),
                        ));
                        assert(fields.deep_view() + Seq::<Seq<char>>::empty()
                            =~= fields.deep_view());
                    }
                    return Result::Ok(HMGet { key, fields });
                },
            }
        }
        proof {
            assert(collect_fields(fs, 2 + i) == Result::<Seq<Seq<char>>, CmdErr>::Ok(
                Seq::empty(),
            ));
            assert(fields.deep_view() + Seq::<Seq<char>>::empty() =~= fields.deep_view());
        }
        Result::Ok(HMGet { key, fields })
    }

    /// Reply with the stored frame per requested field, in request order,
    /// with the placeholder text for a missing field; the store is
    /// untouched.
    pub fn execute(self, backend: &mut Backend) -> (r: RespFrame)
        requires
            old(backend).wf(),
        ensures
            final(backend).wf(),
            *final(backend) == *old(backend),
            frame_view(r) == FrameView::Array(
                hmget_frames(
                    inner_fields(old(backend).hkv(), self.key@),
                    self.fields.deep_view(),
                ),
            ),
    {
        let ghost m = inner_fields(backend.hkv(), self.key@);
        let ghost fsv = self.fields.deep_view();
        let n = self.fields.len();
        let mut out: Vec<RespFrame> = Vec::new();
        let mut i: usize = 0;
        while i < n
            invariant
                old(backend).wf(),
                backend.wf(),
                *backend == *old(backend),
                0 <= i <= n == self.fields@.len(),
                m == inner_fields(backend.hkv(), self.key@),
                fsv == self.fields.deep_view(),
                fsv.len() == n,
                forall|j: int| 0 <= j < n ==> #[trigger] fsv[j] == self.fields@[j]@,
                frames_view(out@) == hmget_frames(m, fsv.take(i as int)),
            decreases n - i,
        {
            proof {
                assert(fsv.take(i as int).push(fsv[i as int]) =~= fsv.take(i + 1));
                lemma_hmget_frames_snoc(m, fsv.take(i as int), fsv[i as int]);
            }
            let field = vstd::std_specs::vec::vec_index(&self.fields, i);
            let ghost out0 = out@;
            match backend.hget(self.key.as_str(), field.as_str()) {
                Option::Some(v) => {
                    out.push(v);
                },
                Option::None => {
                    out.push(RespFrame::SimpleString(SimpleString::new("(nil)".to_owned())));
                },
            }
            proof {
                lemma_frames_view_index(out0);
                lemma_frames_view_index(out@);
                assert(frames_view(out@) =~= hmget_frames(m, fsv.take(i + 1)));
            }
            i += 1;
        }
        proof {
            assert(fsv.take(n as int) =~= fsv);
        }
        RespFrame::Array(crate::resp::array::RespArray(out))
    }
}

/// Appending one field appends its reply frame.
pub proof fn lemma_hmget_frames_snoc(
    m: Map<Seq<char>, FrameView>,
    fields: Seq<Seq<char>>,
    x: Seq<char>,
)
    ensures
        hmget_frames(m, fields.push(x)) == hmget_frames(m, fields) + seq![
            if m.contains_key(x) {
                m.index(x)
            } else {
                FrameView::Simple("(nil)"@)
            },
        ],
    decreases fields.len(),
{
    if fields.len() == 0 {
        assert(fields.push(x)[0] == x);
        assert(fields.push(x).drop_first() =~= Seq::<Seq<char>>::empty());
        assert(hmget_frames(m, Seq::empty()) == Seq::<FrameView>::empty());
        assert(hmget_frames(m, fields.push(x)) =~= hmget_frames(m, fields) + seq![
            if m.contains_key(x) {
                m.index(x)
            } else {
                FrameView::Simple("(nil)"@)
            },
        ]);
    } else {
        assert(fields.push(x)[0] == fields[0]);
        assert(fields.push(x).drop_first() =~= fields.drop_first().push(x));
        lemma_hmget_frames_snoc(m, fields.drop_first(), x);
        assert(hmget_frames(m, fields.push(x)) =~= hmget_frames(m, fields) + seq![
            if m.contains_key(x) {
                m.index(x)
            } else {
                FrameView::Simple("(nil)"@)
            },
        ]);
    }
}

} // verus!
