//! The flat-namespace commands: `get` and `set`.
use vstd::prelude::*;
use crate::backend::Backend;
use crate::cmd::{
    cmd_err_view, extract_args, key_of, ok_frame, slot_ok, spec_get, spec_set, validate_command,
    CmdErr, CommandError, Get, SetCmd,
};
use crate::resp::array::RespArray;
use crate::resp::frame::{frame_view, frames_view, lemma_frames_view_index, RespFrame};
use crate::resp::map::frame_view_of;
use crate::resp::null::RespNull;
use crate::resp::simple_string::SimpleString;
use crate::resp::string_from_utf8;
use crate::wire::FrameView;
use vstd::utf8::encode_utf8;
use crate::cmd::name_get;

verus! {

impl Get {
    /// Read a `get` request: exactly one argument, the key, as a UTF-8
    /// bulk string.
    pub fn try_from(value: RespArray) -> (r: Result<Get, CommandError>)
        ensures
            match r {
                Result::Ok(g) => spec_get(value@) == Result::<Seq<char>, CmdErr>::Ok(g.key@),
                Result::Err(e) => spec_get(value@) == Result::<Seq<char>, CmdErr>::Err(
                    cmd_err_view(e),
                ),
            },
    {
        proof {
            reveal_strlit("get");
        }
        let mut names: Vec<&str> = Vec::new();
        names.push("get");
        match validate_command(&value, names.as_slice(), 1) {
            Result::Ok(_) => {},
            Result::Err(e) => {
                return Result::Err(e);
            },
        }
        let ghost fs = value@;
        proof {
            assert(fs.len() == 2);
            assert(slot_ok(fs[0], encode_utf8(names@[0]@)));
            assert(names@[0]@ == "get"@);
            assert(slot_ok(fs[0], name_get()));
        }
        let mut args = extract_args(value, 1);
        proof {
            lemma_frames_view_index(args@);
            assert(fs.skip(1)[0] == fs[1]);
            assert(frame_view(args@[0]) == fs[1]);
        }
        let a = args.remove(0);
        match a {
            RespFrame::BulkString(b) => match b.into_data() {
                Option::Some(v) => match string_from_utf8(v) {
                    Result::Ok(s) => Result::Ok(Get { key: s }),
                    Result::Err(_) => Result::Err(CommandError::Utf8Error),
                },
                Option::None => Result::Err(
                    CommandError::InvalidArgument("Invalid key".to_owned()),
                ),
            },
            _ => Result::Err(CommandError::InvalidArgument("Invalid key".to_owned())),
        }
    }

    /// Read the flat namespace: the stored frame, or the null frame.
    pub fn execute(self, backend: &mut Backend) -> (r: RespFrame)
        requires
            old(backend).wf(),
        ensures
            final(backend).wf(),
            *final(backend) == *old(backend),
            frame_view(r) == (if old(backend).kv().contains_key(self.key@) {
                old(backend).kv().index(self.key@)
            } else {
                FrameView::Null
            }),
    {
        match backend.get(self.key.as_str()) {
            Option::Some(v) => v,
            Option::None => RespFrame::Null(RespNull),
        }
    }
}

impl SetCmd {
    /// Read a `set` request: the key as a UTF-8 bulk string and the
    /// stored frame, which may be of any type.
    pub fn try_from(value: RespArray) -> (r: Result<SetCmd, CommandError>)
        ensures
            match r {
                Result::Ok(c) => spec_set(value@) == Result::<(Seq<char>, FrameView), CmdErr>::Ok(
                    (c.key@, frame_view(c.value)),
                ),
                Result::Err(e) => spec_set(value@) == Result::<(Seq<char>, FrameView), CmdErr>::Err(
                    cmd_err_view(e),
                ),
            },
    {
        proof {
            reveal_strlit("set");
        }
        let mut names: Vec<&str> = Vec::new();
        names.push("set");
        match validate_command(&value, names.as_slice(), 2) {
            Result::Ok(_) => {},
            Result::Err(e) => {
                return Result::Err(e);
            },
        }
        let ghost fs = value@;
        proof {
            assert(fs.len() == 3);
            assert(slot_ok(fs[0], encode_utf8(names@[0]@)));
            assert(names@[0]@ == "set"@);
            assert(slot_ok(fs[0], crate::cmd::name_set()));
        }
        let mut args = extract_args(value, 1);
        proof {
            lemma_frames_view_index(args@);
            assert(fs.skip(1)[0] == fs[1] && fs.skip(1)[1] == fs[2]);
            assert(frame_view(args@[0]) == fs[1]);
            assert(frame_view(args@[1]) == fs[2]);
        }
        let ghost args0 = args@;
        let k = args.remove(0);
        proof {
            assert(args@ =~= args0.skip(1));
        }
        let v = args.remove(0);
        match k {
            RespFrame::BulkString(b) => match b.into_data() {
                Option::Some(kb) => match string_from_utf8(kb) {
                    Result::Ok(s) => Result::Ok(SetCmd { key: s, value: v }),
                    Result::Err(_) => Result::Err(CommandError::Utf8Error),
                },
                Option::None => Result::Err(
                    CommandError::InvalidArgument("Invalid key or value".to_owned()),
                ),
            },
            _ => Result::Err(CommandError::InvalidArgument("Invalid key or value".to_owned())),
        }
    }

    /// Write the flat namespace and reply `OK`.
    pub fn execute(self, backend: &mut Backend) -> (r: RespFrame)
        requires
            old(backend).wf(),
        ensures
            final(backend).wf(),
            final(backend).kv() == old(backend).kv().insert(self.key@, frame_view_of(self.value)),
            final(backend).hkv() == old(backend).hkv(),
            frame_view(r) == ok_frame(),
    {
        backend.set(self.key, self.value);
        RespFrame::SimpleString(SimpleString::new("OK".to_owned()))
    }
}

} // verus!
