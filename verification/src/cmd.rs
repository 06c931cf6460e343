//! The command layer: typed commands parsed from a decoded array frame,
//! validated, and executed against the store.
use vstd::prelude::*;
use crate::backend::{assoc_map, Backend};
use crate::resp::array::RespArray;
use crate::resp::bulk_string::BulkString;
use crate::resp::frame::{frame_view, frames_view, lemma_frames_view_index, RespFrame};
use crate::resp::simple_string::SimpleString;
use crate::resp::{ascii_lower_vec, eq_bytes, RespError, string_from_utf8};
use crate::wire::{ascii_lower, FrameView};
use vstd::utf8::{decode_utf8, encode_utf8, valid_utf8};

pub mod hmap;
pub mod map;
pub mod new_cmd;

verus! {

/// How command construction fails.
#[derive(Debug, PartialEq, Eq)]
pub enum CommandError {
    InvalidCommand(String),
    InvalidArgument(String),
    RespError(RespError),
    Utf8Error,
}

/// The error kind an executable command error stands for.
pub enum CmdErr {
    BadCommand,
    BadArgument,
    BadUtf8,
    Codec,
}

pub open spec fn cmd_err_view(e: CommandError) -> CmdErr {
    match e {
        CommandError::InvalidCommand(_) => CmdErr::BadCommand,
        CommandError::InvalidArgument(_) => CmdErr::BadArgument,
        CommandError::RespError(_) => CmdErr::Codec,
        CommandError::Utf8Error => CmdErr::BadUtf8,
    }
}

pub open spec fn name_get() -> Seq<u8> {
    encode_utf8("get"@)
}

pub open spec fn name_set() -> Seq<u8> {
    encode_utf8("set"@)
}

pub open spec fn name_hget() -> Seq<u8> {
    encode_utf8("hget"@)
}

pub open spec fn name_hset() -> Seq<u8> {
    encode_utf8("hset"@)
}

pub open spec fn name_hgetall() -> Seq<u8> {
    encode_utf8("hgetall"@)
}

pub open spec fn name_echo() -> Seq<u8> {
    encode_utf8("echo"@)
}

pub open spec fn name_hmget() -> Seq<u8> {
    encode_utf8("hmget"@)
}

/// A name slot holds a bulk string whose lowercased bytes are the
/// expected command name.
pub open spec fn slot_ok(f: FrameView, name: Seq<u8>) -> bool {
    f matches FrameView::Bulk(Option::Some(d)) && ascii_lower(d) == name
}

/// A key or text argument: a bulk string holding UTF-8.
pub open spec fn key_of(f: FrameView) -> Result<Seq<char>, CmdErr> {
    match f {
        FrameView::Bulk(od) => match od {
            Option::Some(d) => if valid_utf8(d) {
                Result::Ok(decode_utf8(d))
            } else {
                Result::Err(CmdErr::BadUtf8)
            },
            Option::None => Result::Err(CmdErr::BadArgument),
        },
        _ => Result::Err(CmdErr::BadArgument),
    }
}

/// What a `get` request must look like, and the key it carries.
pub open spec fn spec_get(fs: Seq<FrameView>) -> Result<Seq<char>, CmdErr> {
    if fs.len() != 2 {
        Result::Err(CmdErr::BadArgument)
    } else if !slot_ok(fs[0], name_get()) {
        Result::Err(CmdErr::BadCommand)
    } else {
        key_of(fs[1])
    }
}

/// What a `set` request must look like: the key and the stored frame,
/// which may be of any type.
pub open spec fn spec_set(fs: Seq<FrameView>) -> Result<(Seq<char>, FrameView), CmdErr> {
    if fs.len() != 3 {
        Result::Err(CmdErr::BadArgument)
    } else if !slot_ok(fs[0], name_set()) {
        Result::Err(CmdErr::BadCommand)
    } else {
        match fs[1] {
            FrameView::Bulk(od) => match od {
                Option::Some(d) => if valid_utf8(d) {
                    Result::Ok((decode_utf8(d), fs[2]))
                } else {
                    Result::Err(CmdErr::BadUtf8)
                },
                Option::None => Result::Err(CmdErr::BadArgument),
            },
            _ => Result::Err(CmdErr::BadArgument),
        }
    }
}

/// What an `hget` request must look like: the key and the field.
pub open spec fn spec_hget(fs: Seq<FrameView>) -> Result<(Seq<char>, Seq<char>), CmdErr> {
    if fs.len() != 3 {
        Result::Err(CmdErr::BadArgument)
    } else if !slot_ok(fs[0], name_hget()) {
        Result::Err(CmdErr::BadCommand)
    } else if !(fs[1] matches FrameView::Bulk(Option::Some(_)) && fs[2]
        matches FrameView::Bulk(Option::Some(_))) {
        Result::Err(CmdErr::BadArgument)
    } else {
        match (key_of(fs[1]), key_of(fs[2])) {
            (Result::Ok(k), Result::Ok(f)) => Result::Ok((k, f)),
            (Result::Err(e), _) => Result::Err(e),
            (_, Result::Err(e)) => Result::Err(e),
        }
    }
}

/// What an `hset` request must look like: key, field, and the stored
/// frame of any type.
pub open spec fn spec_hset(fs: Seq<FrameView>) -> Result<
    (Seq<char>, Seq<char>, FrameView),
    CmdErr,
> {
    if fs.len() != 4 {
        Result::Err(CmdErr::BadArgument)
    } else if !slot_ok(fs[0], name_hset()) {
        Result::Err(CmdErr::BadCommand)
    } else if !(fs[1] matches FrameView::Bulk(Option::Some(_)) && fs[2]
        matches FrameView::Bulk(Option::Some(_))) {
        Result::Err(CmdErr::BadArgument)
    } else {
        match (key_of(fs[1]), key_of(fs[2])) {
            (Result::Ok(k), Result::Ok(f)) => Result::Ok((k, f, fs[3])),
            (Result::Err(e), _) => Result::Err(e),
            (_, Result::Err(e)) => Result::Err(e),
        }
    }
}

/// What an `hgetall` request must look like, and the key it carries.
pub open spec fn spec_hgetall(fs: Seq<FrameView>) -> Result<Seq<char>, CmdErr> {
    if fs.len() != 2 {
        Result::Err(CmdErr::BadArgument)
    } else if !slot_ok(fs[0], name_hgetall()) {
        Result::Err(CmdErr::BadCommand)
    } else {
        key_of(fs[1])
    }
}

/// What an `echo` request must look like, and the message it carries.
pub open spec fn spec_echo(fs: Seq<FrameView>) -> Result<Seq<char>, CmdErr> {
    if fs.len() != 2 {
        Result::Err(CmdErr::BadArgument)
    } else if !slot_ok(fs[0], name_echo()) {
        Result::Err(CmdErr::BadCommand)
    } else {
        key_of(fs[1])
    }
}

/// The fields of an `hmget` request, taken greedily from position `i`
/// while the arguments keep decoding as bulk strings; the first argument
/// of any other shape ends the fields, and anything after it is ignored.
pub open spec fn collect_fields(fs: Seq<FrameView>, i: int) -> Result<Seq<Seq<char>>, CmdErr>
    decreases fs.len() - i,
{
    if i < 0 || i >= fs.len() {
        Result::Ok(Seq::empty())
    } else {
        match fs[i] {
            FrameView::Bulk(od) => match od {
                Option::Some(d) => if valid_utf8(d) {
                    match collect_fields(fs, i + 1) {
                        Result::Ok(rest) => Result::Ok(seq![decode_utf8(d)] + rest),
                        Result::Err(e) => Result::Err(e),
                    }
                } else {
                    Result::Err(CmdErr::BadUtf8)
                },
                Option::None => Result::Ok(Seq::empty()),
            },
            _ => Result::Ok(Seq::empty()),
        }
    }
}

/// What an `hmget` request must look like: the key, then the greedily
/// collected fields.  The name slot is not checked, and the field count
/// is not bounded.
pub open spec fn spec_hmget(fs: Seq<FrameView>) -> Result<(Seq<char>, Seq<Seq<char>>), CmdErr> {
    if fs.len() < 2 {
        Result::Err(CmdErr::BadArgument)
    } else {
        match key_of(fs[1]) {
            Result::Err(e) => Result::Err(e),
            Result::Ok(k) => match collect_fields(fs, 2) {
                Result::Err(e) => Result::Err(e),
                Result::Ok(fields) => Result::Ok((k, fields)),
            },
        }
    }
}

/// The request a command value stands for.
pub enum CmdView {
    Get(Seq<char>),
    SetCmd(Seq<char>, FrameView),
    HGet(Seq<char>, Seq<char>),
    HMGet(Seq<char>, Seq<Seq<char>>),
    HSet(Seq<char>, Seq<char>, FrameView),
    HGetAll(Seq<char>),
    Echo(Seq<char>),
    Unrecognized,
}

/// How a request array is read: the first element must be a bulk string;
/// its ASCII-lowercased bytes pick the command, whose own shape check then
/// runs; any unknown name is the catch-all command.
pub open spec fn spec_command(fs: Seq<FrameView>) -> Result<CmdView, CmdErr> {
    if fs.len() == 0 {
        Result::Err(CmdErr::BadCommand)
    } else {
        match fs[0] {
            FrameView::Bulk(od) => match od {
                Option::Some(raw) => { let d = ascii_lower(raw); if d == name_get() {
                    match spec_get(fs) {
                        Result::Ok(k) => Result::Ok(CmdView::Get(k)),
                        Result::Err(e) => Result::Err(e),
                    }
                } else if d == name_set() {
                    match spec_set(fs) {
                        Result::Ok(kv) => Result::Ok(CmdView::SetCmd(kv.0, kv.1)),
                        Result::Err(e) => Result::Err(e),
                    }
                } else if d == name_hget() {
                    match spec_hget(fs) {
                        Result::Ok(kf) => Result::Ok(CmdView::HGet(kf.0, kf.1)),
                        Result::Err(e) => Result::Err(e),
                    }
                } else if d == name_hset() {
                    match spec_hset(fs) {
                        Result::Ok(kfv) => Result::Ok(CmdView::HSet(kfv.0, kfv.1, kfv.2)),
                        Result::Err(e) => Result::Err(e),
                    }
                } else if d == name_hgetall() {
                    match spec_hgetall(fs) {
                        Result::Ok(k) => Result::Ok(CmdView::HGetAll(k)),
                        Result::Err(e) => Result::Err(e),
                    }
                } else if d == name_echo() {
                    match spec_echo(fs) {
                        Result::Ok(m) => Result::Ok(CmdView::Echo(m)),
                        Result::Err(e) => Result::Err(e),
                    }
                } else if d == name_hmget() {
                    match spec_hmget(fs) {
                        Result::Ok(kf) => Result::Ok(CmdView::HMGet(kf.0, kf.1)),
                        Result::Err(e) => Result::Err(e),
                    }
                } else {
                    Result::Ok(CmdView::Unrecognized)
                } },
                Option::None => Result::Err(CmdErr::BadCommand),
            },
            _ => Result::Err(CmdErr::BadCommand),
        }
    }
}

#[derive(Debug)]
pub struct Echo {
    pub message: String,
}

#[derive(Debug)]
pub struct Unrecognized;

#[derive(Debug)]
pub struct Get {
    pub key: String,
}

#[derive(Debug)]
pub struct SetCmd {
    pub key: String,
    pub value: RespFrame,
}

#[derive(Debug)]
pub struct HGet {
    pub key: String,
    pub field: String,
}

#[derive(Debug)]
pub struct HMGet {
    pub key: String,
    pub fields: Vec<String>,
}

#[derive(Debug)]
pub struct HSet {
    pub key: String,
    pub field: String,
    pub value: RespFrame,
}

#[derive(Debug)]
pub struct HGetAll {
    pub key: String,
}

/// A typed request, one variant per command plus the catch-all.
#[derive(Debug)]
pub enum Command {
    Get(Get),
    SetCmd(SetCmd),
    HGet(HGet),
    HMGet(HMGet),
    HSet(HSet),
    HGetAll(HGetAll),
    Echo(Echo),
    Unrecognized(Unrecognized),
}

/// The request a typed command stands for.
pub open spec fn cmd_view(c: Command) -> CmdView {
    match c {
        Command::Get(g) => CmdView::Get(g.key@),
        Command::SetCmd(s) => CmdView::SetCmd(s.key@, frame_view(s.value)),
        Command::HGet(h) => CmdView::HGet(h.key@, h.field@),
        Command::HMGet(h) => CmdView::HMGet(h.key@, h.fields.deep_view()),
        Command::HSet(h) => CmdView::HSet(h.key@, h.field@, frame_view(h.value)),
        Command::HGetAll(h) => CmdView::HGetAll(h.key@),
        Command::Echo(e) => CmdView::Echo(e.message@),
        Command::Unrecognized(_) => CmdView::Unrecognized,
    }
}

/// The fixed `OK` reply.
pub open spec fn ok_frame() -> FrameView {
    FrameView::Simple("OK"@)
}

/// The inner field map stored at a key of the nested namespace, empty
/// where the key is absent.
pub open spec fn inner_fields(
    hkv: Map<Seq<char>, Seq<(Seq<char>, FrameView)>>,
    k: Seq<char>,
) -> Map<Seq<char>, FrameView> {
    if hkv.contains_key(k) {
        assoc_map(hkv.index(k))
    } else {
        Map::empty()
    }
}

/// The reply of `hgetall`: field name as a bulk string, then the value,
/// for each entry in stored order.
pub open spec fn interleave(entries: Seq<(Seq<char>, FrameView)>) -> Seq<FrameView>
    decreases entries.len(),
{
    if entries.len() == 0 {
        Seq::empty()
    } else {
        seq![
            FrameView::Bulk(Option::Some(encode_utf8(entries[0].0))),
            entries[0].1,
        ] + interleave(entries.drop_first())
    }
}

/// The reply of `hmget`: the stored frame per requested field, in request
/// order, with the placeholder text for a missing field.
pub open spec fn hmget_frames(m: Map<Seq<char>, FrameView>, fields: Seq<Seq<char>>) -> Seq<
    FrameView,
>
    decreases fields.len(),
{
    if fields.len() == 0 {
        Seq::empty()
    } else {
        seq![
            if m.contains_key(fields[0]) {
                m.index(fields[0])
            } else {
                FrameView::Simple("(nil)"@)
            },
        ] + hmget_frames(m, fields.drop_first())
    }
}

/// The flat namespace after a command: only `set` writes it.
pub open spec fn command_kv(c: CmdView, kv: Map<Seq<char>, FrameView>) -> Map<
    Seq<char>,
    FrameView,
> {
    match c {
        CmdView::SetCmd(k, v) => kv.insert(k, v),
        _ => kv,
    }
}

/// The nested namespace after a command: only `hset` writes it.
pub open spec fn command_hkv(
    c: CmdView,
    hkv: Map<Seq<char>, Seq<(Seq<char>, FrameView)>>,
) -> Map<Seq<char>, Seq<(Seq<char>, FrameView)>> {
    match c {
        CmdView::HSet(k, f, v) => hkv.insert(
            k,
            crate::wire::upsert(
                if hkv.contains_key(k) {
                    hkv.index(k)
                } else {
                    Seq::empty()
                },
                f,
                v,
            ),
        ),
        _ => hkv,
    }
}

/// The reply of each command against the store as it stood.
pub open spec fn command_reply(
    c: CmdView,
    kv: Map<Seq<char>, FrameView>,
    hkv: Map<Seq<char>, Seq<(Seq<char>, FrameView)>>,
) -> FrameView {
    match c {
        CmdView::Get(k) => if kv.contains_key(k) {
            kv.index(k)
        } else {
            FrameView::Null
        },
        CmdView::SetCmd(_, _) => ok_frame(),
        CmdView::HGet(k, f) => if inner_fields(hkv, k).contains_key(f) {
            inner_fields(hkv, k).index(f)
        } else {
            FrameView::Null
        },
        CmdView::HMGet(k, fields) => FrameView::Array(hmget_frames(inner_fields(hkv, k), fields)),
        CmdView::HSet(_, _, _) => ok_frame(),
        CmdView::HGetAll(k) => FrameView::Array(
            if hkv.contains_key(k) {
                interleave(hkv.index(k))
            } else {
                Seq::empty()
            },
        ),
        CmdView::Echo(m) => FrameView::Simple(m),
        CmdView::Unrecognized => ok_frame(),
    }
}

/// Check the argument count and the leading name slots of a request
/// array: the count must be exactly the name slots plus the declared
/// argument count, and each name slot must hold a bulk string whose
/// lowercased bytes are that name.
pub(crate) fn validate_command(value: &RespArray, names: &[&str], n_args: usize) -> (r: Result<
    (),
    CommandError,
>)
    requires
        n_args + names@.len() <= usize::MAX,
    ensures
        ({
            let good = value@.len() == n_args + names@.len() && forall|i: int|
                0 <= i < names@.len() ==> slot_ok(
                    value@[i],
                    encode_utf8((#[trigger] names@[i])@),
                );
            match r {
                Result::Ok(_) => good,
                Result::Err(e) => !good && cmd_err_view(e) == (if value@.len() != n_args
                    + names@.len() {
                    CmdErr::BadArgument
                } else {
                    CmdErr::BadCommand
                }),
            }
        }),
{
    proof {
        lemma_frames_view_index(value.0@);
    }
    if value.0.len() != n_args + names.len() {
        return Result::Err(
            CommandError::InvalidArgument("wrong number of arguments".to_owned()),
        );
    }
    let n = names.len();
    let mut i: usize = 0;
    while i < n
        invariant
            0 <= i <= n == names@.len(),
            n_args + n <= usize::MAX,
            value@.len() == n_args + n,
            value@ == frames_view(value.0@),
            value@.len() == value.0@.len(),
            forall|j: int| 0 <= j < value.0@.len() ==> value@[j] == frame_view(#[trigger] value.0@[j]),
            forall|i0: int|
                0 <= i0 < i ==> slot_ok(value@[i0], encode_utf8((#[trigger] names@[i0])@)),
        decreases n - i,
    {
        let name: &str = *vstd::slice::slice_index_get(names, i);
        let f = vstd::std_specs::vec::vec_index(&value.0, i);
        match f {
            RespFrame::BulkString(b) => match b.data() {
                Option::Some(d) => {
                    let low = ascii_lower_vec(d.as_slice());
                    if !eq_bytes(low.as_slice(), name.as_bytes()) {
                        assert(!slot_ok(value@[i as int], encode_utf8(names@[i as int]@)));
                        return Result::Err(
                            CommandError::InvalidCommand("unexpected command name".to_owned()),
                        );
                    }
                    assert(slot_ok(value@[i as int], encode_utf8(names@[i as int]@)));
                },
                Option::None => {
                    assert(!slot_ok(value@[i as int], encode_utf8(names@[i as int]@)));
                    return Result::Err(
                        CommandError::InvalidCommand(
                            "command name must be a bulk string".to_owned(),
                        ),
                    );
                },
            },
            _ => {
                assert(!slot_ok(value@[i as int], encode_utf8(names@[i as int]@)));
                return Result::Err(
                    CommandError::InvalidCommand("command name must be a bulk string".to_owned()),
                );
            },
        }
        i += 1;
    }
    Result::Ok(())
}

/// The arguments of a request: the elements after the name slots.
pub(crate) fn extract_args(value: RespArray, start: usize) -> (r: Vec<RespFrame>)
    requires
        start <= value@.len(),
    ensures
        frames_view(r@) == value@.skip(start as int),
        r@.len() == value@.len() - start,
{
    proof {
        lemma_frames_view_index(value.0@);
    }
    let mut v = value.0;
    let ghost v0 = v@;
    let mut i: usize = 0;
    while i < start
        invariant
            0 <= i <= start <= v0.len(),
            v0.len() == frames_view(v0).len(),
            v@ =~= v0.skip(i as int),
        decreases start - i,
    {
        v.remove(0);
        proof {
            assert(v@ =~= v0.skip(i as int + 1));
        }
        i += 1;
    }
    proof {
        lemma_frames_view_index(v0);
        lemma_frames_view_index(v@);
        assert(frames_view(v@) =~= frames_view(v0).skip(start as int));
    }
    v
}

impl Command {
    /// Read a typed command from a decoded frame: anything but an array
    /// is an invalid command.
    pub fn try_from(value: RespFrame) -> (r: Result<Command, CommandError>)
        ensures
            match r {
                Result::Ok(c) => value matches RespFrame::Array(a) && spec_command(frame_view(
                    value,
                )->Array_0) == Result::<CmdView, CmdErr>::Ok(cmd_view(c)),
                Result::Err(e) => (value matches RespFrame::Array(a) ==> spec_command(
                    frame_view(value)->Array_0,
                ) == Result::<CmdView, CmdErr>::Err(cmd_err_view(e))) && (!(value
                    matches RespFrame::Array(a)) ==> cmd_err_view(e) == CmdErr::BadCommand),
            },
    {
        match value {
            RespFrame::Array(array) => Self::try_from_array(array),
            _ => Result::Err(CommandError::InvalidCommand("command must be an array".to_owned())),
        }
    }

    /// Read a typed command from a request array: the first element's
    /// ASCII-lowercased bytes pick the command; an unknown name is the
    /// catch-all.
    pub fn try_from_array(value: RespArray) -> (r: Result<Command, CommandError>)
        ensures
            match r {
                Result::Ok(c) => spec_command(value@) == Result::<CmdView, CmdErr>::Ok(
                    cmd_view(c),
                ),
                Result::Err(e) => spec_command(value@) == Result::<CmdView, CmdErr>::Err(
                    cmd_err_view(e),
                ),
            },
    {
        proof {
            lemma_frames_view_index(value.0@);
            reveal_strlit("get");
            reveal_strlit("set");
            reveal_strlit("hget");
            reveal_strlit("hset");
            reveal_strlit("hgetall");
            reveal_strlit("echo");
            reveal_strlit("hmget");
        }
        if value.0.len() == 0 {
            return Result::Err(
                CommandError::InvalidCommand("command array must not be empty".to_owned()),
            );
        }
        let kind: u32 = {
            let first = vstd::std_specs::vec::vec_index(&value.0, 0);
            match first {
                RespFrame::BulkString(b) => match b.data() {
                    Option::Some(raw) => {
                        let d = ascii_lower_vec(raw.as_slice());
                        if eq_bytes(d.as_slice(), "get".as_bytes()) {
                            0
                        } else if eq_bytes(d.as_slice(), "set".as_bytes()) {
                            1
                        } else if eq_bytes(d.as_slice(), "hget".as_bytes()) {
                            2
                        } else if eq_bytes(d.as_slice(), "hset".as_bytes()) {
                            3
                        } else if eq_bytes(d.as_slice(), "hgetall".as_bytes()) {
                            4
                        } else if eq_bytes(d.as_slice(), "echo".as_bytes()) {
                            5
                        } else if eq_bytes(d.as_slice(), "hmget".as_bytes()) {
                            6
                        } else {
                            7
                        }
                    },
                    Option::None => {
                        return Result::Err(
                            CommandError::InvalidCommand(
                                "command must start with a bulk string name".to_owned(),
                            ),
                        );
                    },
                },
                _ => {
                    return Result::Err(
                        CommandError::InvalidCommand(
                            "command must start with a bulk string name".to_owned(),
                        ),
                    );
                },
            }
        };
        if kind == 0 {
            match Get::try_from(value) {
                Result::Ok(c) => Result::Ok(Command::Get(c)),
                Result::Err(e) => Result::Err(e),
            }
        } else if kind == 1 {
            match SetCmd::try_from(value) {
                Result::Ok(c) => Result::Ok(Command::SetCmd(c)),
                Result::Err(e) => Result::Err(e),
            }
        } else if kind == 2 {
            match HGet::try_from(value) {
                Result::Ok(c) => Result::Ok(Command::HGet(c)),
                Result::Err(e) => Result::Err(e),
            }
        } else if kind == 3 {
            match HSet::try_from(value) {
                Result::Ok(c) => Result::Ok(Command::HSet(c)),
                Result::Err(e) => Result::Err(e),
            }
        } else if kind == 4 {
            match HGetAll::try_from(value) {
                Result::Ok(c) => Result::Ok(Command::HGetAll(c)),
                Result::Err(e) => Result::Err(e),
            }
        } else if kind == 5 {
            match Echo::try_from(value) {
                Result::Ok(c) => Result::Ok(Command::Echo(c)),
                Result::Err(e) => Result::Err(e),
            }
        } else if kind == 6 {
            match HMGet::try_from(value) {
                Result::Ok(c) => Result::Ok(Command::HMGet(c)),
                Result::Err(e) => Result::Err(e),
            }
        } else {
            Result::Ok(Command::Unrecognized(Unrecognized))
        }
    }

    /// Run the command against the store: exactly one store operation and
    /// one reply shape per variant.
    pub fn execute(self, backend: &mut Backend) -> (r: RespFrame)
        requires
            old(backend).wf(),
        ensures
            final(backend).wf(),
            final(backend).kv() == command_kv(cmd_view(self), old(backend).kv()),
            final(backend).hkv() == command_hkv(cmd_view(self), old(backend).hkv()),
            frame_view(r) == command_reply(cmd_view(self), old(backend).kv(), old(backend).hkv()),
    {
        match self {
            Command::Get(c) => c.execute(backend),
            Command::SetCmd(c) => c.execute(backend),
            Command::HGet(c) => c.execute(backend),
            Command::HMGet(c) => c.execute(backend),
            Command::HSet(c) => c.execute(backend),
            Command::HGetAll(c) => c.execute(backend),
            Command::Echo(c) => c.execute(backend),
            Command::Unrecognized(c) => c.execute(backend),
        }
    }
}

impl Unrecognized {
    /// An unrecognized command changes nothing and replies `OK`.
    pub fn execute(self, backend: &mut Backend) -> (r: RespFrame)
        requires
            old(backend).wf(),
        ensures
            final(backend).wf(),
            *final(backend) == *old(backend),
            frame_view(r) == ok_frame(),
    {
        RespFrame::SimpleString(SimpleString::new("OK".to_owned()))
    }
}

} // verus!
