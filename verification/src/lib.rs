//! A miniature RESP (REdis Serialization Protocol) core, verified: the
//! wire-format codec with two interchangeable decode strategies, the typed
//! command layer with its validation, and the in-memory key/value and
//! key/field/value store the commands run against.  The wire format, the
//! decoders' behavior on every input, the commands' shapes and replies,
//! and the store's semantics are specified in `wire`, `cmd` and `backend`,
//! and the round-trip and fragmentation laws are proved in `laws`.
//! Network I/O and machine floats stay outside the library.
pub mod backend;
pub mod bytebuf;
pub mod cmd;
pub mod laws;
pub mod resp;
pub mod respv2;
pub mod wire;

pub use resp::array::{RespArray, RespNullArray};
pub use resp::boolean::{bool_expect_length, decode_bool};
pub use resp::bulk_string::BulkString;
pub use resp::double::RespDouble;
pub use resp::frame::{entries_view, frame_view, frames_view, RespFrame};
pub use resp::integer::decode_integer;
pub use resp::map::RespMap;
pub use resp::null::RespNull;
pub use resp::set::RespSet;
pub use resp::simple_error::SimpleError;
pub use resp::simple_string::SimpleString;
pub use resp::{
    calc_total_length, extract_fixed_data, extract_simaple_frame_data, find_ctrl, parse_length,
    RespEncode, RespError,
};
pub use backend::Backend;
pub use cmd::{Command, CommandError, Echo, Get, HGet, HGetAll, HMGet, HSet, SetCmd, Unrecognized};
pub use wire::FrameView;
