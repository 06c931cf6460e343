//! Conversions into frames and frame payloads.
use vstd::prelude::*;
use crate::resp::array::{RespArray, RespNullArray};
use crate::resp::bulk_string::BulkString;
use crate::resp::double::RespDouble;
use crate::resp::frame::{frames_view, RespFrame};
use crate::resp::map::RespMap;
use crate::resp::null::RespNull;
use crate::resp::set::RespSet;
use crate::resp::simple_error::SimpleError;
use crate::resp::simple_string::SimpleString;
use vstd::std_specs::convert::FromSpecImpl;

verus! {

impl From<SimpleString> for RespFrame {
    fn from(v: SimpleString) -> (r: RespFrame) {
        RespFrame::SimpleString(v)
    }
}

impl FromSpecImpl<SimpleString> for RespFrame {
    open spec fn obeys_from_spec() -> bool {
        true
    }

    open spec fn from_spec(v: SimpleString) -> RespFrame {
        RespFrame::SimpleString(v)
    }
}

impl From<SimpleError> for RespFrame {
    fn from(v: SimpleError) -> (r: RespFrame) {
        RespFrame::Error(v)
    }
}

impl FromSpecImpl<SimpleError> for RespFrame {
    open spec fn obeys_from_spec() -> bool {
        true
    }

    open spec fn from_spec(v: SimpleError) -> RespFrame {
        RespFrame::Error(v)
    }
}

impl From<i64> for RespFrame {
    fn from(v: i64) -> (r: RespFrame) {
        RespFrame::Integer(v)
    }
}

impl FromSpecImpl<i64> for RespFrame {
    open spec fn obeys_from_spec() -> bool {
        true
    }

    open spec fn from_spec(v: i64) -> RespFrame {
        RespFrame::Integer(v)
    }
}

impl From<BulkString> for RespFrame {
    fn from(v: BulkString) -> (r: RespFrame) {
        RespFrame::BulkString(v)
    }
}

impl FromSpecImpl<BulkString> for RespFrame {
    open spec fn obeys_from_spec() -> bool {
        true
    }

    open spec fn from_spec(v: BulkString) -> RespFrame {
        RespFrame::BulkString(v)
    }
}

impl From<RespArray> for RespFrame {
    fn from(v: RespArray) -> (r: RespFrame) {
        RespFrame::Array(v)
    }
}

impl FromSpecImpl<RespArray> for RespFrame {
    open spec fn obeys_from_spec() -> bool {
        true
    }

    open spec fn from_spec(v: RespArray) -> RespFrame {
        RespFrame::Array(v)
    }
}

impl From<RespNullArray> for RespFrame {
    fn from(v: RespNullArray) -> (r: RespFrame) {
        RespFrame::NullArray(v)
    }
}

impl FromSpecImpl<RespNullArray> for RespFrame {
    open spec fn obeys_from_spec() -> bool {
        true
    }

    open spec fn from_spec(v: RespNullArray) -> RespFrame {
        RespFrame::NullArray(v)
    }
}

impl From<RespNull> for RespFrame {
    fn from(v: RespNull) -> (r: RespFrame) {
        RespFrame::Null(v)
    }
}

impl FromSpecImpl<RespNull> for RespFrame {
    open spec fn obeys_from_spec() -> bool {
        true
    }

    open spec fn from_spec(v: RespNull) -> RespFrame {
        RespFrame::Null(v)
    }
}

impl From<bool> for RespFrame {
    fn from(v: bool) -> (r: RespFrame) {
        RespFrame::Boolean(v)
    }
}

impl FromSpecImpl<bool> for RespFrame {
    open spec fn obeys_from_spec() -> bool {
        true
    }

    open spec fn from_spec(v: bool) -> RespFrame {
        RespFrame::Boolean(v)
    }
}

impl From<RespDouble> for RespFrame {
    fn from(v: RespDouble) -> (r: RespFrame) {
        RespFrame::Double(v)
    }
}

impl FromSpecImpl<RespDouble> for RespFrame {
    open spec fn obeys_from_spec() -> bool {
        true
    }

    open spec fn from_spec(v: RespDouble) -> RespFrame {
        RespFrame::Double(v)
    }
}

impl From<RespMap> for RespFrame {
    fn from(v: RespMap) -> (r: RespFrame) {
        RespFrame::Mapping(v)
    }
}

impl FromSpecImpl<RespMap> for RespFrame {
    open spec fn obeys_from_spec() -> bool {
        true
    }

    open spec fn from_spec(v: RespMap) -> RespFrame {
        RespFrame::Mapping(v)
    }
}

impl From<RespSet> for RespFrame {
    fn from(v: RespSet) -> (r: RespFrame) {
        RespFrame::Collection(v)
    }
}

impl FromSpecImpl<RespSet> for RespFrame {
    open spec fn obeys_from_spec() -> bool {
        true
    }

    open spec fn from_spec(v: RespSet) -> RespFrame {
        RespFrame::Collection(v)
    }
}

impl From<Vec<RespFrame>> for RespArray {
    fn from(v: Vec<RespFrame>) -> (r: RespArray) {
        RespArray(v)
    }
}

impl FromSpecImpl<Vec<RespFrame>> for RespArray {
    open spec fn obeys_from_spec() -> bool {
        true
    }

    open spec fn from_spec(v: Vec<RespFrame>) -> RespArray {
        RespArray(v)
    }
}

} // verus!
