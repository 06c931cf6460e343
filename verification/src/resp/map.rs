//! The `%` map frame: string keys to frame values, keys unique, carried in
//! insertion order.
use vstd::prelude::*;
use crate::bytebuf::{buf_advance, buf_bytes, bytes_view};
use crate::resp::frame::{entries_view, lemma_entries_view_index, RespFrame};
use crate::resp::{err_view, RespEncode, RespError};
use crate::wire::{encode_frame, spec_decode, upsert, DecodeErr, FrameView};

verus! {

/// A map frame: an entry list with unique keys and map insertion
/// semantics.
#[derive(Debug, PartialEq)]
pub struct RespMap(pub Vec<(String, RespFrame)>);

impl View for RespMap {
    type V = Seq<(Seq<char>, FrameView)>;

    open spec fn view(&self) -> Seq<(Seq<char>, FrameView)> {
        entries_view(self.0@)
    }
}

impl RespMap {
    pub fn new() -> (r: RespMap)
        ensures
            r@ == Seq::<(Seq<char>, FrameView)>::empty(),
    {
        let r = RespMap(Vec::new());
        proof {
            lemma_entries_view_index(r.0@);
            assert(r@ =~= Seq::<(Seq<char>, FrameView)>::empty());
        }
        r
    }

    /// The entries of the map, in carried order.
    pub fn entries(&self) -> (r: &Vec<(String, RespFrame)>)
        ensures
            self@ == entries_view(r@),
    {
        &self.0
    }

    /// Insert with map semantics: an existing key keeps its place and
    /// takes the new value, a new key is appended.
    pub fn insert(&mut self, key: String, value: RespFrame)
        ensures
            final(self)@ == upsert(old(self)@, key@, frame_view_of(value)),
    {
        let ghost entries0 = self.0@;
        let n = self.0.len();
        let mut i: usize = 0;
        while i < n
            invariant
                0 <= i <= n == self.0@.len(),
                self.0@ == entries0,
                entries0 == old(self).0@,
                forall|j: int| 0 <= j < i ==> (#[trigger] self.0@[j]).0@ != key@,
            decreases n - i,
        {
            let hit = {
                let pair = vstd::std_specs::vec::vec_index(&self.0, i);
                pair.0 == key
            };
            if hit {
                self.0.remove(i);
                proof {
                    assert(self.0@ =~= entries0.remove(i as int));
                }
                self.0.insert(i, (key, value));
                proof {
                    assert(self.0@ =~= entries0.remove(i as int).insert(i as int, (key, value)));
                    assert(self.0@ =~= entries0.update(i as int, (key, value)));
                    lemma_entries_view_index(entries0);
                    lemma_entries_view_index(self.0@);
                    lemma_upsert_found(entries_view(entries0), key@, frame_view_of(value), i as int);
                    assert(entries_view(self.0@) =~= upsert(
                        entries_view(entries0),
                        key@,
                        frame_view_of(value),
                    ));
                    assert(old(self)@ == entries_view(entries0));
                    assert(self@ == upsert(old(self)@, key@, frame_view_of(value)));
                }
                return ;
            }
            i += 1;
        }
        self.0.push((key, value));
        proof {
            lemma_entries_view_index(entries0);
            lemma_entries_view_index(self.0@);
            lemma_upsert_missing(entries_view(entries0), key@, frame_view_of(value));
            assert(self.0@ =~= entries0.push((key, value)));
            assert(entries_view(self.0@) =~= upsert(
                entries_view(entries0),
                key@,
                frame_view_of(value),
            ));
        }
    }

    /// A copy with the same entries.
    pub fn duplicate(&self) -> (r: RespMap)
        ensures
            r@ == self@,
    {
        RespMap(RespFrame::clone_entries(&self.0))
    }

    /// Decode one map frame from the front of the buffer, consuming
    /// exactly its bytes; any other complete frame there is a type
    /// mismatch.  On failure the buffer is unchanged.
    pub fn decode(buf: &mut bytes::BytesMut) -> (r: Result<RespMap, RespError>)
        ensures
            match r {
                Result::Ok(f) => spec_decode(bytes_view(*old(buf))) matches Result::Ok((fv, n))
                    && fv == FrameView::Mapping(f@) && bytes_view(*final(buf)) == bytes_view(
                    *old(buf),
                ).skip(n as int),
                Result::Err(e) => bytes_view(*final(buf)) == bytes_view(*old(buf)) && match
                    spec_decode(bytes_view(*old(buf))) {
                    Result::Ok((fv, _)) => !(fv matches FrameView::Mapping(_)) && err_view(e)
                        == DecodeErr::BadType,
                    Result::Err(k) => err_view(e) == k,
                },
            },
    {
        let b = buf_bytes(buf);
        let (f, n) = match RespFrame::decode_at(b) {
            Result::Ok(p) => p,
            Result::Err(e) => {
                return Result::Err(e);
            },
        };
        match f {
            RespFrame::Mapping(m) => {
                buf_advance(buf, n);
                Result::Ok(m)
            },
            _ => Result::Err(RespError::InvalidFrameType("expected a map frame".to_owned())),
        }
    }
}

/// The view of one frame, as a free function for contracts on methods of
/// other types.
pub open spec fn frame_view_of(f: RespFrame) -> FrameView {
    crate::resp::frame::frame_view(f)
}

/// Updating the first occurrence of a key in place is what `upsert` does
/// when the earlier entries miss the key.
pub proof fn lemma_upsert_found(
    s: Seq<(Seq<char>, FrameView)>,
    k: Seq<char>,
    v: FrameView,
    i: int,
)
    requires
        0 <= i < s.len(),
        s[i].0 == k,
        forall|j: int| 0 <= j < i ==> (#[trigger] s[j]).0 != k,
    ensures
        upsert(s, k, v) == s.update(i, (k, v)),
    decreases i,
{
    if i == 0 {
        assert(upsert(s, k, v) =~= s.update(0, (k, v)));
    } else {
        lemma_upsert_found(s.drop_first(), k, v, i - 1);
        assert(s.drop_first().update(i - 1, (k, v)) =~= s.update(i, (k, v)).drop_first());
        assert(upsert(s, k, v) =~= s.update(i, (k, v)));
    }
}

/// Appending is what `upsert` does when no entry has the key.
pub proof fn lemma_upsert_missing(s: Seq<(Seq<char>, FrameView)>, k: Seq<char>, v: FrameView)
    requires
        forall|j: int| 0 <= j < s.len() ==> (#[trigger] s[j]).0 != k,
    ensures
        upsert(s, k, v) == s.push((k, v)),
    decreases s.len(),
{
    if s.len() == 0 {
        assert(upsert(s, k, v) =~= s.push((k, v)));
    } else {
        lemma_upsert_missing(s.drop_first(), k, v);
        assert(s.drop_first().push((k, v)) =~= s.push((k, v)).drop_first());
        assert(upsert(s, k, v) =~= s.push((k, v)));
    }
}

} // verus!
