//! The shared in-memory store: a flat key-to-frame namespace and a nested
//! key-to-field-to-frame namespace.  Keys are unique in each namespace and
//! writing overwrites.  One store value is owned by one holder; sharing it
//! between connections is the business of the runtime around the library.
use vstd::prelude::*;
use crate::resp::frame::{entries_view, frame_view, lemma_entries_view_index, RespFrame};
use crate::resp::map::{frame_view_of, RespMap};
use crate::resp::str_eq;
use crate::wire::FrameView;
use vstd::std_specs::vec::vec_index;

verus! {

/// A lookup list at the model level: later entries win, as with maps.
pub open spec fn assoc_map<V>(s: Seq<(Seq<char>, V)>) -> Map<Seq<char>, V>
    decreases s.len(),
{
    if s.len() == 0 {
        Map::empty()
    } else {
        assoc_map(s.drop_last()).insert(s.last().0, s.last().1)
    }
}

/// Distinct keys in a lookup list.
pub open spec fn assoc_distinct<V>(s: Seq<(Seq<char>, V)>) -> bool {
    forall|i: int, j: int| 0 <= i < j < s.len() ==> (#[trigger] s[i]).0 != (#[trigger] s[j]).0
}

/// With distinct keys, the map agrees with the list entry by entry, and
/// every key of the map comes from some entry.
pub proof fn lemma_assoc_map_index<V>(s: Seq<(Seq<char>, V)>)
    requires
        assoc_distinct(s),
    ensures
        forall|i: int|
            0 <= i < s.len() ==> assoc_map(s).contains_key((#[trigger] s[i]).0) && assoc_map(
                s,
            )[s[i].0] == s[i].1,
        forall|k: Seq<char>|
            assoc_map(s).contains_key(k) ==> exists|i: int|
                0 <= i < s.len() && (#[trigger] s[i]).0 == k,
    decreases s.len(),
{
    if s.len() > 0 {
        assert(s.drop_last() =~= s.subrange(0, s.len() - 1));
        lemma_assoc_map_index(s.drop_last());
        assert forall|i: int| 0 <= i < s.len() implies assoc_map(s).contains_key(
            (#[trigger] s[i]).0,
        ) && assoc_map(s)[s[i].0] == s[i].1 by {
            if i < s.len() - 1 {
                assert(s.drop_last()[i] == s[i]);
                assert(s[i].0 != s.last().0);
            }
        }
        assert forall|k: Seq<char>| assoc_map(s).contains_key(k) implies exists|i: int|
            0 <= i < s.len() && (#[trigger] s[i]).0 == k by {
            if k == s.last().0 {
                assert(s[s.len() - 1].0 == k);
            } else {
                assert(assoc_map(s.drop_last()).contains_key(k));
                let i = choose|i: int|
                    0 <= i < s.drop_last().len() && (#[trigger] s.drop_last()[i]).0 == k;
                assert(s[i].0 == k);
            }
        }
    }
}

/// Updating one entry's value in place updates the map at its key.
pub proof fn lemma_assoc_map_update<V>(s: Seq<(Seq<char>, V)>, i: int, v: V)
    requires
        assoc_distinct(s),
        0 <= i < s.len(),
    ensures
        assoc_map(s.update(i, (s[i].0, v))) == assoc_map(s).insert(s[i].0, v),
    decreases s.len(),
{
    let t = s.update(i, (s[i].0, v));
    if i == s.len() - 1 {
        assert(t.drop_last() =~= s.drop_last());
        assert(t.last() == (s[i].0, v));
        assert(assoc_map(t) =~= assoc_map(s).insert(s[i].0, v));
    } else {
        assert(s.drop_last() =~= s.subrange(0, s.len() - 1));
        lemma_assoc_map_update(s.drop_last(), i, v);
        assert(s.drop_last()[i] == s[i]);
        assert(t.drop_last() =~= s.drop_last().update(i, (s[i].0, v)));
        assert(t.last() == s.last());
        assert(s[i].0 != s.last().0);
        assert(assoc_map(t) =~= assoc_map(s).insert(s[i].0, v));
    }
}

/// Appending a fresh key inserts it into the map.
pub proof fn lemma_assoc_map_push<V>(s: Seq<(Seq<char>, V)>, k: Seq<char>, v: V)
    ensures
        assoc_map(s.push((k, v))) == assoc_map(s).insert(k, v),
{
    assert(s.push((k, v)).drop_last() =~= s);
}

/// The view of the nested namespace: each outer entry's inner map at the
/// model level.
pub open spec fn hlist_view(s: Seq<(String, RespMap)>) -> Seq<
    (Seq<char>, Seq<(Seq<char>, FrameView)>),
>
    decreases s.len(),
{
    if s.len() == 0 {
        Seq::empty()
    } else {
        hlist_view(s.drop_first()).insert(0, (s[0].0@, s[0].1@))
    }
}

/// The nested-namespace view has the same length and views each outer
/// entry in place.
pub proof fn lemma_hlist_view_index(s: Seq<(String, RespMap)>)
    ensures
        hlist_view(s).len() == s.len(),
        forall|i: int| 0 <= i < s.len() ==> #[trigger] hlist_view(s)[i] == (s[i].0@, s[i].1@),
    decreases s.len(),
{
    if s.len() > 0 {
        lemma_hlist_view_index(s.drop_first());
        assert forall|i: int| 0 <= i < s.len() implies #[trigger] hlist_view(s)[i] == (
            s[i].0@,
            s[i].1@,
        ) by {
            if i > 0 {
                assert(s.drop_first()[i - 1] == s[i]);
                assert(hlist_view(s)[i] == hlist_view(s.drop_first())[i - 1]);
            }
        }
    }
}

/// The store.
#[derive(Debug)]
pub struct Backend {
    pub(crate) map: Vec<(String, RespFrame)>,
    pub(crate) hmap: Vec<(String, RespMap)>,
}

impl Backend {
    /// The flat namespace at the model level.
    pub closed spec fn kv(self) -> Map<Seq<char>, FrameView> {
        assoc_map(entries_view(self.map@))
    }

    /// The nested namespace at the model level: each key's field list, in
    /// the order fields were first written.
    pub closed spec fn hkv(self) -> Map<Seq<char>, Seq<(Seq<char>, FrameView)>> {
        assoc_map(hlist_view(self.hmap@))
    }

    /// Keys are unique in each namespace, fields unique within each inner
    /// list.
    pub closed spec fn wf(self) -> bool {
        &&& assoc_distinct(entries_view(self.map@))
        &&& assoc_distinct(hlist_view(self.hmap@))
        &&& forall|i: int|
            0 <= i < self.hmap@.len() ==> assoc_distinct((#[trigger] self.hmap@[i]).1@)
    }

    /// An empty store.
    pub fn new() -> (r: Backend)
        ensures
            r.wf(),
            r.kv() == Map::<Seq<char>, FrameView>::empty(),
            r.hkv() == Map::<Seq<char>, Seq<(Seq<char>, FrameView)>>::empty(),
    {
        let r = Backend { map: Vec::new(), hmap: Vec::new() };
        proof {
            lemma_entries_view_index(r.map@);
            lemma_hlist_view_index(r.hmap@);
            assert(entries_view(r.map@) =~= Seq::<(Seq<char>, FrameView)>::empty());
            assert(hlist_view(r.hmap@) =~= Seq::<
                (Seq<char>, Seq<(Seq<char>, FrameView)>),
            >::empty());
        }
        r
    }

    /// Read the flat namespace; a copy of the stored frame, or nothing.
    pub fn get(&self, key: &str) -> (r: Option<RespFrame>)
        requires
            self.wf(),
        ensures
            match r {
                Option::Some(f) => self.kv().contains_key(key@) && frame_view(f)
                    == self.kv().index(key@),
                Option::None => !self.kv().contains_key(key@),
            },
    {
        proof {
            lemma_entries_view_index(self.map@);
            lemma_assoc_map_index(entries_view(self.map@));
        }
        let n = self.map.len();
        let mut i: usize = 0;
        while i < n
            invariant
                self.wf(),
                0 <= i <= n == self.map@.len(),
                forall|j: int| 0 <= j < i ==> (#[trigger] self.map@[j]).0@ != key@,
            decreases n - i,
        {
            let pair = vec_index(&self.map, i);
            if str_eq(pair.0.as_str(), key) {
                proof {
                    lemma_entries_view_index(self.map@);
                    lemma_assoc_map_index(entries_view(self.map@));
                    assert(entries_view(self.map@)[i as int] == (
                        self.map@[i as int].0@,
                        frame_view(self.map@[i as int].1),
                    ));
                    assert(entries_view(self.map@)[i as int].0 == key@);
                    assert(self.kv().contains_key(key@) && self.kv().index(key@) == frame_view(
                        self.map@[i as int].1,
                    ));
                }
                return Option::Some(pair.1.deep_clone());
            }
            i += 1;
        }
        proof {
            lemma_entries_view_index(self.map@);
            lemma_assoc_map_index(entries_view(self.map@));
            if self.kv().contains_key(key@) {
                let j = choose|j: int|
                    0 <= j < entries_view(self.map@).len() && (#[trigger] entries_view(
                        self.map@,
                    )[j]).0 == key@;
                assert(self.map@[j].0@ == key@);
            }
        }
        Option::None
    }

    /// Write the flat namespace, overwriting any prior value at the key.
    pub fn set(&mut self, key: String, value: RespFrame)
        requires
            old(self).wf(),
        ensures
            final(self).wf(),
            final(self).kv() == old(self).kv().insert(key@, frame_view_of(value)),
            final(self).hkv() == old(self).hkv(),
    {
        let ghost m0 = self.map@;
        let n = self.map.len();
        let mut i: usize = 0;
        while i < n
            invariant
                old(self).wf(),
                self.map@ == m0,
                self.hmap@ == old(self).hmap@,
                m0 == old(self).map@,
                0 <= i <= n == self.map@.len(),
                forall|j: int| 0 <= j < i ==> (#[trigger] self.map@[j]).0@ != key@,
            decreases n - i,
        {
            let hit = {
                let pair = vec_index(&self.map, i);
                str_eq(pair.0.as_str(), key.as_str())
            };
            if hit {
                self.map.remove(i);
                self.map.insert(i, (key, value));
                proof {
                    assert(self.map@ =~= m0.update(i as int, (key, value)));
                    lemma_entries_view_index(m0);
                    lemma_entries_view_index(self.map@);
                    assert(entries_view(self.map@) =~= entries_view(m0).update(
                        i as int,
                        (key@, frame_view_of(value)),
                    ));
                    lemma_assoc_map_update(entries_view(m0), i as int, frame_view_of(value));
                    assert(entries_view(m0)[i as int].0 == key@);
                    assert(assoc_distinct(entries_view(self.map@)));
                }
                return ;
            }
            i += 1;
        }
        self.map.push((key, value));
        proof {
            assert(self.map@ =~= m0.push((key, value)));
            lemma_entries_view_index(m0);
            lemma_entries_view_index(self.map@);
            assert(entries_view(self.map@) =~= entries_view(m0).push(
                (key@, frame_view_of(value)),
            ));
            lemma_assoc_map_push(entries_view(m0), key@, frame_view_of(value));
            assert(assoc_distinct(entries_view(self.map@)));
        }
    }
}

/// Map insertion keeps keys distinct.
pub proof fn lemma_upsert_distinct(s: Seq<(Seq<char>, FrameView)>, k: Seq<char>, v: FrameView)
    requires
        assoc_distinct(s),
    ensures
        assoc_distinct(crate::wire::upsert(s, k, v)),
{
    if exists|i: int| 0 <= i < s.len() && (#[trigger] s[i]).0 == k {
        let i = choose|i: int|
            0 <= i < s.len() && (#[trigger] s[i]).0 == k && forall|j: int|
                0 <= j < i ==> (#[trigger] s[j]).0 != k;
        crate::resp::map::lemma_upsert_found(s, k, v, i);
    } else {
        assert(forall|j: int| 0 <= j < s.len() ==> (#[trigger] s[j]).0 != k);
        crate::resp::map::lemma_upsert_missing(s, k, v);
    }
}

impl Backend {
    /// Read one field of the nested namespace; a copy of the stored
    /// frame, or nothing.
    pub fn hget(&self, key: &str, field: &str) -> (r: Option<RespFrame>)
        requires
            self.wf(),
        ensures
            match r {
                Option::Some(f) => self.hkv().contains_key(key@) && assoc_map(
                    self.hkv().index(key@),
                ).contains_key(field@) && frame_view(f) == assoc_map(
                    self.hkv().index(key@),
                ).index(field@),
                Option::None => !self.hkv().contains_key(key@) || !assoc_map(
                    self.hkv().index(key@),
                ).contains_key(field@),
            },
    {
        let inner = match self.find_inner(key) {
            Option::Some(m) => m,
            Option::None => {
                return Option::None;
            },
        };
        proof {
            crate::resp::frame::lemma_entries_view_index(inner.0@);
            lemma_assoc_map_index(inner@);
        }
        let n = inner.0.len();
        let mut i: usize = 0;
        while i < n
            invariant
                self.wf(),
                assoc_distinct(inner@),
                inner@ == entries_view(inner.0@),
                self.hkv().contains_key(key@) && self.hkv().index(key@) == inner@,
                0 <= i <= n == inner.0@.len(),
                forall|j: int| 0 <= j < i ==> (#[trigger] inner.0@[j]).0@ != field@,
            decreases n - i,
        {
            let pair = vec_index(&inner.0, i);
            if str_eq(pair.0.as_str(), field) {
                proof {
                    crate::resp::frame::lemma_entries_view_index(inner.0@);
                    lemma_assoc_map_index(inner@);
                    assert(inner@[i as int] == (
                        inner.0@[i as int].0@,
                        frame_view(inner.0@[i as int].1),
                    ));
                }
                return Option::Some(pair.1.deep_clone());
            }
            i += 1;
        }
        proof {
            crate::resp::frame::lemma_entries_view_index(inner.0@);
            lemma_assoc_map_index(inner@);
            if assoc_map(inner@).contains_key(field@) {
                let j = choose|j: int|
                    0 <= j < inner@.len() && (#[trigger] inner@[j]).0 == field@;
                assert(inner.0@[j].0@ == field@);
            }
        }
        Option::None
    }

    /// The inner map stored at a key of the nested namespace, if any.
    fn find_inner(&self, key: &str) -> (r: Option<&RespMap>)
        requires
            self.wf(),
        ensures
            match r {
                Option::Some(m) => self.hkv().contains_key(key@) && self.hkv().index(key@) == m@
                    && assoc_distinct(m@),
                Option::None => !self.hkv().contains_key(key@),
            },
    {
        proof {
            lemma_hlist_view_index(self.hmap@);
            lemma_assoc_map_index(hlist_view(self.hmap@));
        }
        let n = self.hmap.len();
        let mut i: usize = 0;
        while i < n
            invariant
                self.wf(),
                0 <= i <= n == self.hmap@.len(),
                forall|j: int| 0 <= j < i ==> (#[trigger] self.hmap@[j]).0@ != key@,
            decreases n - i,
        {
            let pair = vec_index(&self.hmap, i);
            if str_eq(pair.0.as_str(), key) {
                proof {
                    lemma_hlist_view_index(self.hmap@);
                    lemma_assoc_map_index(hlist_view(self.hmap@));
                    assert(hlist_view(self.hmap@)[i as int] == (
                        self.hmap@[i as int].0@,
                        self.hmap@[i as int].1@,
                    ));
                }
                return Option::Some(&pair.1);
            }
            i += 1;
        }
        proof {
            lemma_hlist_view_index(self.hmap@);
            lemma_assoc_map_index(hlist_view(self.hmap@));
            if self.hkv().contains_key(key@) {
                let j = choose|j: int|
                    0 <= j < hlist_view(self.hmap@).len() && (#[trigger] hlist_view(
                        self.hmap@,
                    )[j]).0 == key@;
                assert(self.hmap@[j].0@ == key@);
            }
        }
        Option::None
    }

    /// All fields stored at a key of the nested namespace, in field
    /// insertion order, or nothing.
    pub fn hgetall(&self, key: &str) -> (r: Option<RespMap>)
        requires
            self.wf(),
        ensures
            match r {
                Option::Some(m) => self.hkv().contains_key(key@) && m@ == self.hkv().index(key@),
                Option::None => !self.hkv().contains_key(key@),
            },
    {
        match self.find_inner(key) {
            Option::Some(m) => Option::Some(m.duplicate()),
            Option::None => Option::None,
        }
    }

    /// Write one field of the nested namespace, creating the inner map if
    /// the key is new; an existing field keeps its position and takes the
    /// new value.
    pub fn hset(&mut self, key: String, field: String, value: RespFrame)
        requires
            old(self).wf(),
        ensures
            final(self).wf(),
            final(self).kv() == old(self).kv(),
            final(self).hkv() == old(self).hkv().insert(
                key@,
                crate::wire::upsert(
                    if old(self).hkv().contains_key(key@) {
                        old(self).hkv().index(key@)
                    } else {
                        Seq::empty()
                    },
                    field@,
                    frame_view_of(value),
                ),
            ),
    {
        let ghost h0 = self.hmap@;
        let n = self.hmap.len();
        let mut i: usize = 0;
        while i < n
            invariant
                old(self).wf(),
                self.map@ == old(self).map@,
                self.hmap@ == h0,
                h0 == old(self).hmap@,
                0 <= i <= n == self.hmap@.len(),
                forall|j: int| 0 <= j < i ==> (#[trigger] self.hmap@[j]).0@ != key@,
            decreases n - i,
        {
            let hit = {
                let pair = vec_index(&self.hmap, i);
                str_eq(pair.0.as_str(), key.as_str())
            };
            if hit {
                proof {
                    lemma_hlist_view_index(h0);
                    lemma_assoc_map_index(hlist_view(h0));
                    assert(hlist_view(h0)[i as int] == (h0[i as int].0@, h0[i as int].1@));
                }
                let ghost inner0 = self.hmap@[i as int].1@;
                let (k, mut inner) = self.hmap.remove(i);
                inner.insert(field, value);
                self.hmap.insert(i, (k, inner));
                proof {
                    assert(self.hmap@ =~= h0.update(
                        i as int,
                        (h0[i as int].0, self.hmap@[i as int].1),
                    ));
                    lemma_hlist_view_index(self.hmap@);
                    lemma_hlist_view_index(h0);
                    assert(hlist_view(self.hmap@) =~= hlist_view(h0).update(
                        i as int,
                        (key@, crate::wire::upsert(inner0, field@, frame_view_of(value))),
                    ));
                    lemma_assoc_map_update(
                        hlist_view(h0),
                        i as int,
                        crate::wire::upsert(inner0, field@, frame_view_of(value)),
                    );
                    lemma_upsert_distinct(inner0, field@, frame_view_of(value));
                    assert(assoc_distinct(hlist_view(self.hmap@)));
                    assert(final(self).hkv() =~= old(self).hkv().insert(
                        key@,
                        crate::wire::upsert(inner0, field@, frame_view_of(value)),
                    ));
                }
                return ;
            }
            i += 1;
        }
        let mut inner = RespMap::new();
        let ghost inner0 = inner@;
        inner.insert(field, value);
        self.hmap.push((key, inner));
        proof {
            assert(inner0 =~= Seq::<(Seq<char>, FrameView)>::empty());
            lemma_hlist_view_index(h0);
            lemma_hlist_view_index(self.hmap@);
            assert(self.hmap@ =~= h0.push(
                (self.hmap@[h0.len() as int].0, self.hmap@[h0.len() as int].1),
            ));
            assert(hlist_view(self.hmap@) =~= hlist_view(h0).push(
                (key@, crate::wire::upsert(inner0, field@, frame_view_of(value))),
            ));
            lemma_assoc_map_push(
                hlist_view(h0),
                key@,
                crate::wire::upsert(inner0, field@, frame_view_of(value)),
            );
            lemma_upsert_distinct(inner0, field@, frame_view_of(value));
            lemma_assoc_map_index(hlist_view(h0));
            if old(self).hkv().contains_key(key@) {
                let j = choose|j: int|
                    0 <= j < hlist_view(h0).len() && (#[trigger] hlist_view(h0)[j]).0 == key@;
                assert(h0[j].0@ == key@);
                assert(false);
            }
            assert(assoc_distinct(hlist_view(self.hmap@)));
        }
    }
}

} // verus!
