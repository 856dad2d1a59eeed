//! The Bencode dictionary: a map from byte-string keys to values whose
//! iteration order is always lexicographic by key. The entries are kept as a
//! vector sorted strictly ascending by key, so equal dictionaries are
//! structurally equal regardless of insertion order.

use vstd::prelude::*;

use super::laws::{lemma_dict_insert_at, lemma_dict_insert_wf};
use super::model::{
    benc_view, dict_get, dict_insert, lemma_entries_view_from, lemma_map_view, lex_lt, map_view,
    wf_value, BencV,
};
use super::Benc;

verus! {

/// Whether two byte slices hold the same bytes.
pub(crate) fn bytes_eq(a: &[u8], b: &[u8]) -> (r: bool)
    ensures
        r == (a@ == b@),
{
    if a.len() != b.len() {
        proof {
            assert(a@ != b@);
        }
        return false;
    }
    let mut i: usize = 0;
    while i < a.len()
        invariant
            i <= a@.len(),
            a@.len() == b@.len(),
            forall|j: int| 0 <= j < i ==> a@[j] == b@[j],
        decreases a@.len() - i,
    {
        if a[i] != b[i] {
            return false;
        }
        i += 1;
    }
    proof {
        assert(a@ =~= b@);
    }
    true
}

/// Whether `a` comes strictly before `b` in lexicographic byte order.
pub(crate) fn bytes_lt(a: &[u8], b: &[u8]) -> (r: bool)
    ensures
        r == lex_lt(a@, b@),
{
    proof {
        assert(a@.skip(0) =~= a@);
        assert(b@.skip(0) =~= b@);
    }
    let mut i: usize = 0;
    while i < a.len() && i < b.len()
        invariant
            i <= a@.len(),
            i <= b@.len(),
            lex_lt(a@, b@) == lex_lt(a@.skip(i as int), b@.skip(i as int)),
        decreases a@.len() - i,
    {
        let x = a[i];
        let y = b[i];
        if x < y {
            proof {
                assert(a@.skip(i as int)[0] == x && b@.skip(i as int)[0] == y);
            }
            return true;
        }
        if x > y {
            proof {
                assert(a@.skip(i as int)[0] == x && b@.skip(i as int)[0] == y);
            }
            return false;
        }
        proof {
            assert(a@.skip(i as int)[0] == x && b@.skip(i as int)[0] == y);
            assert(a@.skip(i as int).skip(1) =~= a@.skip(i as int + 1));
            assert(b@.skip(i as int).skip(1) =~= b@.skip(i as int + 1));
        }
        i += 1;
    }
    proof {
        assert(a@.skip(i as int).len() == a@.len() - i);
        assert(b@.skip(i as int).len() == b@.len() - i);
    }
    i < b.len()
}

/// A dictionary over byte-string keys, always ordered ascending by key.
///
/// The entries are exposed for specification purposes; build dictionaries
/// through [`BMap::new`] and [`BMap::insert`], which keep the ordering
/// invariant [`BMap::wf`].
#[derive(Debug, PartialEq, Eq)]
pub struct BMap {
    pub entries: Vec<(Vec<u8>, Benc)>,
}

impl View for BMap {
    type V = Seq<(Seq<u8>, BencV)>;

    open spec fn view(&self) -> Seq<(Seq<u8>, BencV)> {
        map_view(*self)
    }
}

impl BMap {
    /// Keys strictly ascending in byte order and valid UTF-8, values well formed.
    pub open spec fn wf(&self) -> bool {
        wf_value(BencV::Dict(self@))
    }

    /// An empty dictionary.
    pub fn new() -> (r: BMap)
        ensures
            r@ == Seq::<(Seq<u8>, BencV)>::empty(),
            r.wf(),
    {
        let r = BMap { entries: Vec::new() };
        proof {
            assert(r@ =~= Seq::<(Seq<u8>, BencV)>::empty());
        }
        r
    }

    /// The number of entries.
    pub fn len(&self) -> (r: usize)
        ensures
            r == self@.len(),
    {
        proof {
            broadcast use lemma_map_view;

        }
        self.entries.len()
    }

    /// The index of the first entry whose key is not below `key`.
    fn find_pos(&self, key: &[u8]) -> (pos: usize)
        ensures
            pos <= self.entries@.len(),
            forall|j: int| 0 <= j < pos ==> lex_lt((#[trigger] self.entries@[j]).0@, key@),
            pos < self.entries@.len() ==> !lex_lt(self.entries@[pos as int].0@, key@),
    {
        let mut pos: usize = 0;
        while pos < self.entries.len()
            invariant
                pos <= self.entries@.len(),
                forall|j: int| 0 <= j < pos ==> lex_lt((#[trigger] self.entries@[j]).0@, key@),
            decreases self.entries@.len() - pos,
        {
            let below = bytes_lt(self.entries[pos].0.as_slice(), key);
            if !below {
                return pos;
            }
            pos += 1;
        }
        pos
    }

    /// Insert a key/value pair, keeping the entries strictly ascending by
    /// key; an entry with an equal key is overwritten (last write wins).
    pub fn insert(&mut self, key: Vec<u8>, value: Benc)
        requires
            old(self).wf(),
            vstd::utf8::valid_utf8(key@),
            value.wf(),
        ensures
            final(self)@ == dict_insert(old(self)@, key@, benc_view(value)),
            final(self).wf(),
    {
        proof {
            broadcast use lemma_map_view;

        }
        let ghost d = self@;
        let klen = key.len();
        proof {
            assert(key@.len() == klen);
        }
        let pos = self.find_pos(key.as_slice());
        let mut replace = false;
        if pos < self.entries.len() {
            replace = bytes_eq(self.entries[pos].0.as_slice(), key.as_slice());
        }
        proof {
            assert forall|j: int| 0 <= j < pos implies lex_lt((#[trigger] d[j]).0, key@) by {
                assert(d[j].0 == self.entries@[j].0@);
            }
            if pos < self.entries@.len() {
                assert(d[pos as int].0 == self.entries@[pos as int].0@);
            }
            lemma_dict_insert_at(d, key@, benc_view(value), pos as int);
            lemma_dict_insert_wf(d, key@, benc_view(value));
        }
        if replace {
            self.entries.remove(pos);
        }
        self.entries.insert(pos, (key, value));
        proof {
            lemma_entries_view_from(self.entries, 0);
            let r = map_view(*self);
            let expected = if replace {
                d.take(pos as int).push((key@, benc_view(value))) + d.skip(pos as int + 1)
            } else {
                d.take(pos as int).push((key@, benc_view(value))) + d.skip(pos as int)
            };
            assert forall|j: int| 0 <= j < r.len() implies r[j] == expected[j] by {
                assert(r[j - 0] == (self.entries@[j].0@, benc_view(self.entries@[j].1)));
                if j < pos {
                    assert(self.entries@[j] == old(self).entries@[j]);
                    assert(d[j] == (old(self).entries@[j].0@, benc_view(old(self).entries@[j].1)));
                } else if j > pos {
                    if replace {
                        assert(self.entries@[j] == old(self).entries@[j]);
                        assert(d[j] == (
                            old(self).entries@[j].0@,
                            benc_view(old(self).entries@[j].1),
                        ));
                    } else {
                        assert(self.entries@[j] == old(self).entries@[j - 1]);
                        assert(d[j - 1] == (
                            old(self).entries@[j - 1].0@,
                            benc_view(old(self).entries@[j - 1].1),
                        ));
                    }
                }
            }
            assert(r =~= expected);
        }
    }

    /// Look a key up; `None` when no entry has that key.
    pub fn get(&self, key: &[u8]) -> (r: Option<&Benc>)
        ensures
            match r {
                Some(v) => dict_get(self@, key@) == Some(benc_view(*v)),
                None => dict_get(self@, key@) is None,
            },
    {
        proof {
            broadcast use lemma_map_view;

        }
        proof {
            assert(self@.skip(0) =~= self@);
        }
        let mut i: usize = 0;
        while i < self.entries.len()
            invariant
                i <= self.entries@.len(),
                dict_get(self@, key@) == dict_get(self@.skip(i as int), key@),
            decreases self.entries@.len() - i,
        {
            proof {
                broadcast use lemma_map_view;

                assert(self@.skip(i as int)[0] == self@[i as int]);
                assert(self@.skip(i as int).skip(1) =~= self@.skip(i as int + 1));
            }
            let hit = bytes_eq(self.entries[i].0.as_slice(), key);
            if hit {
                return Some(&self.entries[i].1);
            }
            i += 1;
        }
        proof {
            assert(self@.skip(i as int).len() == 0);
        }
        None
    }

    /// Whether an entry with this key exists.
    pub fn contains_key(&self, key: &[u8]) -> (r: bool)
        ensures
            r == (dict_get(self@, key@) is Some),
    {
        let found = self.get(key);
        found.is_some()
    }
}

} // verus!
