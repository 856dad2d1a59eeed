//! The torrent-metadata layer: plain records extracted from a decoded
//! Bencode dictionary by direct field lookups. A lookup that finds a value
//! of the wrong shape is a caller error, ruled out by precondition; a
//! missing `files` entry is an ordinary `None`.

use vstd::prelude::*;

use crate::bencode::model::{benc_view, dict_get, seq_view_from, BencV};
use crate::bencode::{BMap, Benc};

verus! {

/// Torrent metadata: the announce URL and the info dictionary.
#[derive(Debug)]
pub struct Torrent {
    pub announce: String,
    pub info: TorrentInfo,
}

/// The info dictionary: either a flat `length` or a `files` entry.
#[derive(Debug)]
pub struct TorrentInfo {
    pub files: Option<TorrentFiles>,
    pub length: Option<usize>,
    pub name: String,
    pub piece_length: usize,
    pub pieces: Vec<u8>,
}

/// A `files` entry: a length and a path, split into components.
#[derive(Debug)]
pub struct TorrentFiles {
    pub length: usize,
    pub path: Vec<String>,
}

/// The bytes of the `files` key.
pub open spec fn key_files() -> Seq<u8> {
    seq![102u8, 105u8, 108u8, 101u8, 115u8]
}

/// The bytes of the `length` key.
pub open spec fn key_length() -> Seq<u8> {
    seq![108u8, 101u8, 110u8, 103u8, 116u8, 104u8]
}

/// The bytes of the `path` key.
pub open spec fn key_path() -> Seq<u8> {
    seq![112u8, 97u8, 116u8, 104u8]
}

/// The schema `from` relies on: when a `files` entry exists it must be a
/// dictionary holding an integer `length` and a `path` list of UTF-8
/// byte-strings.
pub open spec fn files_schema_ok(m: Seq<(Seq<u8>, BencV)>) -> bool {
    match dict_get(m, key_files()) {
        None => true,
        Some(f) => f is Dict && {
            let fm = f->Dict_0;
            &&& dict_get(fm, key_length()) matches Some(l) && l is Int
            &&& dict_get(fm, key_path()) matches Some(p) && p is List && (forall|i: int|
                0 <= i < p->List_0.len() ==> (#[trigger] p->List_0[i]) is Str
                    && vstd::utf8::valid_utf8(p->List_0[i]->Str_0))
        },
    }
}

impl TorrentFiles {
    /// Extract the `files` record from an info dictionary; `None` when no
    /// `files` entry exists.
    pub fn from(bmap: BMap) -> (r: Option<TorrentFiles>)
        requires
            files_schema_ok(bmap@),
        ensures
            match dict_get(bmap@, key_files()) {
                None => r is None,
                Some(f) => r matches Some(tf) && {
                    &&& dict_get(f->Dict_0, key_length()) matches Some(l) && tf.length == l->Int_0
                    &&& dict_get(f->Dict_0, key_path()) matches Some(p) && tf.path@.len()
                        == p->List_0.len() && (forall|i: int|
                        0 <= i < p->List_0.len() ==> (#[trigger] tf.path@[i])@
                            == vstd::utf8::decode_utf8(p->List_0[i]->Str_0))
                },
            },
    {
        let mut fk: Vec<u8> = Vec::new();
        fk.push(102);
        fk.push(105);
        fk.push(108);
        fk.push(101);
        fk.push(115);
        proof {
            assert(fk@ =~= key_files());
        }
        let file_map: BMap = match bmap.get(fk.as_slice()) {
            Some(f) => {
                proof {
                    assert(f is Dict);
                }
                f.to_map()
            },
            None => {
                return None;
            },
        };
        let ghost fmodel = dict_get(bmap@, key_files())->Some_0;
        proof {
            assert(file_map@ == fmodel->Dict_0);
        }
        let mut lk: Vec<u8> = Vec::new();
        lk.push(108);
        lk.push(101);
        lk.push(110);
        lk.push(103);
        lk.push(116);
        lk.push(104);
        proof {
            assert(lk@ =~= key_length());
        }
        let length: usize = match file_map.get(lk.as_slice()) {
            Some(l) => {
                proof {
                    assert(l is Int);
                }
                l.to_usize()
            },
            None => {
                return vstd::pervasive::unreached();
            },
        };
        let mut pk: Vec<u8> = Vec::new();
        pk.push(112);
        pk.push(97);
        pk.push(116);
        pk.push(104);
        proof {
            assert(pk@ =~= key_path());
        }
        let ghost pmodel = dict_get(fmodel->Dict_0, key_path())->Some_0;
        let elems: Vec<Benc> = match file_map.get(pk.as_slice()) {
            Some(p) => {
                proof {
                    assert(p is List);
                }
                p.to_vec()
            },
            None => {
                return vstd::pervasive::unreached();
            },
        };
        proof {
            crate::bencode::model::lemma_seq_view_from(elems, 0);
        }
        let mut path: Vec<String> = Vec::new();
        let mut i: usize = 0;
        while i < elems.len()
            invariant
                i <= elems@.len(),
                seq_view_from(elems, 0) == pmodel->List_0,
                seq_view_from(elems, 0).len() == elems@.len(),
                forall|j: int|
                    0 <= j < elems@.len() ==> seq_view_from(elems, 0)[j] == benc_view(
                        #[trigger] elems@[j],
                    ),
                forall|j: int|
                    0 <= j < pmodel->List_0.len() ==> (#[trigger] pmodel->List_0[j]) is Str
                        && vstd::utf8::valid_utf8(pmodel->List_0[j]->Str_0),
                path@.len() == i,
                forall|j: int|
                    0 <= j < i ==> (#[trigger] path@[j])@ == vstd::utf8::decode_utf8(
                        pmodel->List_0[j]->Str_0,
                    ),
            decreases elems@.len() - i,
        {
            let e = &elems[i];
            proof {
                assert(benc_view(*e) == pmodel->List_0[i as int]);
                assert(*e is Str);
            }
            let s = e.to_string();
            path.push(s);
            i += 1;
        }
        Some(TorrentFiles { length, path })
    }
}

} // verus!
