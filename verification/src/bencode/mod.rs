//! The Bencode value model: a closed tagged union over the four value kinds
//! (integer, byte-string, list, dictionary), plus typed projections.

use vstd::prelude::*;
use vstd::slice::slice_to_vec;

pub mod encode;
pub mod laws;
pub mod map;
pub mod model;
pub mod parse;

pub use encode::EncodeBencode;
pub use map::BMap;
pub use parse::{parse_any, ParseBenc, ParseError, ParseResult};

use model::{benc_view, seq_view_from, spec_encode, spec_parse_any, wf_value, BencV};
use parse::parse_string;

verus! {

/// An unsigned Bencode integer.
pub type BInt = usize;

/// A Bencode byte-string: raw bytes, not required to be valid text.
pub type BStr = Vec<u8>;

/// A Bencode list: an ordered, heterogeneous sequence of values.
pub type BVec = Vec<Benc>;

/// A decoded Bencode value.
#[derive(Debug, PartialEq, Eq)]
pub enum Benc {
    Int(BInt),
    Str(BStr),
    List(BVec),
    Dict(BMap),
}

impl View for Benc {
    type V = BencV;

    open spec fn view(&self) -> BencV {
        benc_view(*self)
    }
}

impl Benc {
    /// A value is well formed when every dictionary inside it has strictly
    /// ascending, UTF-8 keys, and every integer and length fits the platform word.
    pub open spec fn wf(&self) -> bool {
        wf_value(self@)
    }

    /// Parse an entire buffer as exactly one value; trailing bytes are
    /// ignored.
    pub fn parse(bytes: &[u8]) -> (r: ParseResult<Benc>)
        ensures
            r matches Ok(v) ==> (spec_parse_any(bytes@) matches Ok(p) && p.0 == v@ && v.wf()),
            r matches Err(e) ==> spec_parse_any(bytes@) == Err::<(BencV, int), ParseError>(e),
    {
        let res = parse_any(bytes);
        match res {
            Ok((val, _)) => Ok(val),
            Err(e) => Err(e),
        }
    }

    /// The canonical byte encoding of this value.
    pub fn as_bytes(&self) -> (r: Vec<u8>)
        ensures
            r@ == spec_encode(self@),
        decreases self, 0int,
    {
        match self {
            Benc::Int(v) => (*v).as_bytes(),
            Benc::Str(v) => v.as_bytes(),
            Benc::List(v) => v.as_bytes(),
            Benc::Dict(v) => v.as_bytes(),
        }
    }
}

/// A structural copy of a value, equal to the original in the model.
fn clone_benc(v: &Benc) -> (r: Benc)
    ensures
        r@ == v@,
    decreases v, 0int,
{
    match v {
        Benc::Int(n) => Benc::Int(*n),
        Benc::Str(b) => Benc::Str(slice_to_vec(b.as_slice())),
        Benc::List(items) => {
            let c = clone_benc_vec(items);
            proof {
                laws::lemma_seq_view_pointwise(c, *items);
            }
            Benc::List(c)
        },
        Benc::Dict(m) => Benc::Dict(clone_bmap(m)),
    }
}

/// An element-wise structural copy of a list of values.
fn clone_benc_vec(v: &Vec<Benc>) -> (r: Vec<Benc>)
    ensures
        r@.len() == v@.len(),
        forall|i: int| 0 <= i < v@.len() ==> benc_view(#[trigger] r@[i]) == benc_view(v@[i]),
    decreases v, 1int,
{
    let mut out: Vec<Benc> = Vec::new();
    let mut i: usize = 0;
    while i < v.len()
        invariant
            i <= v@.len(),
            out@.len() == i,
            forall|j: int| 0 <= j < i ==> benc_view(#[trigger] out@[j]) == benc_view(v@[j]),
        decreases v@.len() - i,
    {
        let e = clone_benc(&v[i]);
        out.push(e);
        i += 1;
    }
    out
}

/// An entry-wise structural copy of a dictionary.
fn clone_bmap(m: &BMap) -> (r: BMap)
    ensures
        r@ == m@,
    decreases m, 1int,
{
    let mut entries: Vec<(Vec<u8>, Benc)> = Vec::new();
    let mut i: usize = 0;
    while i < m.entries.len()
        invariant
            i <= m.entries@.len(),
            entries@.len() == i,
            forall|j: int|
                0 <= j < i ==> (#[trigger] entries@[j]).0@ == m.entries@[j].0@ && benc_view(
                    entries@[j].1,
                ) == benc_view(m.entries@[j].1),
        decreases m.entries@.len() - i,
    {
        let k = slice_to_vec(m.entries[i].0.as_slice());
        let val = clone_benc(&m.entries[i].1);
        entries.push((k, val));
        i += 1;
    }
    let r = BMap { entries };
    proof {
        laws::lemma_map_view_pointwise(r, *m);
    }
    r
}

impl Benc {
    /// The integer this value holds; the caller must have established that
    /// it is an `Int`.
    pub fn to_usize(&self) -> (r: usize)
        requires
            self is Int,
        ensures
            r == self->Int_0,
    {
        match self {
            Benc::Int(v) => *v,
            _ => vstd::pervasive::unreached(),
        }
    }

    /// The byte-string this value holds, as text; the caller must have
    /// established that it is a `Str` holding valid UTF-8.
    pub fn to_string(&self) -> (r: String)
        requires
            self is Str,
            vstd::utf8::valid_utf8(self->Str_0@),
        ensures
            r@ == vstd::utf8::decode_utf8(self->Str_0@),
    {
        match self {
            Benc::Str(v) => match parse_string(v.as_slice()) {
                Ok(s) => s,
                Err(_) => vstd::pervasive::unreached(),
            },
            _ => vstd::pervasive::unreached(),
        }
    }

    /// The raw bytes this value holds; the caller must have established
    /// that it is a `Str`.
    pub fn to_bytes(&self) -> (r: Vec<u8>)
        requires
            self is Str,
        ensures
            r@ == self->Str_0@,
    {
        match self {
            Benc::Str(v) => slice_to_vec(v.as_slice()),
            _ => vstd::pervasive::unreached(),
        }
    }

    /// The elements this value holds; the caller must have established that
    /// it is a `List`.
    pub fn to_vec(&self) -> (r: Vec<Benc>)
        requires
            self is List,
        ensures
            seq_view_from(r, 0) == seq_view_from(self->List_0, 0),
    {
        match self {
            Benc::List(v) => {
                let c = clone_benc_vec(v);
                proof {
                    laws::lemma_seq_view_pointwise(c, *v);
                }
                c
            },
            _ => vstd::pervasive::unreached(),
        }
    }

    /// The dictionary this value holds; the caller must have established
    /// that it is a `Dict`.
    pub fn to_map(&self) -> (r: BMap)
        requires
            self is Dict,
        ensures
            r@ == self->Dict_0@,
    {
        match self {
            Benc::Dict(m) => clone_bmap(m),
            _ => vstd::pervasive::unreached(),
        }
    }
}

} // verus!
