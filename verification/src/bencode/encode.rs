//! The Bencode encoder: walks a value tree and emits its canonical byte
//! representation, deterministically. Every function's result equals the
//! specification-level encoder in [`super::model`].

use vstd::prelude::*;
use vstd::slice::slice_to_vec;

use super::model::{
    benc_view, dec_digits, lemma_entries_view_from, lemma_seq_view_from, map_view,
    seq_view_from, spec_encode, spec_encode_items, spec_encode_pairs, spec_encode_str, BencV,
};
use super::parse::ParseBenc;
use super::{BInt, BMap, BStr, BVec, Benc};

verus! {

/// Encodes a Bencode payload type into its canonical bytes.
pub trait EncodeBencode<T: ParseBenc<T>> {
    /// The canonical byte encoding of this value.
    fn as_bytes(&self) -> Vec<u8>;
}

/// The ASCII decimal digits of `n`, most significant first.
pub(crate) fn usize_digits(n: usize) -> (r: Vec<u8>)
    ensures
        r@ == dec_digits(n as int),
{
    let mut rev: Vec<u8> = Vec::new();
    let mut m: usize = n;
    let ghost mut tail: Seq<u8> = Seq::empty();
    proof {
        assert(dec_digits(n as int) =~= dec_digits(n as int) + tail);
    }
    while m >= 10
        invariant
            dec_digits(n as int) == dec_digits(m as int) + tail,
            rev@.len() == tail.len(),
            forall|j: int| 0 <= j < tail.len() ==> rev@[j] == tail[tail.len() - 1 - j],
        decreases m,
    {
        let d: u8 = (m % 10) as u8 + 48;
        rev.push(d);
        proof {
            let ghost prev_tail = tail;
            assert(dec_digits(m as int) == dec_digits(m as int / 10).push(d));
            assert(dec_digits(m as int / 10).push(d) =~= dec_digits(m as int / 10) + seq![d]);
            tail = seq![d] + tail;
            assert(dec_digits(n as int) =~= dec_digits(m as int / 10) + tail);
            assert forall|j: int| 0 <= j < tail.len() implies rev@[j] == tail[tail.len() - 1
                - j] by {
                if j < prev_tail.len() {
                    assert(tail[tail.len() - 1 - j] == prev_tail[prev_tail.len() - 1 - j]);
                } else {
                    assert(tail[0] == d);
                }
            }
        }
        m = m / 10;
    }
    let d: u8 = m as u8 + 48;
    rev.push(d);
    proof {
        let ghost prev_tail = tail;
        assert(dec_digits(m as int) =~= seq![d]);
        tail = seq![d] + tail;
        assert(dec_digits(n as int) =~= tail);
        assert forall|j: int| 0 <= j < tail.len() implies rev@[j] == tail[tail.len() - 1 - j] by {
            if j < prev_tail.len() {
                assert(tail[tail.len() - 1 - j] == prev_tail[prev_tail.len() - 1 - j]);
            } else {
                assert(tail[0] == d);
            }
        }
    }
    let mut out: Vec<u8> = Vec::new();
    let mut j: usize = rev.len();
    while j > 0
        invariant
            j <= rev@.len(),
            rev@.len() == tail.len(),
            forall|q: int| 0 <= q < tail.len() ==> rev@[q] == tail[tail.len() - 1 - q],
            out@.len() == rev@.len() - j,
            forall|p: int| 0 <= p < out@.len() ==> out@[p] == tail[p],
            dec_digits(n as int) == tail,
        decreases j,
    {
        j -= 1;
        let d2 = rev[j];
        out.push(d2);
        proof {
            assert(out@.last() == rev@[j as int]);
            assert(rev@[j as int] == tail[tail.len() - 1 - j]);
        }
    }
    proof {
        assert(out@ =~= tail);
    }
    out
}

impl EncodeBencode<BInt> for BInt {
    fn as_bytes(&self) -> (r: Vec<u8>)
        ensures
            r@ == spec_encode(BencV::Int(*self as int)),
    {
        let mut bytes: Vec<u8> = Vec::new();
        bytes.push(105);
        let mut digits = usize_digits(*self);
        bytes.append(&mut digits);
        bytes.push(101);
        proof {
            assert(bytes@ =~= seq![105u8] + dec_digits(*self as int) + seq![101u8]);
        }
        bytes
    }
}

impl EncodeBencode<BStr> for BStr {
    fn as_bytes(&self) -> (r: Vec<u8>)
        ensures
            r@ == spec_encode(BencV::Str(self@)),
    {
        let mut bytes: Vec<u8> = usize_digits(self.len());
        bytes.push(58);
        let mut payload = slice_to_vec(self.as_slice());
        bytes.append(&mut payload);
        proof {
            assert(bytes@ =~= dec_digits(self@.len() as int) + seq![58u8] + self@);
            assert(spec_encode(BencV::Str(self@)) == spec_encode_str(self@));
        }
        bytes
    }
}

impl EncodeBencode<BVec> for BVec {
    fn as_bytes(&self) -> (r: Vec<u8>)
        ensures
            r@ == spec_encode(BencV::List(seq_view_from(*self, 0))),
        decreases self, 1int,
    {
        let ghost items = seq_view_from(*self, 0);
        proof {
            lemma_seq_view_from(*self, 0);
        }
        let mut bytes: Vec<u8> = Vec::new();
        bytes.push(108);
        proof {
            assert(bytes@ =~= seq![108u8]);
        }
        let mut i: usize = 0;
        while i < self.len()
            invariant
                i <= self@.len(),
                items == seq_view_from(*self, 0),
                items.len() == self@.len(),
                forall|q: int| 0 <= q < self@.len() ==> items[q] == benc_view(self@[q]),
                seq![108u8] + spec_encode_items(items, 0) == bytes@ + spec_encode_items(
                    items,
                    i as int,
                ),
            decreases self@.len() - i,
        {
            let e = &self[i];
            let mut piece = e.as_bytes();
            proof {
                assert(piece@ == spec_encode(items[i as int]));
                assert((bytes@ + piece@) + spec_encode_items(items, i as int + 1) =~= bytes@ + (
                piece@ + spec_encode_items(items, i as int + 1)));
            }
            bytes.append(&mut piece);
            i += 1;
        }
        bytes.push(101);
        proof {
            assert(spec_encode_items(items, self@.len() as int) =~= Seq::<u8>::empty());
            assert(bytes@ =~= seq![108u8] + spec_encode_items(items, 0) + seq![101u8]);
        }
        bytes
    }
}

impl EncodeBencode<BMap> for BMap {
    fn as_bytes(&self) -> (r: Vec<u8>)
        ensures
            r@ == spec_encode(BencV::Dict(map_view(*self))),
        decreases self, 1int,
    {
        let ghost d = map_view(*self);
        proof {
            lemma_entries_view_from(self.entries, 0);
        }
        let mut bytes: Vec<u8> = Vec::new();
        bytes.push(100);
        proof {
            assert(bytes@ =~= seq![100u8]);
        }
        let mut i: usize = 0;
        while i < self.entries.len()
            invariant
                i <= self.entries@.len(),
                d == map_view(*self),
                d.len() == self.entries@.len(),
                forall|q: int|
                    0 <= q < self.entries@.len() ==> d[q] == (
                        (#[trigger] self.entries@[q]).0@,
                        benc_view(self.entries@[q].1),
                    ),
                seq![100u8] + spec_encode_pairs(d, 0) == bytes@ + spec_encode_pairs(d, i as int),
            decreases self.entries@.len() - i,
        {
            let mut kb = (&self.entries[i].0).as_bytes();
            let mut vb = (&self.entries[i].1).as_bytes();
            proof {
                assert(kb@ == spec_encode_str(d[i as int].0));
                assert(vb@ == spec_encode(d[i as int].1));
                assert(((bytes@ + kb@) + vb@) + spec_encode_pairs(d, i as int + 1) =~= bytes@ + (
                kb@ + vb@ + spec_encode_pairs(d, i as int + 1)));
            }
            bytes.append(&mut kb);
            bytes.append(&mut vb);
            i += 1;
        }
        bytes.push(101);
        proof {
            assert(spec_encode_pairs(d, self.entries@.len() as int) =~= Seq::<u8>::empty());
            assert(bytes@ =~= seq![100u8] + spec_encode_pairs(d, 0) + seq![101u8]);
        }
        bytes
    }
}

} // verus!
