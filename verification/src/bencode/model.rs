//! The mathematical model of Bencode: an abstract value tree, the canonical
//! dictionary operations, and specification-level functions for decimal
//! digits, parsing and encoding. Every executable function's contract is
//! stated against this module.

use vstd::prelude::*;

use super::map::BMap;
use super::parse::ParseError;
use super::Benc;

verus! {

/// The abstract form of a Bencode value, over mathematical sequences.
pub enum BencV {
    /// An unsigned whole number.
    Int(int),
    /// Raw bytes with explicit length.
    Str(Seq<u8>),
    /// An ordered, heterogeneous sequence of values.
    List(Seq<BencV>),
    /// Key/value pairs; canonical form keeps keys strictly ascending.
    Dict(Seq<(Seq<u8>, BencV)>),
}

/// Strict lexicographic order on byte sequences.
pub open spec fn lex_lt(a: Seq<u8>, b: Seq<u8>) -> bool
    decreases a.len(),
{
    if b.len() == 0 {
        false
    } else if a.len() == 0 {
        true
    } else if a[0] < b[0] {
        true
    } else if a[0] > b[0] {
        false
    } else {
        lex_lt(a.skip(1), b.skip(1))
    }
}

/// Dictionary entries are strictly ascending by key (hence keys are unique).
pub open spec fn dict_sorted(d: Seq<(Seq<u8>, BencV)>) -> bool {
    forall|i: int, j: int| 0 <= i < j < d.len() ==> lex_lt(#[trigger] d[i].0, #[trigger] d[j].0)
}

/// Well-formedness of an abstract value: integers and lengths fit the
/// platform word, dictionary keys are valid UTF-8 and strictly ascending.
pub open spec fn wf_value(v: BencV) -> bool
    decreases v,
{
    match v {
        BencV::Int(n) => 0 <= n <= usize::MAX,
        BencV::Str(b) => b.len() <= usize::MAX,
        BencV::List(items) => forall|i: int|
            0 <= i < items.len() ==> wf_value(#[trigger] items[i]),
        BencV::Dict(d) => {
            &&& dict_sorted(d)
            &&& forall|i: int| 0 <= i < d.len() ==> (#[trigger] d[i]).0.len() <= usize::MAX
            &&& forall|i: int| 0 <= i < d.len() ==> vstd::utf8::valid_utf8((#[trigger] d[i]).0)
            &&& forall|i: int| 0 <= i < d.len() ==> wf_value((#[trigger] d[i]).1)
        },
    }
}

/// The abstraction of an executable value tree.
pub open spec fn benc_view(v: Benc) -> BencV
    decreases v, 0int, 0int,
{
    match v {
        Benc::Int(n) => BencV::Int(n as int),
        Benc::Str(b) => BencV::Str(b@),
        Benc::List(items) => BencV::List(seq_view_from(items, 0)),
        Benc::Dict(m) => BencV::Dict(entries_view_from(m.entries, 0)),
    }
}

/// The abstractions of the elements of `items` from index `i` on.
pub open spec fn seq_view_from(items: Vec<Benc>, i: int) -> Seq<BencV>
    decreases items, 1int, items@.len() - i,
{
    if i < 0 || i >= items@.len() {
        Seq::empty()
    } else {
        seq![benc_view(items@[i])] + seq_view_from(items, i + 1)
    }
}

/// The abstractions of the dictionary entries from index `i` on.
pub open spec fn entries_view_from(entries: Vec<(Vec<u8>, Benc)>, i: int) -> Seq<
    (Seq<u8>, BencV),
>
    decreases entries, 1int, entries@.len() - i,
{
    if i < 0 || i >= entries@.len() {
        Seq::empty()
    } else {
        seq![(entries@[i].0@, benc_view(entries@[i].1))] + entries_view_from(entries, i + 1)
    }
}

/// The abstraction of an executable dictionary: its entries, in order.
pub open spec fn map_view(m: BMap) -> Seq<(Seq<u8>, BencV)> {
    entries_view_from(m.entries, 0)
}

/// Pointwise form of [`seq_view_from`].
pub proof fn lemma_seq_view_from(items: Vec<Benc>, i: int)
    requires
        0 <= i <= items@.len(),
    ensures
        seq_view_from(items, i).len() == items@.len() - i,
        forall|j: int|
            i <= j < items@.len() ==> seq_view_from(items, i)[j - i] == benc_view(
                items@[j],
            ),
    decreases items@.len() - i,
{
    if i < items@.len() {
        lemma_seq_view_from(items, i + 1);
    }
}

/// Pointwise form of [`map_view`]: entry `j` of the view abstracts entry `j`
/// of the vector.
pub broadcast proof fn lemma_map_view(m: BMap)
    ensures
        (#[trigger] map_view(m)).len() == m.entries@.len(),
        forall|j: int|
            0 <= j < m.entries@.len() ==> map_view(m)[j] == (
                m.entries@[j].0@,
                benc_view(m.entries@[j].1),
            ),
{
    lemma_entries_view_from(m.entries, 0);
}

/// Pointwise form of [`entries_view_from`].
pub proof fn lemma_entries_view_from(entries: Vec<(Vec<u8>, Benc)>, i: int)
    requires
        0 <= i <= entries@.len(),
    ensures
        entries_view_from(entries, i).len() == entries@.len() - i,
        forall|j: int|
            i <= j < entries@.len() ==> entries_view_from(entries, i)[j - i] == (
                entries@[j].0@,
                benc_view(entries@[j].1),
            ),
    decreases entries@.len() - i,
{
    if i < entries@.len() {
        lemma_entries_view_from(entries, i + 1);
    }
}

/// Insert into sorted entries, keeping keys ascending; an equal key is
/// overwritten (last write wins).
pub open spec fn dict_insert(
    d: Seq<(Seq<u8>, BencV)>,
    k: Seq<u8>,
    v: BencV,
) -> Seq<(Seq<u8>, BencV)>
    decreases d.len(),
{
    if d.len() == 0 {
        seq![(k, v)]
    } else if lex_lt(k, d[0].0) {
        seq![(k, v)] + d
    } else if k == d[0].0 {
        seq![(k, v)] + d.skip(1)
    } else {
        seq![d[0]] + dict_insert(d.skip(1), k, v)
    }
}

/// Look a key up among the entries.
pub open spec fn dict_get(d: Seq<(Seq<u8>, BencV)>, k: Seq<u8>) -> Option<BencV>
    decreases d.len(),
{
    if d.len() == 0 {
        None
    } else if d[0].0 == k {
        Some(d[0].1)
    } else {
        dict_get(d.skip(1), k)
    }
}

/// Fold a sequence of parsed key/value pairs into sorted entries, in order,
/// so that a later duplicate key overwrites an earlier one.
pub open spec fn build_dict_from(
    acc: Seq<(Seq<u8>, BencV)>,
    pairs: Seq<(Seq<u8>, BencV)>,
) -> Seq<(Seq<u8>, BencV)>
    decreases pairs.len(),
{
    if pairs.len() == 0 {
        acc
    } else {
        build_dict_from(dict_insert(acc, pairs[0].0, pairs[0].1), pairs.skip(1))
    }
}

/// The dictionary that a sequence of insertions produces.
pub open spec fn build_dict(pairs: Seq<(Seq<u8>, BencV)>) -> Seq<(Seq<u8>, BencV)> {
    build_dict_from(Seq::empty(), pairs)
}

/// An ASCII decimal digit.
pub open spec fn is_bdigit(b: u8) -> bool {
    48 <= b <= 57
}

/// Every byte is an ASCII decimal digit.
pub open spec fn all_digits(s: Seq<u8>) -> bool {
    forall|i: int| 0 <= i < s.len() ==> is_bdigit(#[trigger] s[i])
}

/// The number that a sequence of ASCII decimal digits denotes.
pub open spec fn dec_value(s: Seq<u8>) -> int
    decreases s.len(),
{
    if s.len() == 0 {
        0
    } else {
        dec_value(s.drop_last()) * 10 + (s.last() - 48)
    }
}

/// The ASCII decimal digits of `n`, most significant first, without
/// non-significant leading zeros.
pub open spec fn dec_digits(n: int) -> Seq<u8>
    recommends
        n >= 0,
    decreases n,
{
    if n < 10 {
        seq![(48 + n) as u8]
    } else {
        dec_digits(n / 10).push((48 + n % 10) as u8)
    }
}

/// The index of the first occurrence of `t` in `s`, if any.
pub open spec fn find_byte(s: Seq<u8>, t: u8) -> Option<int>
    decreases s.len(),
{
    if s.len() == 0 {
        None
    } else if s[0] == t {
        Some(0)
    } else {
        match find_byte(s.skip(1), t) {
            Some(i) => Some(i + 1),
            None => None,
        }
    }
}

/// What parsing an ASCII decimal number returns: the digits must be
/// non-empty, all decimal, and denote a value that fits the platform word.
pub open spec fn spec_parse_usize(s: Seq<u8>) -> Result<usize, ParseError> {
    if s.len() == 0 || !all_digits(s) {
        Err(ParseError::InvalidAsciiInteger)
    } else if dec_value(s) > usize::MAX {
        Err(ParseError::InvalidAsciiInteger)
    } else {
        Ok(dec_value(s) as usize)
    }
}

/// What parsing an integer (`i<digits>e`) returns: the value and the bytes
/// consumed, or the first error.
pub open spec fn spec_parse_int(s: Seq<u8>) -> Result<(usize, int), ParseError> {
    if s.len() == 0 || s[0] != 105u8 {
        Err(ParseError::InvalidFirstByte)
    } else {
        match find_byte(s, 101u8) {
            None => Err(ParseError::MissingTerminator),
            Some(e) => match spec_parse_usize(s.subrange(1, e)) {
                Err(err) => Err(err),
                Ok(n) => Ok((n, e + 1)),
            },
        }
    }
}

/// What parsing a byte-string (`<length>:<payload>`) returns: the payload
/// and the bytes consumed, or the first error.
pub open spec fn spec_parse_str(s: Seq<u8>) -> Result<(Seq<u8>, int), ParseError> {
    if s.len() == 0 || !is_bdigit(s[0]) {
        Err(ParseError::InvalidFirstByte)
    } else {
        match find_byte(s, 58u8) {
            None => Err(ParseError::InvalidByteString),
            Some(c) => match spec_parse_usize(s.subrange(0, c)) {
                Err(err) => Err(err),
                Ok(len) => if c + len >= s.len() {
                    Err(ParseError::ByteStringTooLong)
                } else {
                    Ok((s.subrange(c + 1, c + 1 + len), c + len + 1))
                },
            },
        }
    }
}

/// Clamp a consumed-byte count to at least one, so that the recursion below
/// visibly advances; every successful parse in fact consumes at least one
/// byte ([`lemma_spec_parse_consumed`](super::laws::lemma_spec_parse_consumed)).
pub open spec fn at_least_one(n: int) -> int {
    if n < 1 {
        1
    } else {
        n
    }
}

/// What parsing one value returns, dispatching on the leading byte: an ASCII
/// digit begins a byte-string, `i` an integer, `l` a list, `d` a dictionary;
/// any other leading byte (or an empty buffer) is an error.
pub open spec fn spec_parse_any(s: Seq<u8>) -> Result<(BencV, int), ParseError>
    decreases s.len(), 1int,
{
    if s.len() == 0 {
        Err(ParseError::InvalidFirstByte)
    } else if is_bdigit(s[0]) {
        match spec_parse_str(s) {
            Err(e) => Err(e),
            Ok((b, off)) => Ok((BencV::Str(b), off)),
        }
    } else if s[0] == 100u8 {
        spec_parse_dict(s)
    } else if s[0] == 105u8 {
        match spec_parse_int(s) {
            Err(e) => Err(e),
            Ok((n, off)) => Ok((BencV::Int(n as int), off)),
        }
    } else if s[0] == 108u8 {
        spec_parse_list(s)
    } else {
        Err(ParseError::InvalidFirstByte)
    }
}

/// What parsing a list (`l<value>*e`) returns.
pub open spec fn spec_parse_list(s: Seq<u8>) -> Result<(BencV, int), ParseError>
    decreases s.len(), 0int,
{
    if s.len() == 0 || s[0] != 108u8 {
        Err(ParseError::InvalidFirstByte)
    } else {
        match spec_parse_items(s.skip(1)) {
            Err(e) => Err(e),
            Ok((items, c)) => Ok((BencV::List(items), 1 + c)),
        }
    }
}

/// What parsing the elements after a list's `l` returns: the elements and
/// the bytes consumed including the closing `e`.
pub open spec fn spec_parse_items(s: Seq<u8>) -> Result<(Seq<BencV>, int), ParseError>
    decreases s.len(), 2int,
{
    if s.len() == 0 {
        Err(ParseError::MissingTerminator)
    } else if s[0] == 101u8 {
        Ok((Seq::empty(), 1))
    } else {
        match spec_parse_any(s) {
            Err(e) => Err(e),
            Ok((v, off)) => {
                let step = at_least_one(off);
                if step >= s.len() {
                    Err(ParseError::MissingTerminator)
                } else {
                    match spec_parse_items(s.skip(step)) {
                        Err(e) => Err(e),
                        Ok((rest, c)) => Ok((seq![v] + rest, step + c)),
                    }
                }
            },
        }
    }
}

/// What parsing a dictionary (`d(<string><value>)*e`) returns; a duplicate
/// key overwrites the earlier entry, and the entries come out sorted.
pub open spec fn spec_parse_dict(s: Seq<u8>) -> Result<(BencV, int), ParseError>
    decreases s.len(), 0int,
{
    if s.len() == 0 || s[0] != 100u8 {
        Err(ParseError::InvalidFirstByte)
    } else {
        match spec_parse_pairs(s.skip(1)) {
            Err(e) => Err(e),
            Ok((pairs, c)) => Ok((BencV::Dict(build_dict(pairs)), 1 + c)),
        }
    }
}

/// What parsing the entries after a dictionary's `d` returns: the key/value
/// pairs in parse order and the bytes consumed including the closing `e`.
/// A key must be a byte-string and valid UTF-8.
pub open spec fn spec_parse_pairs(s: Seq<u8>) -> Result<
    (Seq<(Seq<u8>, BencV)>, int),
    ParseError,
>
    decreases s.len(), 2int,
{
    if s.len() == 0 {
        Err(ParseError::MissingTerminator)
    } else if s[0] == 101u8 {
        Ok((Seq::empty(), 1))
    } else {
        match spec_parse_str(s) {
            Err(e) => Err(e),
            Ok((key, koff)) => {
                let kstep = at_least_one(koff);
                if kstep >= s.len() {
                    Err(ParseError::InvalidBencodeDictionary)
                } else {
                    match spec_parse_any(s.skip(kstep)) {
                        Err(e) => Err(e),
                        Ok((v, voff)) => {
                            let vstep = at_least_one(voff);
                            if kstep + vstep >= s.len() {
                                Err(ParseError::MissingTerminator)
                            } else if !vstd::utf8::valid_utf8(key) {
                                Err(ParseError::InvalidUtf8String)
                            } else {
                                match spec_parse_pairs(s.skip(kstep + vstep)) {
                                    Err(e) => Err(e),
                                    Ok((rest, c)) => Ok(
                                        (seq![(key, v)] + rest, kstep + vstep + c),
                                    ),
                                }
                            }
                        },
                    }
                }
            },
        }
    }
}

/// The canonical encoding of a byte-string: decimal length, `:`, raw bytes.
pub open spec fn spec_encode_str(b: Seq<u8>) -> Seq<u8> {
    dec_digits(b.len() as int) + seq![58u8] + b
}

/// The canonical encoding of a value.
pub open spec fn spec_encode(v: BencV) -> Seq<u8>
    decreases v, 0int, 0int,
{
    match v {
        BencV::Int(n) => seq![105u8] + dec_digits(n) + seq![101u8],
        BencV::Str(b) => spec_encode_str(b),
        BencV::List(items) => seq![108u8] + spec_encode_items(items, 0) + seq![101u8],
        BencV::Dict(d) => seq![100u8] + spec_encode_pairs(d, 0) + seq![101u8],
    }
}

/// The concatenated encodings of the elements of `items` from index `i` on.
pub open spec fn spec_encode_items(items: Seq<BencV>, i: int) -> Seq<u8>
    decreases items, 1int, items.len() - i,
{
    if i < 0 || i >= items.len() {
        Seq::empty()
    } else {
        spec_encode(items[i]) + spec_encode_items(items, i + 1)
    }
}

/// The concatenated `(encoded key, encoded value)` pairs of `d` from index
/// `i` on, keys encoded as byte-strings.
pub open spec fn spec_encode_pairs(d: Seq<(Seq<u8>, BencV)>, i: int) -> Seq<u8>
    decreases d, 1int, d.len() - i,
{
    if i < 0 || i >= d.len() {
        Seq::empty()
    } else {
        spec_encode_str(d[i].0) + spec_encode(d[i].1) + spec_encode_pairs(d, i + 1)
    }
}

} // verus!
