//! The Bencode parser: recursive descent over a byte slice, dispatching on
//! each value's leading byte, with exact offset tracking and a strict error
//! taxonomy. Every function's result equals the specification-level parser
//! in [`super::model`].

use vstd::prelude::*;
use vstd::slice::{slice_subrange, slice_to_vec};

use super::laws::{
    lemma_build_dict_from_push, lemma_dec_value_nonneg, lemma_dec_value_prefix, lemma_find_byte,
    lemma_seq_view_from_push, lemma_spec_parse_consumed, lemma_spec_parse_wf,
};
use super::model::{
    all_digits, benc_view, build_dict, dec_value, find_byte, is_bdigit, map_view, seq_view_from,
    spec_parse_any, spec_parse_dict, spec_parse_int, spec_parse_items, spec_parse_list,
    spec_parse_pairs, spec_parse_str, spec_parse_usize, wf_value, BencV,
};
use super::{BInt, BMap, BStr, BVec, Benc};

verus! {

/// The outcome of a parse call.
pub type ParseResult<T> = Result<T, ParseError>;

/// The format errors, each distinct and always reported, never coerced.
#[derive(Debug, PartialEq, Eq, Structural, Clone, Copy)]
pub enum ParseError {
    /// A list, dictionary or integer was not closed before the buffer ended.
    MissingTerminator,
    /// The byte at the cursor matches none of the four value-kind leaders.
    InvalidFirstByte,
    /// The digits of an integer or of a length prefix are not a valid
    /// unsigned decimal number that fits the platform word.
    InvalidAsciiInteger,
    /// A dictionary key is not valid UTF-8.
    InvalidUtf8String,
    /// No `:` found where a length-prefixed string was expected.
    InvalidByteString,
    /// The declared string length exceeds the remaining buffer.
    ByteStringTooLong,
    /// A dictionary entry was truncated between its key and its value.
    InvalidBencodeDictionary,
}

/// Parses byte slices into one of the Bencode payload types.
pub trait ParseBenc<T> {
    /// Parse an entire buffer as exactly one value; trailing bytes are
    /// ignored.
    fn parse(bytes: &[u8]) -> ParseResult<T>;

    /// Parse one value from the buffer's beginning and report how many bytes
    /// it consumed.
    fn parse_with_offset(bytes: &[u8]) -> ParseResult<(T, usize)>;
}

/// Relies on `String::from_utf8`: it returns `Ok` exactly when the bytes are
/// valid UTF-8, and then the string's characters encode back to those bytes.
#[verifier::external_body]
pub(crate) fn string_from_utf8(bytes: &[u8]) -> (r: Option<String>)
    ensures
        r is Some <==> vstd::utf8::valid_utf8(bytes@),
        r matches Some(s) ==> vstd::utf8::encode_utf8(s@) == bytes@,
{
    String::from_utf8(bytes.to_vec()).ok()
}

/// Parse a byte slice into a `String`; fails when the bytes are not UTF-8.
pub fn parse_string(bytes: &[u8]) -> (r: ParseResult<String>)
    ensures
        r matches Ok(s) ==> vstd::utf8::valid_utf8(bytes@) && s@ == vstd::utf8::decode_utf8(
            bytes@,
        ),
        r matches Err(e) ==> !vstd::utf8::valid_utf8(bytes@) && e == ParseError::InvalidUtf8String,
{
    match string_from_utf8(bytes) {
        Some(s) => {
            proof {
                vstd::utf8::encode_utf8_decode_utf8(s@);
            }
            Ok(s)
        },
        None => Err(ParseError::InvalidUtf8String),
    }
}

/// Find the seek byte in the given bytes, or return `None`.
pub(crate) fn byte_index(seek: u8, bytes: &[u8]) -> (r: Option<usize>)
    ensures
        match r {
            Some(i) => find_byte(bytes@, seek) == Some(i as int),
            None => find_byte(bytes@, seek) is None,
        },
{
    let mut i: usize = 0;
    while i < bytes.len()
        invariant
            i <= bytes@.len(),
            forall|j: int| 0 <= j < i ==> bytes@[j] != seek,
        decreases bytes@.len() - i,
    {
        if bytes[i] == seek {
            proof {
                lemma_find_byte(bytes@, seek);
            }
            return Some(i);
        }
        i += 1;
    }
    proof {
        lemma_find_byte(bytes@, seek);
    }
    None
}

/// Parse a byte slice as an ASCII decimal number that fits the platform
/// word; anything else is an `InvalidAsciiInteger` error.
pub(crate) fn parse_usize(bytes: &[u8]) -> (r: ParseResult<usize>)
    ensures
        r == spec_parse_usize(bytes@),
{
    if bytes.len() == 0 {
        return Err(ParseError::InvalidAsciiInteger);
    }
    proof {
        assert(bytes@.take(0) =~= Seq::<u8>::empty());
    }
    let mut acc: usize = 0;
    let mut i: usize = 0;
    while i < bytes.len()
        invariant
            i <= bytes@.len(),
            all_digits(bytes@.take(i as int)),
            acc == dec_value(bytes@.take(i as int)),
        decreases bytes@.len() - i,
    {
        let b = bytes[i];
        if b < 48 || b > 57 {
            proof {
                assert(!is_bdigit(bytes@[i as int]));
            }
            return Err(ParseError::InvalidAsciiInteger);
        }
        let d: usize = (b - 48) as usize;
        let ghost t = bytes@.take(i as int);
        let ghost t1 = bytes@.take(i as int + 1);
        proof {
            assert(t1.drop_last() =~= t);
            assert(t1.last() == bytes@[i as int]);
            assert(dec_value(t1) == dec_value(t) * 10 + d);
            assert forall|j: int| 0 <= j < t1.len() implies is_bdigit(#[trigger] t1[j]) by {
                if j < i {
                    assert(t1[j] == t[j]);
                }
            }
            lemma_dec_value_nonneg(t);
            vstd::arithmetic::div_mod::lemma_fundamental_div_mod(usize::MAX - d, 10);
            vstd::arithmetic::div_mod::lemma_mod_bound(usize::MAX - d, 10);
        }
        if acc > (usize::MAX - d) / 10 {
            proof {
                assert(10 * acc + d > usize::MAX);
                if all_digits(bytes@) {
                    lemma_dec_value_prefix(bytes@, i as int + 1);
                }
            }
            return Err(ParseError::InvalidAsciiInteger);
        }
        proof {
            assert(10 * acc + d <= usize::MAX);
        }
        acc = acc * 10 + d;
        i += 1;
    }
    proof {
        assert(bytes@.take(bytes@.len() as int) =~= bytes@);
        lemma_dec_value_nonneg(bytes@);
    }
    Ok(acc)
}

impl ParseBenc<BInt> for BInt {
    fn parse(bytes: &[u8]) -> (r: ParseResult<BInt>)
        ensures
            r matches Ok(n) ==> (spec_parse_int(bytes@) matches Ok(p) && p.0 == n),
            r matches Err(e) ==> spec_parse_int(bytes@) == Err::<(usize, int), ParseError>(e),
    {
        match Self::parse_with_offset(bytes) {
            Ok((val, _)) => Ok(val),
            Err(e) => Err(e),
        }
    }

    fn parse_with_offset(bytes: &[u8]) -> (r: ParseResult<(BInt, usize)>)
        ensures
            r matches Ok(p) ==> spec_parse_int(bytes@) == Ok::<(usize, int), ParseError>(
                (p.0, p.1 as int),
            ),
            r matches Err(e) ==> spec_parse_int(bytes@) == Err::<(usize, int), ParseError>(e),
    {
        if bytes.len() == 0 || bytes[0] != 105 {
            return Err(ParseError::InvalidFirstByte);
        }
        match byte_index(101, bytes) {
            Some(e) => {
                proof {
                    lemma_find_byte(bytes@, 101u8);
                }
                let digits = slice_subrange(bytes, 1, e);
                match parse_usize(digits) {
                    Ok(r) => Ok((r, e + 1)),
                    Err(err) => Err(err),
                }
            },
            None => Err(ParseError::MissingTerminator),
        }
    }
}

impl ParseBenc<BStr> for BStr {
    fn parse(bytes: &[u8]) -> (r: ParseResult<BStr>)
        ensures
            r matches Ok(v) ==> (spec_parse_str(bytes@) matches Ok(p) && p.0 == v@),
            r matches Err(e) ==> spec_parse_str(bytes@) == Err::<(Seq<u8>, int), ParseError>(e),
    {
        match Self::parse_with_offset(bytes) {
            Ok((val, _)) => Ok(val),
            Err(e) => Err(e),
        }
    }

    fn parse_with_offset(bytes: &[u8]) -> (r: ParseResult<(BStr, usize)>)
        ensures
            r matches Ok(p) ==> spec_parse_str(bytes@) == Ok::<(Seq<u8>, int), ParseError>(
                (p.0@, p.1 as int),
            ),
            r matches Err(e) ==> spec_parse_str(bytes@) == Err::<(Seq<u8>, int), ParseError>(e),
    {
        if bytes.len() == 0 || bytes[0] < 48 || bytes[0] > 57 {
            return Err(ParseError::InvalidFirstByte);
        }
        let colon = match byte_index(58, bytes) {
            Some(colon) => colon,
            None => {
                return Err(ParseError::InvalidByteString);
            },
        };
        proof {
            lemma_find_byte(bytes@, 58u8);
        }
        let len = match parse_usize(slice_subrange(bytes, 0, colon)) {
            Ok(len) => len,
            Err(e) => {
                return Err(e);
            },
        };
        if len >= bytes.len() - colon {
            return Err(ParseError::ByteStringTooLong);
        }
        let payload = slice_to_vec(slice_subrange(bytes, colon + 1, colon + 1 + len));
        Ok((payload, colon + len + 1))
    }
}

/// Attempts to parse the given bytes as any of the Bencode value kinds,
/// based on the ASCII value of the first byte.
pub fn parse_any(bytes: &[u8]) -> (r: ParseResult<(Benc, usize)>)
    ensures
        r matches Ok(p) ==> spec_parse_any(bytes@) == Ok::<(BencV, int), ParseError>(
            (p.0@, p.1 as int),
        ) && p.0.wf() && 1 <= p.1 <= bytes@.len(),
        r matches Err(e) ==> spec_parse_any(bytes@) == Err::<(BencV, int), ParseError>(e),
    decreases bytes@.len(), 1int,
{
    proof {
        lemma_spec_parse_consumed(bytes@);
        lemma_spec_parse_wf(bytes@);
    }
    if bytes.len() == 0 {
        return Err(ParseError::InvalidFirstByte);
    }
    let b = bytes[0];
    if 48 <= b && b <= 57 {
        match BStr::parse_with_offset(bytes) {
            Ok((a, off)) => Ok((Benc::Str(a), off)),
            Err(e) => Err(e),
        }
    } else if b == 100 {
        match BMap::parse_with_offset(bytes) {
            Ok((a, off)) => Ok((Benc::Dict(a), off)),
            Err(e) => Err(e),
        }
    } else if b == 105 {
        match BInt::parse_with_offset(bytes) {
            Ok((a, off)) => Ok((Benc::Int(a), off)),
            Err(e) => Err(e),
        }
    } else if b == 108 {
        match BVec::parse_with_offset(bytes) {
            Ok((a, off)) => Ok((Benc::List(a), off)),
            Err(e) => Err(e),
        }
    } else {
        Err(ParseError::InvalidFirstByte)
    }
}

impl ParseBenc<BVec> for BVec {
    fn parse(bytes: &[u8]) -> (r: ParseResult<BVec>)
        ensures
            r matches Ok(v) ==> (spec_parse_list(bytes@) matches Ok(p) && p.0 == BencV::List(
                seq_view_from(v, 0),
            )),
            r matches Err(e) ==> spec_parse_list(bytes@) == Err::<(BencV, int), ParseError>(e),
    {
        match Self::parse_with_offset(bytes) {
            Ok((val, _)) => Ok(val),
            Err(e) => Err(e),
        }
    }

    fn parse_with_offset(bytes: &[u8]) -> (r: ParseResult<(BVec, usize)>)
        ensures
            r matches Ok(p) ==> spec_parse_list(bytes@) == Ok::<(BencV, int), ParseError>(
                (BencV::List(seq_view_from(p.0, 0)), p.1 as int),
            ) && wf_value(BencV::List(seq_view_from(p.0, 0))),
            r matches Err(e) ==> spec_parse_list(bytes@) == Err::<(BencV, int), ParseError>(e),
        decreases bytes@.len(), 0int,
    {
        if bytes.len() == 0 || bytes[0] != 108 {
            return Err(ParseError::InvalidFirstByte);
        }
        let mut i: usize = 1;
        let mut vec: Vec<Benc> = Vec::new();
        proof {
            assert(seq_view_from(vec, 0) =~= Seq::<BencV>::empty());
            match spec_parse_items(bytes@.skip(1)) {
                Ok(p) => {
                    assert(seq_view_from(vec, 0) + p.0 =~= p.0);
                },
                Err(_) => {},
            }
        }
        loop
            invariant
                1 <= i <= bytes@.len(),
                bytes@.len() >= 1 && bytes@[0] == 108u8,
                spec_parse_items(bytes@.skip(1)) == (match spec_parse_items(
                    bytes@.skip(i as int),
                ) {
                    Ok(p) => Ok::<(Seq<BencV>, int), ParseError>(
                        (seq_view_from(vec, 0) + p.0, (i - 1) + p.1),
                    ),
                    Err(e) => Err::<(Seq<BencV>, int), ParseError>(e),
                }),
            decreases bytes@.len() - i,
        {
            if i >= bytes.len() {
                proof {
                    assert(bytes@.skip(i as int).len() == 0);
                }
                return Err(ParseError::MissingTerminator);
            }
            if bytes[i] == 101 {
                proof {
                    assert(bytes@.skip(i as int)[0] == bytes@[i as int]);
                    assert(seq_view_from(vec, 0) + Seq::<BencV>::empty() =~= seq_view_from(
                        vec,
                        0,
                    ));
                    lemma_spec_parse_wf(bytes@);
                }
                return Ok((vec, i + 1));
            }
            let sub = slice_subrange(bytes, i, bytes.len());
            proof {
                assert(sub@ =~= bytes@.skip(i as int));
                assert(bytes@.skip(i as int)[0] == bytes@[i as int]);
            }
            match parse_any(sub) {
                Err(e) => {
                    return Err(e);
                },
                Ok((val, off)) => {
                    let ghost prev = vec;
                    let ghost vv = val;
                    vec.push(val);
                    proof {
                        lemma_seq_view_from_push(prev, vv, vec);
                        assert(bytes@.skip(i as int).skip(off as int) =~= bytes@.skip(
                            i as int + off as int,
                        ));
                        match spec_parse_items(bytes@.skip(i as int + off as int)) {
                            Ok((rest, c)) => {
                                assert(seq_view_from(prev, 0).push(benc_view(vv)) + rest
                                    =~= seq_view_from(prev, 0) + (seq![benc_view(vv)] + rest));
                            },
                            Err(_) => {},
                        }
                    }
                    i = i + off;
                },
            }
        }
    }
}

impl ParseBenc<BMap> for BMap {
    fn parse(bytes: &[u8]) -> (r: ParseResult<BMap>)
        ensures
            r matches Ok(m) ==> (spec_parse_dict(bytes@) matches Ok(p) && p.0 == BencV::Dict(
                map_view(m),
            ) && m.wf()),
            r matches Err(e) ==> spec_parse_dict(bytes@) == Err::<(BencV, int), ParseError>(e),
    {
        match Self::parse_with_offset(bytes) {
            Ok((val, _)) => Ok(val),
            Err(e) => Err(e),
        }
    }

    #[verifier::rlimit(100)]
    fn parse_with_offset(bytes: &[u8]) -> (r: ParseResult<(BMap, usize)>)
        ensures
            r matches Ok(p) ==> spec_parse_dict(bytes@) == Ok::<(BencV, int), ParseError>(
                (BencV::Dict(map_view(p.0)), p.1 as int),
            ) && p.0.wf(),
            r matches Err(e) ==> spec_parse_dict(bytes@) == Err::<(BencV, int), ParseError>(e),
        decreases bytes@.len(), 0int,
    {
        if bytes.len() == 0 || bytes[0] != 100 {
            return Err(ParseError::InvalidFirstByte);
        }
        let mut i: usize = 1;
        let mut map: BMap = BMap::new();
        let ghost mut pairs_acc: Seq<(Seq<u8>, BencV)> = Seq::empty();
        proof {
            match spec_parse_pairs(bytes@.skip(1)) {
                Ok(p) => {
                    assert(pairs_acc + p.0 =~= p.0);
                },
                Err(_) => {},
            }
        }
        loop
            invariant
                1 <= i <= bytes@.len(),
                bytes@.len() >= 1 && bytes@[0] == 100u8,
                map.wf(),
                map@ == build_dict(pairs_acc),
                spec_parse_pairs(bytes@.skip(1)) == (match spec_parse_pairs(
                    bytes@.skip(i as int),
                ) {
                    Ok(p) => Ok::<(Seq<(Seq<u8>, BencV)>, int), ParseError>(
                        (pairs_acc + p.0, (i - 1) + p.1),
                    ),
                    Err(e) => Err::<(Seq<(Seq<u8>, BencV)>, int), ParseError>(e),
                }),
            decreases bytes@.len() - i,
        {
            if i >= bytes.len() {
                proof {
                    assert(bytes@.skip(i as int).len() == 0);
                }
                return Err(ParseError::MissingTerminator);
            }
            if bytes[i] == 101 {
                proof {
                    assert(bytes@.skip(i as int)[0] == bytes@[i as int]);
                    assert(pairs_acc + Seq::<(Seq<u8>, BencV)>::empty() =~= pairs_acc);
                }
                return Ok((map, i + 1));
            }
            let sub = slice_subrange(bytes, i, bytes.len());
            proof {
                assert(sub@ =~= bytes@.skip(i as int));
                assert(bytes@.skip(i as int)[0] == bytes@[i as int]);
                lemma_spec_parse_consumed(sub@);
            }
            let ghost i0 = i as int;
            let key = match BStr::parse_with_offset(sub) {
                Ok((val, offset)) => {
                    i = i + offset;
                    val
                },
                Err(e) => {
                    return Err(e);
                },
            };
            if i >= bytes.len() {
                return Err(ParseError::InvalidBencodeDictionary);
            }
            let sub2 = slice_subrange(bytes, i, bytes.len());
            proof {
                assert(sub2@ =~= bytes@.skip(i as int));
                assert(bytes@.skip(i0).skip(i as int - i0) =~= bytes@.skip(i as int));
            }
            let value = match parse_any(sub2) {
                Ok((val, offset)) => {
                    i = i + offset;
                    val
                },
                Err(e) => {
                    return Err(e);
                },
            };
            if i >= bytes.len() {
                return Err(ParseError::MissingTerminator);
            }
            match parse_string(key.as_slice()) {
                Ok(_) => {},
                Err(e) => {
                    return Err(e);
                },
            }
            let ghost kview = key@;
            let ghost vview = value@;
            let ghost prev_pairs = pairs_acc;
            proof {
                assert(value.wf());
                lemma_build_dict_from_push(Seq::empty(), prev_pairs, (kview, vview));
                pairs_acc = pairs_acc.push((kview, vview));
                assert(bytes@.skip(i0).skip(i as int - i0) =~= bytes@.skip(i as int));
                match spec_parse_pairs(bytes@.skip(i as int)) {
                    Ok((rest, c)) => {
                        assert(prev_pairs.push((kview, vview)) + rest =~= prev_pairs + (seq![
                            (kview, vview),
                        ] + rest));
                    },
                    Err(_) => {},
                }
            }
            map.insert(key, value);
        }
    }
}

} // verus!
