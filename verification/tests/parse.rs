use bencodec::bencode::ParseError::{
    ByteStringTooLong, InvalidAsciiInteger, InvalidBencodeDictionary, InvalidByteString,
    InvalidFirstByte, InvalidUtf8String, MissingTerminator,
};
use bencodec::bencode::{parse_any, BInt, BMap, BStr, BVec, Benc, ParseBenc};

#[test]
fn bint_parse() {
    assert_eq!((10, 4), BInt::parse_with_offset(b"i10e").unwrap());
    assert_eq!((10, 6), BInt::parse_with_offset(b"i0010e").unwrap());
    assert_eq!((1234, 6), BInt::parse_with_offset(b"i1234e").unwrap());
    assert_eq!(InvalidFirstByte, BInt::parse_with_offset(b"10e").unwrap_err());
    assert_eq!(MissingTerminator, BInt::parse_with_offset(b"i10").unwrap_err());
}

#[test]
fn bstr_parse() {
    assert_eq!((b"foo".to_vec(), 5), BStr::parse_with_offset(b"3:foo").unwrap());
    assert_eq!(ByteStringTooLong, BStr::parse_with_offset(b"4:foo").unwrap_err());
    assert_eq!(InvalidFirstByte, BStr::parse_with_offset(b"abc:foo").unwrap_err());
}

#[test]
fn bvec_parse() {
    let (bvec, offset) = BVec::parse_with_offset(b"li10e3:fooe").unwrap();
    assert_eq!(11, offset);

    match bvec.get(0).unwrap() {
        Benc::Int(val) => assert_eq!(&10, val),
        _ => panic!("Something went wrong."),
    }
    match bvec.get(1).unwrap() {
        Benc::Str(val) => assert_eq!(&b"foo".to_vec(), val),
        _ => panic!("Something went wrong."),
    }
    assert_eq!(
        MissingTerminator,
        BVec::parse_with_offset(&b"li10e".to_vec()).unwrap_err()
    );
    assert_eq!((vec![], 2), BVec::parse_with_offset(&b"le".to_vec()).unwrap());
}

#[test]
fn bmap_parse() {
    let (bmap, offset) = BMap::parse_with_offset(&b"d3:fooi10e3:bari999ee".to_vec()).unwrap();
    assert_eq!(21, offset);
    assert!(bmap.contains_key(b"foo"));
    assert_eq!(&Benc::Int(10), bmap.get(b"foo").unwrap());
    assert!(bmap.contains_key(b"bar"));
    assert_eq!(&Benc::Int(999), bmap.get(b"bar").unwrap());

    let (bmap, offset) = BMap::parse_with_offset(&b"de".to_vec()).unwrap();
    assert_eq!(2, offset);
    assert_eq!(0, bmap.len());

    assert_eq!(MissingTerminator, BMap::parse(&b"d3:fooi4e".to_vec()).unwrap_err());
    assert_eq!(InvalidFirstByte, BMap::parse(&b"di10ei10e".to_vec()).unwrap_err());
}

#[test]
fn empty_containers_parse() {
    match Benc::parse(b"le").unwrap() {
        Benc::List(v) => assert!(v.is_empty()),
        _ => panic!("expected a list"),
    }
    match Benc::parse(b"de").unwrap() {
        Benc::Dict(m) => assert_eq!(0, m.len()),
        _ => panic!("expected a dictionary"),
    }
}

#[test]
fn nested_structures_parse() {
    let benc = Benc::parse(b"d3:fooi10e3:bari999ee").unwrap();
    let map = benc.to_map();
    assert_eq!(10, map.get(b"foo").unwrap().to_usize());
    assert_eq!(999, map.get(b"bar").unwrap().to_usize());

    let (list, consumed) = parse_any(b"li10e3:fooe").unwrap();
    assert_eq!(11, consumed);
    let items = list.to_vec();
    assert_eq!(2, items.len());
    assert_eq!(10, items[0].to_usize());
    assert_eq!(b"foo".to_vec(), items[1].to_bytes());
}

#[test]
fn round_trip_of_nested_tree() {
    let mut inner = BMap::new();
    inner.insert(b"length".to_vec(), Benc::Int(10));
    inner.insert(
        b"path".to_vec(),
        Benc::List(vec![Benc::Str(b"foo".to_vec()), Benc::Str(b"bar".to_vec())]),
    );
    let mut outer = BMap::new();
    outer.insert(b"files".to_vec(), Benc::Dict(inner));
    outer.insert(b"name".to_vec(), Benc::Str(b"demo".to_vec()));
    let tree = Benc::Dict(outer);

    let bytes = tree.as_bytes();
    let reparsed = Benc::parse(bytes.as_slice()).unwrap();
    assert_eq!(tree, reparsed);
    assert_eq!(bytes, reparsed.as_bytes());
}

#[test]
fn each_error_kind_has_an_input() {
    assert_eq!(MissingTerminator, Benc::parse(b"i10").unwrap_err());
    assert_eq!(InvalidFirstByte, Benc::parse(b"x").unwrap_err());
    assert_eq!(InvalidFirstByte, Benc::parse(b"").unwrap_err());
    assert_eq!(InvalidAsciiInteger, Benc::parse(b"iabce").unwrap_err());
    assert_eq!(InvalidAsciiInteger, Benc::parse(b"i99999999999999999999999999e").unwrap_err());
    assert_eq!(InvalidUtf8String, Benc::parse(b"d3:\xff\xfe\xfdi1ee").unwrap_err());
    assert_eq!(InvalidByteString, Benc::parse(b"3foo").unwrap_err());
    assert_eq!(ByteStringTooLong, Benc::parse(b"4:foo").unwrap_err());
    assert_eq!(InvalidBencodeDictionary, Benc::parse(b"d3:foo").unwrap_err());
}

#[test]
fn utf8_dictionary_keys_parse() {
    let encoded = "d6:kéy\u{e9}i5ee";
    // "kéy" plus a second accented char: 6 bytes of UTF-8 under a 6-byte length.
    let benc = Benc::parse(encoded.as_bytes()).unwrap();
    let map = benc.to_map();
    assert_eq!(5, map.get("kéy\u{e9}".as_bytes()).unwrap().to_usize());
}
