use bencodec::bencode::{BInt, BMap, BStr, BVec, Benc, EncodeBencode};

#[test]
fn test_encode_bint() {
    assert_eq!(b"i10e".to_vec(), (10 as BInt).as_bytes());
    assert_eq!(b"i0e".to_vec(), (0 as BInt).as_bytes());
    assert_eq!(b"i12345e".to_vec(), (12345 as BInt).as_bytes());
}

#[test]
fn test_encode_bstr() {
    let raw: BStr = vec![1 as u8, 2, 3];
    assert_eq!(vec![51, 58, 1, 2, 3], raw.as_bytes());
    let foo: BStr = b"foo".to_vec();
    assert_eq!(b"3:foo".to_vec(), foo.as_bytes());
    let empty: BStr = b"".to_vec();
    assert_eq!(b"0:".to_vec(), empty.as_bytes());
    let long: BStr = b"abcdefghij".to_vec();
    assert_eq!(b"10:abcdefghij".to_vec(), long.as_bytes());
}

#[test]
fn test_encode_bvec() {
    let single: BVec = vec![Benc::Int(10)];
    assert_eq!(b"li10ee".to_vec(), single.as_bytes());
    let numbers: BVec = vec![
        Benc::Int(1),
        Benc::Int(2),
        Benc::Int(3),
        Benc::Int(4),
        Benc::Int(5),
    ];
    assert_eq!(b"li1ei2ei3ei4ei5ee".to_vec(), numbers.as_bytes());
    let mixed: BVec = vec![
        Benc::Int(1),
        Benc::Str(b"foo".to_vec()),
        Benc::Str(b"bar".to_vec()),
        Benc::Int(5),
    ];
    assert_eq!(b"li1e3:foo3:bari5ee".to_vec(), mixed.as_bytes());
    let none: BVec = vec![];
    assert_eq!(b"le".to_vec(), none.as_bytes());
}

#[test]
fn test_encode_bmap() {
    let mut bmap = BMap::new();
    assert_eq!(b"de".to_vec(), bmap.as_bytes());

    bmap.insert(b"foo".to_vec(), Benc::Int(10));
    assert_eq!(b"d3:fooi10ee".to_vec(), bmap.as_bytes());
    // note that it should be sorting so that bar is before foo, even though
    // foo was inserted first.
    bmap.insert(b"bar".to_vec(), Benc::Int(20));
    assert_eq!(b"d3:bari20e3:fooi10ee".to_vec(), bmap.as_bytes());

    let mut sorted = BMap::new();
    sorted.insert(b"a".to_vec(), Benc::Int(1));
    sorted.insert(b"b".to_vec(), Benc::Int(2));
    assert_eq!(b"d1:ai1e1:bi2ee".to_vec(), sorted.as_bytes());
}

#[test]
fn encoding_is_deterministic_and_order_independent() {
    let mut forward = BMap::new();
    forward.insert(b"alpha".to_vec(), Benc::Int(1));
    forward.insert(b"beta".to_vec(), Benc::Int(2));
    forward.insert(b"gamma".to_vec(), Benc::Int(3));

    let mut backward = BMap::new();
    backward.insert(b"gamma".to_vec(), Benc::Int(3));
    backward.insert(b"beta".to_vec(), Benc::Int(2));
    backward.insert(b"alpha".to_vec(), Benc::Int(1));

    assert_eq!(forward.as_bytes(), backward.as_bytes());
    assert_eq!(forward.as_bytes(), forward.as_bytes());
    assert_eq!(forward, backward);
}

#[test]
fn duplicate_key_keeps_last_value() {
    let mut bmap = BMap::new();
    bmap.insert(b"key".to_vec(), Benc::Int(1));
    bmap.insert(b"key".to_vec(), Benc::Int(2));
    assert_eq!(1, bmap.len());
    assert_eq!(b"d3:keyi2ee".to_vec(), bmap.as_bytes());
}
