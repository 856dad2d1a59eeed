use bencodec::bencode::{BMap, Benc};

#[test]
fn setting_and_getting_values() {
    let bint: Benc = Benc::Int(10);
    assert_eq!(10, bint.to_usize());

    let bstr: Benc = Benc::Str(b"foo".to_vec());
    assert_eq!(b"foo".to_vec(), bstr.to_bytes());
}

#[test]
fn setting_and_getting_collections() {
    let bv1: Benc = Benc::Int(1);
    let bv2: Benc = Benc::Str(b"foo".to_vec());
    let bvec: Benc = Benc::List(vec![bv1, bv2]);
    let unwrapped_bvec = bvec.to_vec();
    assert_eq!(1, unwrapped_bvec.get(0).unwrap().to_usize());
    assert_eq!("foo", unwrapped_bvec.get(1).unwrap().to_string());

    let mut map: BMap = BMap::new();
    map.insert(b"foo".to_vec(), Benc::Int(9001));
    map.insert(b"bar".to_vec(), Benc::Str(b"its over".to_vec()));

    let bmap: Benc = Benc::Dict(map);
    let unwrapped_map = bmap.to_map();
    assert_eq!(9001, unwrapped_map.get(b"foo").unwrap().to_usize());
    assert_eq!("its over", unwrapped_map.get(b"bar").unwrap().to_string());
}

#[test]
fn to_string_decodes_utf8() {
    let plain: Benc = Benc::Str(b"hello".to_vec());
    assert_eq!("hello", plain.to_string());

    let accented: Benc = Benc::Str("héllo wörld".as_bytes().to_vec());
    assert_eq!("héllo wörld", accented.to_string());
}
