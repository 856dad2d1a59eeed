use bencodec::bencode::{BMap, Benc};
use bencodec::torrent::TorrentFiles;

#[test]
fn torrentfiles_parse() {
    let benc: Benc = Benc::parse(&b"d5:filesd6:lengthi10e4:pathl3:foo3:bareee".to_vec()).unwrap();
    let bmap: BMap = benc.to_map();
    println!("{:?}", bmap);
    let tor_files: TorrentFiles = TorrentFiles::from(bmap).unwrap();

    assert_eq!(10, tor_files.length);
    assert_eq!("foo", tor_files.path.get(0).unwrap());
    assert_eq!("bar", tor_files.path.get(1).unwrap());
}

#[test]
fn torrentfiles_absent() {
    let benc: Benc = Benc::parse(b"d4:name4:demoe").unwrap();
    let bmap: BMap = benc.to_map();
    assert!(TorrentFiles::from(bmap).is_none());
}
