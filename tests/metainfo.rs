use bencode_torrent::torrent_file::{from_bytes, ParseError, TorrentInfo};

fn single_file() -> Vec<u8> {
    let mut doc = b"d8:announce15:http://tracker/4:info".to_vec();
    doc.extend_from_slice(
        b"d6:lengthi1000e4:name5:a.txt12:piece lengthi512e6:pieces20:AAAAAAAAAAAAAAAAAAAAe",
    );
    doc.push(b'e');
    doc
}

fn read(doc: &[u8]) -> TorrentInfo {
    match from_bytes(doc) {
        Ok(t) => t,
        Err(e) => panic!("{:?}", e),
    }
}

#[test]
fn single_file_torrent() {
    let t = read(&single_file());
    assert_eq!(t.announce, "http://tracker/");
    assert_eq!(t.info.hash, "f884a6858907d7df07a48a89ec39a36f682a5645");
    assert_eq!(t.info.name.as_deref(), Some("a.txt"));
    assert_eq!(t.info.piece_length, 512);
    assert_eq!(t.info.pieces, vec![vec![b'A'; 20]]);
    assert_eq!(t.info.files.len(), 1);
    assert_eq!(t.info.files[0].path, vec!["a.txt".to_string()]);
    assert_eq!(t.info.files[0].length, 1000);
}

#[test]
fn multi_file_torrent() {
    let mut doc = b"d8:announce3:url4:info".to_vec();
    doc.extend_from_slice(b"d5:filesld6:lengthi3e4:pathl3:dir5:x.binee");
    doc.extend_from_slice(b"d6:lengthi4e4:pathl5:y.txteee4:name4:root12:piece lengthi16384e");
    doc.extend_from_slice(b"6:pieces40:");
    doc.extend_from_slice(&[b'B'; 20]);
    doc.extend_from_slice(&[b'C'; 20]);
    doc.extend_from_slice(b"ee");
    let t = read(&doc);
    assert_eq!(t.info.hash, "3c68268afc49c0bbe3fb18094107cea125b33166");
    assert_eq!(t.info.pieces, vec![vec![b'B'; 20], vec![b'C'; 20]]);
    assert_eq!(t.info.files.len(), 2);
    assert_eq!(t.info.files[0].path, vec!["dir".to_string(), "x.bin".to_string()]);
    assert_eq!(t.info.files[0].length, 3);
    assert_eq!(t.info.files[1].path, vec!["y.txt".to_string()]);
    assert_eq!(t.info.files[1].length, 4);
}

#[test]
fn negative_lengths_convert_as_usize() {
    let doc = b"d8:announce1:u4:infod6:lengthi-2e12:piece lengthi-1e6:pieces0:ee";
    let t = read(doc);
    assert_eq!(t.info.piece_length, usize::MAX);
    assert_eq!(t.info.files[0].length, usize::MAX - 1);
}

#[test]
fn unnamed_single_file_gets_default_name() {
    let doc = b"d8:announce1:u4:infod6:lengthi7e12:piece lengthi1e6:pieces0:ee";
    let t = read(doc);
    assert_eq!(t.info.name, None);
    assert_eq!(t.info.files[0].path, vec!["Default name".to_string()]);
    assert!(t.info.pieces.is_empty());
}

fn failure(doc: &[u8]) -> String {
    match from_bytes(doc) {
        Ok(_) => panic!("read {:?}", doc),
        Err(e) => format!("{:?}", e),
    }
}

#[test]
fn metainfo_errors() {
    assert!(matches!(from_bytes(b"d8:announce"), Err(ParseError::InvalidBencode)));
    assert_eq!(failure(b"le"), "MissingField(\"root\")");
    assert_eq!(failure(b"d4:infodee"), "MissingField(\"announce\")");
    assert_eq!(failure(b"d8:announce1:ue"), "MissingField(\"info\")");
    assert_eq!(failure(b"d8:announce1:u4:infoi1ee"), "MissingField(\"info\")");
    assert_eq!(failure(b"d8:announce1:u4:infodee"), "MissingField(\"piece length\")");
    assert_eq!(failure(b"d8:announce1:u4:infod12:piece lengthi1eee"), "MissingField(\"pieces\")");
    assert_eq!(
        failure(b"d8:announce1:u4:infod12:piece lengthi1e6:pieces3:abcee"),
        "InvalidPieces"
    );
    assert_eq!(
        failure(b"d8:announce1:u4:infod12:piece lengthi1e6:pieces0:ee"),
        "MissingField(\"length/files\")"
    );
    assert_eq!(
        failure(b"d8:announce1:u4:infod5:filesli1ee12:piece lengthi1e6:pieces0:ee"),
        "MissingField(\"file\")"
    );
    assert_eq!(
        failure(b"d8:announce1:u4:infod5:filesldee12:piece lengthi1e6:pieces0:ee"),
        "MissingField(\"path\")"
    );
    assert_eq!(
        failure(b"d8:announce1:u4:infod5:filesld4:pathli1eeee12:piece lengthi1e6:pieces0:ee"),
        "MissingField(\"path item\")"
    );
    assert_eq!(
        failure(b"d8:announce1:u4:infod5:filesld4:pathl1:aeee12:piece lengthi1e6:pieces0:ee"),
        "MissingField(\"length\")"
    );
}
