use bencode_torrent::bencode::ParseError as BencodeError;
use bencode_torrent::tracker::{
    announce_url, read_response, AnnounceError, AnnounceEvent, AnnounceParams,
};

#[test]
fn response_with_peers() {
    let body = b"d8:intervali1800e5:peersld2:ip8:10.0.0.17:peer id20:ABCDEFGHIJKLMNOPQRST4:porti6881eeee";
    let r = read_response(body).unwrap();
    assert_eq!(r.interval, 1800);
    assert_eq!(r.peers.len(), 1);
    assert_eq!(r.peers[0].id, "ABCDEFGHIJKLMNOPQRST");
    assert_eq!(r.peers[0].ip, "10.0.0.1");
    assert_eq!(r.peers[0].port, 6881);
}

#[test]
fn response_errors() {
    match read_response(b"d14:failure reason6:no way8:intervali1ee") {
        Err(AnnounceError::ErrorResponse(reason)) => assert_eq!(reason, "no way"),
        other => panic!("{:?}", other.err()),
    }
    assert!(matches!(
        read_response(b"d8:intervali1e"),
        Err(AnnounceError::InvalidBencode(BencodeError::UnexpectedEndOfData))
    ));
    assert!(matches!(read_response(b"le"), Err(AnnounceError::MissingField("root"))));
    assert!(matches!(read_response(b"de"), Err(AnnounceError::MissingField("interval"))));
    assert!(matches!(read_response(b"d8:intervali-1ee"), Err(AnnounceError::NegativeInterval)));
    assert!(matches!(read_response(b"d8:intervali1ee"), Err(AnnounceError::MissingField("peers"))));
    assert!(matches!(
        read_response(b"d8:intervali1e5:peersli1eee"),
        Err(AnnounceError::MissingField("peer"))
    ));
    assert!(matches!(
        read_response(b"d8:intervali1e5:peersld2:ip1:a4:porti1eeee"),
        Err(AnnounceError::MissingField("peer id"))
    ));
}

#[test]
fn port_keeps_low_sixteen_bits() {
    let body = b"d8:intervali0e5:peersld2:ip1:a7:peer id1:b4:porti70000eed2:ip1:c7:peer id1:d4:porti-1eeee";
    let r = read_response(body).unwrap();
    assert_eq!(r.interval, 0);
    assert_eq!(r.peers.len(), 2);
    assert_eq!(r.peers[0].port, 4464);
    assert_eq!(r.peers[1].port, 65535);
    assert_eq!(r.peers[1].ip, "c");
}

#[test]
fn event_names() {
    assert_eq!(AnnounceEvent::Started.name(), "started");
    assert_eq!(AnnounceEvent::Completed.name(), "completed");
    assert_eq!(AnnounceEvent::Stopped.name(), "stopped");
}

#[test]
fn announce_url_encodes_parameters() {
    let params = AnnounceParams {
        info_hash: [
            0x61, 0x7e, 0x00, 0xff, 0x20, 0x2d, 0x2e, 0x5f, 0x41, 0x7a, 0x39, 0x25, 0x2b, 0x2a,
            0x80, 0x10, 0x0a, 0x3d, 0x26, 0x3f,
        ],
        peer_id: String::from("peer one*~/"),
        port: 6881,
        uploaded: 0,
        downloaded: 12,
        left: 1000,
        event: AnnounceEvent::Started,
    };
    assert_eq!(
        announce_url("http://t/announce", &params),
        "http://t/announce?peer_id=peer+one*%7E%2F&port=6881&uploaded=0&downloaded=12\
         &left=1000&event=started&info_hash=a~%00%FF%20-._Az9%25%2B%2A%80%10%0A%3D%26%3F"
    );
}
