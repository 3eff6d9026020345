use tsunami::error::{DecodeError, Error};
use tsunami::tsunami::Tsunami;
use tsunami::utils::{decimal, push_decimal, push_percent_encoded, valid_path};

#[test]
fn path_segments() {
    assert!(valid_path("file.txt"));
    assert!(valid_path("..."));
    assert!(valid_path(".a"));
    assert!(valid_path("a."));
    assert!(valid_path(" "));
    assert!(valid_path("あ"));
    assert!(!valid_path(""));
    assert!(!valid_path("."));
    assert!(!valid_path(".."));
}

#[test]
fn numbers_in_decimal() {
    assert_eq!(decimal(0), "0");
    assert_eq!(decimal(7), "7");
    assert_eq!(decimal(10), "10");
    assert_eq!(decimal(6881), "6881");
    assert_eq!(decimal(1_000_000), "1000000");
    assert_eq!(decimal(u64::MAX), "18446744073709551615");
    let mut s = String::from("n=");
    push_decimal(&mut s, 305);
    assert_eq!(s, "n=305");
}

#[test]
fn bytes_escaped() {
    let mut s = String::from("h=");
    push_percent_encoded(&mut s, &[0x00, 0x0f, 0x10, 0x7f, 0x80, 0xab, 0xff, b'a']);
    assert_eq!(s, "h=%00%0F%10%7F%80%AB%FF%61");
    let mut s = String::new();
    push_percent_encoded(&mut s, &[]);
    assert_eq!(s, "");
    let mut s = String::new();
    push_percent_encoded(&mut s, &[0x01, 0x23, 0x45, 0x67, 0x89, 0xab, 0xcd, 0xef]);
    assert_eq!(s, "%01%23%45%67%89%AB%CD%EF");
}

#[test]
fn errors_in_words() {
    assert_eq!(Error::InvalidTrackerResp(None).message(), "tracker sent an invalid response");
    assert_eq!(
        Error::InvalidTrackerResp(Some("busy".into())).message(),
        "tracker sent an invalid response"
    );
    assert_eq!(Error::NoTrackerAvailable.message(), "exhausted all available trackers");
    assert_eq!(DecodeError::MessageId(7, 16393).message(), "unknown message id 7 (len: 16393)");
    assert_eq!(
        DecodeError::MessageId(255, u32::MAX).message(),
        "unknown message id 255 (len: 4294967295)"
    );
    assert_eq!(DecodeError::MessageId(0, 0).message(), "unknown message id 0 (len: 0)");
}

#[test]
fn a_session_has_a_peer_id_of_its_own() {
    let mut ids = Vec::new();
    for seed in 0..8u64 {
        let session = Tsunami::new(seed);
        let id = session.peer_id.as_str();
        assert_eq!(id.len(), 20);
        assert!(id.starts_with("-TS0001-"));
        assert!(id[8..].chars().all(|c| c.is_ascii_alphanumeric()));
        assert!(session.torrents.is_empty());
        ids.push(id.to_string());
    }
    assert_eq!(*Tsunami::new(3).peer_id, ids[3]);
    ids.sort();
    ids.dedup();
    assert!(ids.len() > 1);
}

#[test]
fn a_session_takes_up_torrents() {
    let mut doc = Vec::new();
    doc.extend_from_slice(
        b"d8:announce8:http://t4:infod6:lengthi10e4:name1:f12:piece lengthi1e6:pieces20:",
    );
    doc.extend_from_slice(&[7u8; 20]);
    doc.extend_from_slice(b"ee");
    let mut session = Tsunami::new(1);
    let id = session.peer_id.clone();
    {
        let t = session.add_torrent(&doc, 0, 77).unwrap();
        assert_eq!(t.peer_id, id);
        assert_eq!(t.next_announce, 77);
        assert_eq!(t.bytes_left, 10);
        t.downloaded = 4;
    }
    assert_eq!(session.torrents.len(), 1);
    assert_eq!(session.torrents[0].downloaded, 4);
    assert!(session.add_torrent(b"de", 0, 77).is_none());
    assert_eq!(session.torrents.len(), 1);
    assert!(session.add_torrent(&doc, 0, 78).is_some());
    assert_eq!(session.torrents.len(), 2);
    assert_eq!(session.torrents[1].next_announce, 78);
}
