use std::sync::Arc;

use tsunami::error::Error;
use tsunami::torrent::{Step, Torrent};
use tsunami::tracker::{
    merge_peers, next_announce_time, parse_ipv4, parse_number, parse_port, PeerAddr, MIN_INTERVAL,
    PORT,
};

const PIECE: [u8; 20] = [7; 20];

fn torrent(groups: &[&[&str]]) -> Torrent {
    let mut doc = Vec::new();
    doc.extend_from_slice(
        b"d8:announce8:http://t4:infod6:lengthi10e4:name1:f12:piece lengthi1e6:pieces20:",
    );
    doc.extend_from_slice(&PIECE);
    doc.extend_from_slice(b"ee");
    let mut t = Torrent::new(&doc, Arc::new("-TS0001-|testClient|".into()), 0, 1000).unwrap();
    t.trackers = groups.iter().map(|g| g.iter().map(|s| s.to_string()).collect()).collect();
    t
}

fn names(groups: &[&[&str]]) -> Vec<Vec<String>> {
    groups.iter().map(|g| g.iter().map(|s| s.to_string()).collect()).collect()
}

fn addr(a: u8, b: u8, c: u8, d: u8, port: u16) -> PeerAddr {
    PeerAddr { ip: [a, b, c, d], port }
}

fn asked(t: &Torrent, step: &Step) -> String {
    let Step::Ask { url } = step else { panic!("nothing asked: {step:?}") };
    let (g, i) = t.asking.unwrap();
    let mut expected = String::new();
    t.build_tracker_url(&t.trackers[g][i], &mut expected);
    assert_eq!(*url, expected);
    t.trackers[g][i].clone()
}

const GOOD: &[u8] = b"d8:intervali1800e5:peers12:\x0a\x00\x00\x01\x1a\xe1\xc0\xa8\x01\x02\x00\x50e";

#[test]
fn a_compact_response() {
    let (interval, peers) = Torrent::parse_tracker_resp(GOOD).unwrap();
    assert_eq!(interval, 1800);
    assert_eq!(peers, vec![addr(10, 0, 0, 1, 6881), addr(192, 168, 1, 2, 80)]);
    let (interval, peers) = Torrent::parse_tracker_resp(b"d8:intervali0e5:peers0:e").unwrap();
    assert_eq!(interval, 0);
    assert_eq!(peers, vec![]);
}

#[test]
fn a_verbose_response() {
    let body = b"d8:intervali900e5:peersld2:ip8:10.0.0.14:port4:6881ed2:ip11:192.168.1.27:peer id20:aaaaaaaaaaaaaaaaaaaa4:port2:80eee";
    let (interval, peers) = Torrent::parse_tracker_resp(body).unwrap();
    assert_eq!(interval, 900);
    assert_eq!(peers, vec![addr(10, 0, 0, 1, 6881), addr(192, 168, 1, 2, 80)]);
    let (_, peers) = Torrent::parse_tracker_resp(b"d8:intervali900e5:peerslee").unwrap();
    assert_eq!(peers, vec![]);
}

#[test]
fn a_failure_reason_ends_the_response() {
    let body = b"d14:failure reason9:not found8:intervali1800e5:peers0:e";
    match Torrent::parse_tracker_resp(body) {
        Err(Error::InvalidTrackerResp(Some(reason))) => assert_eq!(reason, "not found"),
        other => panic!("no reason: {other:?}"),
    }
    let binary = b"d14:failure reason2:\xff\xfee";
    assert!(matches!(Torrent::parse_tracker_resp(binary), Err(Error::InvalidTrackerResp(None))));
    let number = b"d14:failure reasoni5ee";
    assert!(matches!(Torrent::parse_tracker_resp(number), Err(Error::InvalidTrackerResp(None))));
}

#[test]
fn responses_that_are_none() {
    let cases: Vec<&[u8]> = vec![
        b"",
        b"i1e",
        b"le",
        b"de",
        b"d8:intervali1800ee",
        b"d5:peers0:e",
        b"d8:intervali-1e5:peers0:e",
        b"d8:interval4:18005:peers0:e",
        b"d8:intervali1800e5:peers5:\x0a\x00\x00\x01\x1ae",
        b"d8:intervali1800e5:peers7:\x0a\x00\x00\x01\x1a\xe1\x00e",
        b"d8:intervali1800e5:peersi1ee",
        b"d8:intervali1800e5:peersdee",
        b"d8:intervali1800e5:peersli1eee",
        b"d8:intervali1800e5:peersld2:ip8:10.0.0.1eee",
        b"d8:intervali1800e5:peersld4:port4:6881eee",
        b"d8:intervali1800e5:peersld2:ip8:10.0.0.14:porti6881eeee",
        b"d8:intervali1800e5:peersld2:ip9:10.0.0.2564:port4:6881eee",
        b"d8:intervali1800e5:peersld2:ip8:10.0.0.14:port5:65536eee",
        b"d8:intervali1800e5:peers0:ex",
        b"d5:peers0:8:intervali1800ee",
    ];
    for body in cases {
        assert!(
            matches!(Torrent::parse_tracker_resp(body), Err(Error::InvalidTrackerResp(None))),
            "{:?}",
            String::from_utf8_lossy(body)
        );
    }
}

#[test]
fn dotted_addresses() {
    assert_eq!(parse_ipv4(b"10.0.0.1"), Some([10, 0, 0, 1]));
    assert_eq!(parse_ipv4(b"0.0.0.0"), Some([0, 0, 0, 0]));
    assert_eq!(parse_ipv4(b"255.255.255.255"), Some([255, 255, 255, 255]));
    assert_eq!(parse_ipv4(b"192.168.1.20"), Some([192, 168, 1, 20]));
    for bad in [
        "", "1", "1.2.3", "1.2.3.", "1.2.3.4.", "1.2.3.4.5", ".1.2.3", "1..2.3", "256.0.0.1",
        "1.2.3.256", "01.2.3.4", "1.2.3.04", "1.2.3.00", "1.2.3.4 ", " 1.2.3.4", "1.2.3.a",
        "1,2,3,4", "1.2.3.1000", "+1.2.3.4", "1.2.3.-4", "::1",
    ] {
        assert_eq!(parse_ipv4(bad.as_bytes()), None, "{bad:?}");
    }
}

#[test]
fn ports() {
    assert_eq!(parse_port(b"6881"), Some(6881));
    assert_eq!(parse_port(b"0"), Some(0));
    assert_eq!(parse_port(b"65535"), Some(65535));
    assert_eq!(parse_port(b"+80"), Some(80));
    assert_eq!(parse_port(b"0080"), Some(80));
    assert_eq!(parse_port(b"00000000000000000000000080"), Some(80));
    for bad in ["", "+", "-1", "65536", "99999999999999999999999", "80 ", " 80", "8o", "++80", "0x50"] {
        assert_eq!(parse_port(bad.as_bytes()), None, "{bad:?}");
    }
    assert_eq!(parse_number(b"300", 300), Some(300));
    assert_eq!(parse_number(b"301", 300), None);
    assert_eq!(parse_number(b"18446744073709551615", u64::MAX), Some(u64::MAX));
    assert_eq!(parse_number(b"18446744073709551616", u64::MAX), None);
    assert_eq!(PORT, 6881);
}

#[test]
fn the_tracker_that_answers_moves_to_the_front_of_its_group() {
    let mut t = torrent(&[&["a1", "a2"], &["b1", "b2", "b3"], &["c1"]]);
    let mut step = t.refresh_peers(1000).unwrap();
    for expected in ["a1", "a2", "b1", "b2"] {
        assert_eq!(asked(&t, &step), expected);
        let turn = t.tracker_answered(None, 1000);
        assert!(turn.refused.is_none());
        step = turn.next.unwrap();
    }
    assert_eq!(asked(&t, &step), "b3");
    assert_eq!(t.trackers, names(&[&["a1", "a2"], &["b1", "b2", "b3"], &["c1"]]));
    let turn = t.tracker_answered(Some(GOOD), 1000);
    assert!(turn.refused.is_none());
    assert_eq!(turn.next.unwrap(), Step::Done);
    assert_eq!(t.trackers, names(&[&["a1", "a2"], &["b3", "b1", "b2"], &["c1"]]));
    assert_eq!(t.peers, vec![addr(10, 0, 0, 1, 6881), addr(192, 168, 1, 2, 80)]);
    assert_eq!(t.next_announce, 2800);
    assert_eq!(t.asking, None);
}

#[test]
fn answering_again_keeps_the_order() {
    let mut t = torrent(&[&["a1"], &["b1", "b2", "b3", "b4"]]);
    t.peers.clear();
    t.refresh_peers(0).unwrap();
    t.tracker_answered(None, 0).next.unwrap();
    t.tracker_answered(None, 0).next.unwrap();
    t.tracker_answered(None, 0).next.unwrap();
    assert_eq!(t.asking, Some((1, 2)));
    assert_eq!(t.tracker_answered(Some(GOOD), 0).next.unwrap(), Step::Done);
    let after_one = names(&[&["a1"], &["b3", "b1", "b2", "b4"]]);
    assert_eq!(t.trackers, after_one);
    for round in 1..5 {
        let now = 10_000 * round;
        let step = t.refresh_peers(now).unwrap();
        assert_eq!(asked(&t, &step), "a1");
        let step = t.tracker_answered(None, now).next.unwrap();
        assert_eq!(asked(&t, &step), "b3");
        assert_eq!(t.tracker_answered(Some(GOOD), now).next.unwrap(), Step::Done);
        assert_eq!(t.trackers, after_one);
    }
}

#[test]
fn a_response_that_is_none_passes_the_announce_on() {
    let mut t = torrent(&[&["a1", "a2"], &["b1"]]);
    t.refresh_peers(1000).unwrap();
    let turn = t.tracker_answered(Some(b"d14:failure reason4:busye"), 1000);
    match turn.refused {
        Some(Error::InvalidTrackerResp(Some(reason))) => assert_eq!(reason, "busy"),
        other => panic!("no reason: {other:?}"),
    }
    assert_eq!(asked(&t, &turn.next.unwrap()), "a2");
    let turn = t.tracker_answered(Some(b"not bencode"), 1000);
    assert!(matches!(turn.refused, Some(Error::InvalidTrackerResp(None))));
    assert_eq!(asked(&t, &turn.next.unwrap()), "b1");
    let turn = t.tracker_answered(Some(b"d8:intervali5ee"), 1000);
    assert!(matches!(turn.refused, Some(Error::InvalidTrackerResp(None))));
    assert!(matches!(turn.next, Err(Error::NoTrackerAvailable)));
    assert_eq!(t.asking, None);
    assert_eq!(t.trackers, names(&[&["a1", "a2"], &["b1"]]));
    assert_eq!(t.peers, vec![]);
    assert_eq!(t.next_announce, 1000);
}

#[test]
fn every_tracker_failing_is_its_own_error() {
    let mut t = torrent(&[&["a1"], &[], &["c1", "c2"]]);
    let mut step = t.refresh_peers(1000).unwrap();
    assert_eq!(asked(&t, &step), "a1");
    step = t.tracker_answered(None, 1000).next.unwrap();
    assert_eq!(asked(&t, &step), "c1");
    assert_eq!(t.asking, Some((2, 0)));
    step = t.tracker_answered(None, 1000).next.unwrap();
    assert_eq!(asked(&t, &step), "c2");
    let turn = t.tracker_answered(None, 1000);
    assert!(turn.refused.is_none());
    match turn.next {
        Err(e @ Error::NoTrackerAvailable) => {
            assert_eq!(e.message(), "exhausted all available trackers")
        }
        other => panic!("not exhausted: {other:?}"),
    }
    assert_eq!(t.trackers, names(&[&["a1"], &[], &["c1", "c2"]]));
}

#[test]
fn an_answer_that_was_not_asked_for_changes_nothing() {
    let mut t = torrent(&[&["a1", "a2"]]);
    let turn = t.tracker_answered(Some(GOOD), 5);
    assert!(turn.refused.is_none());
    assert_eq!(turn.next.unwrap(), Step::Done);
    assert_eq!(t.peers, vec![]);
    assert_eq!(t.next_announce, 1000);
    t.asking = Some((0, 2));
    assert_eq!(t.tracker_answered(Some(GOOD), 5).next.unwrap(), Step::Done);
    assert_eq!(t.asking, None);
    t.asking = Some((1, 0));
    assert_eq!(t.tracker_answered(Some(GOOD), 5).next.unwrap(), Step::Done);
    assert_eq!(t.peers, vec![]);
    assert_eq!(t.trackers, names(&[&["a1", "a2"]]));
}

#[test]
fn an_announce_is_good_until_its_time_is_up() {
    let mut t = torrent(&[&["a1"]]);
    t.refresh_peers(1000).unwrap();
    t.tracker_answered(Some(GOOD), 1000).next.unwrap();
    assert_eq!(t.next_announce, 2800);
    assert_eq!(t.refresh_peers(1000).unwrap(), Step::Done);
    assert_eq!(t.refresh_peers(2799).unwrap(), Step::Done);
    assert_eq!(t.asking, None);
    assert!(matches!(t.refresh_peers(2800).unwrap(), Step::Ask { .. }));
    assert!(matches!(t.refresh_peers(9999).unwrap(), Step::Ask { .. }));
    t.peers.clear();
    assert!(matches!(t.refresh_peers(1000).unwrap(), Step::Ask { .. }));
}

#[test]
fn the_interval_has_a_floor() {
    assert_eq!(MIN_INTERVAL, 300);
    assert_eq!(next_announce_time(1000, 0), 1300);
    assert_eq!(next_announce_time(1000, 299), 1300);
    assert_eq!(next_announce_time(1000, 300), 1300);
    assert_eq!(next_announce_time(1000, 301), 1301);
    assert_eq!(next_announce_time(-1000, 1800), 800);
    assert_eq!(next_announce_time(0, i64::MAX as u64), i64::MAX);
    assert_eq!(next_announce_time(1, i64::MAX as u64), i64::MAX);
    assert_eq!(next_announce_time(-1, u64::MAX), i64::MAX - 1);
    assert_eq!(next_announce_time(i64::MAX, 0), i64::MAX);
    assert_eq!(next_announce_time(i64::MIN, 0), i64::MIN + 300);
    let mut t = torrent(&[&["a1"]]);
    t.refresh_peers(50).unwrap();
    t.tracker_answered(Some(b"d8:intervali10e5:peers0:e"), 50).next.unwrap();
    assert_eq!(t.next_announce, 350);
}

#[test]
fn peers_are_known_once() {
    let mut known = vec![addr(1, 1, 1, 1, 1), addr(2, 2, 2, 2, 2)];
    let found = vec![
        addr(3, 3, 3, 3, 3),
        addr(1, 1, 1, 1, 1),
        addr(3, 3, 3, 3, 3),
        addr(1, 1, 1, 1, 2),
        addr(1, 1, 1, 2, 1),
    ];
    merge_peers(&mut known, &found);
    assert_eq!(
        known,
        vec![
            addr(1, 1, 1, 1, 1),
            addr(2, 2, 2, 2, 2),
            addr(3, 3, 3, 3, 3),
            addr(1, 1, 1, 1, 2),
            addr(1, 1, 1, 2, 1),
        ]
    );
    let mut t = torrent(&[&["a1"]]);
    t.refresh_peers(0).unwrap();
    t.tracker_answered(Some(GOOD), 0).next.unwrap();
    t.refresh_peers(5000).unwrap();
    t.tracker_answered(Some(GOOD), 5000).next.unwrap();
    assert_eq!(t.peers, vec![addr(10, 0, 0, 1, 6881), addr(192, 168, 1, 2, 80)]);
}
