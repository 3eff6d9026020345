use std::sync::Arc;

use tsunami::error::Error;
use tsunami::torrent::{sum_lengths, split_pieces, Attr, File, Info, Step, Torrent};
use tsunami::torrent_ast::{InfoAST, TorrentAST};
use tsunami::tracker::PeerAddr;

const PIECE: [u8; 20] = [
    0, 72, 105, 249, 236, 50, 141, 28, 177, 230, 77, 80, 106, 67, 249, 35, 207, 173, 235, 151,
];

const TRACKERS: &str = "d8:announce26:http://tracker.example.com13:announce-listll26:http://tracker.example.comel27:http://tracker2.example.comee4:info";

fn descriptor(head: &str, info_head: &str, pieces: &[u8], info_tail: &str) -> Vec<u8> {
    let mut doc = Vec::new();
    doc.extend_from_slice(head.as_bytes());
    doc.extend_from_slice(info_head.as_bytes());
    doc.extend_from_slice(format!("6:pieces{}:", pieces.len()).as_bytes());
    doc.extend_from_slice(pieces);
    doc.extend_from_slice(info_tail.as_bytes());
    doc.push(b'e');
    doc
}

fn mock_dir() -> Vec<u8> {
    descriptor(
        TRACKERS,
        "d5:filesld6:lengthi10e4:pathl8:file.txteee4:name4:mock12:piece lengthi32768e",
        &PIECE,
        "7:privatei1ee",
    )
}

fn mock_file() -> Vec<u8> {
    descriptor(
        TRACKERS,
        "d6:lengthi10e4:name8:file.txt12:piece lengthi32768e",
        &PIECE,
        "7:privatei1ee",
    )
}

fn single(info_head: &str, pieces: &[u8]) -> Vec<u8> {
    descriptor("d8:announce8:http://t4:info", info_head, pieces, "e")
}

fn peer_id() -> Arc<String> {
    Arc::new("-TS0001-|testClient|".into())
}

fn path(segments: &[&str]) -> Vec<String> {
    segments.iter().map(|s| s.to_string()).collect()
}

#[test]
fn new() {
    let tor_gen = |prefix: &str| Info {
        piece_length: 32768,
        pieces: vec![[
            0, 72, 105, 249, 236, 50, 141, 28, 177, 230, 77, 80, 106, 67, 249, 35, 207, 173, 235,
            151,
        ]],
        private: true,
        files: vec![File {
            file: if prefix == "" { path(&["file.txt"]) } else { path(&[prefix, "file.txt"]) },
            length: 10,
            attr: None,
        }],
        info_hash: if prefix == "" {
            [
                11, 5, 171, 161, 242, 160, 178, 230, 220, 146, 241, 219, 17, 67, 62, 95, 58, 130,
                11, 173,
            ]
        } else {
            [
                116, 83, 104, 101, 231, 122, 204, 114, 242, 152, 196, 136, 195, 44, 49, 171, 155,
                150, 152, 177,
            ]
        },
    };
    let trackers: Vec<Vec<String>> = vec![
        vec!["http://tracker.example.com".into()],
        vec!["http://tracker2.example.com".into()],
    ];

    let test_files = [(mock_dir(), "mock"), (mock_file(), "")];

    for (file, dir_name) in test_files.iter() {
        let torrent = Torrent::new(file, peer_id(), 7, 1_700_000_000).unwrap();
        let expected = tor_gen(dir_name);

        assert_eq!(torrent.trackers, trackers);
        assert_eq!(torrent.info, expected);
        assert_eq!(torrent.info.info_hash, expected.info_hash);
    }
}

#[test]
fn a_new_torrent_has_everything_left_to_get() {
    let t = Torrent::new(&mock_file(), peer_id(), 0, 42).unwrap();
    assert_eq!(t.bytes_left, 10);
    assert_eq!(t.uploaded, 0);
    assert_eq!(t.downloaded, 0);
    assert_eq!(t.next_announce, 42);
    assert_eq!(t.peers, Vec::<PeerAddr>::new());
    assert_eq!(t.asking, None);
    assert_eq!(*t.peer_id, "-TS0001-|testClient|");
}

#[test]
fn a_peer_id_has_twenty_bytes() {
    assert_eq!(Torrent::validate("-TS0001-|testClient|"), Some(()));
    assert_eq!(Torrent::validate("-TS0001-|testClient"), None);
    assert_eq!(Torrent::validate("-TS0001-|testClient||"), None);
    assert_eq!(Torrent::validate(""), None);
    assert_eq!(Torrent::validate("-TS0001-あいうえ"), Some(()));
    assert!(Torrent::new(&mock_file(), Arc::new("short".into()), 0, 0).is_none());
}

#[test]
fn piece_hashes_are_whole() {
    for extra in [1usize, 19, 21, 39] {
        let doc = single("d6:lengthi10e4:name1:f12:piece lengthi1e", &vec![7u8; extra]);
        assert!(TorrentAST::decode(&doc).is_none());
        assert!(Torrent::new(&doc, peer_id(), 0, 0).is_none());
    }
    for count in [0usize, 1, 2, 5] {
        let doc = single("d6:lengthi10e4:name1:f12:piece lengthi1e", &vec![7u8; 20 * count]);
        let t = Torrent::new(&doc, peer_id(), 0, 0).unwrap();
        assert_eq!(t.info.pieces.len(), count);
        assert_eq!(TorrentAST::decode(&doc).unwrap().info.pieces.len() % 20, 0);
    }
}

#[test]
fn pieces_are_cut_every_twenty_bytes() {
    let bytes: Vec<u8> = (0u8..60).collect();
    let hashes = split_pieces(&bytes);
    assert_eq!(hashes.len(), 3);
    for (i, h) in hashes.iter().enumerate() {
        assert_eq!(&h[..], &bytes[20 * i..20 * i + 20]);
    }
    assert_eq!(split_pieces(&bytes[..59]).len(), 2);
    assert_eq!(split_pieces(&[]).len(), 0);
}

#[test]
fn one_file_or_a_list_of_files() {
    let both = single(
        "d5:filesld6:lengthi10e4:pathl1:aeee6:lengthi10e4:name1:f12:piece lengthi1e",
        &PIECE,
    );
    assert!(TorrentAST::decode(&both).is_none());
    assert!(Torrent::new(&both, peer_id(), 0, 0).is_none());
    let neither = single("d4:name1:f12:piece lengthi1e", &PIECE);
    assert!(TorrentAST::decode(&neither).is_none());
    assert!(Torrent::new(&neither, peer_id(), 0, 0).is_none());
}

#[test]
fn what_a_descriptor_must_hold() {
    let ok = single("d6:lengthi10e4:name1:f12:piece lengthi1e", &PIECE);
    assert!(TorrentAST::decode(&ok).is_some());
    let no_name = single("d6:lengthi10e12:piece lengthi1e", &PIECE);
    assert!(TorrentAST::decode(&no_name).is_none());
    let no_piece_length = single("d6:lengthi10e4:name1:f", &PIECE);
    assert!(TorrentAST::decode(&no_piece_length).is_none());
    let no_pieces = b"d8:announce8:http://t4:infod6:lengthi10e4:name1:f12:piece lengthi1eee";
    assert!(TorrentAST::decode(no_pieces).is_none());
    let no_announce = descriptor("d4:info", "d6:lengthi10e4:name1:f12:piece lengthi1e", &PIECE, "e");
    assert!(TorrentAST::decode(&no_announce).is_none());
    let no_info = b"d8:announce8:http://te";
    assert!(TorrentAST::decode(no_info).is_none());
    assert!(TorrentAST::decode(b"i1e").is_none());
    assert!(TorrentAST::decode(b"").is_none());
    let trailing = [&ok[..], b"x"].concat();
    assert!(TorrentAST::decode(&trailing).is_none());
}

#[test]
fn the_descriptor_as_it_stands() {
    let doc = mock_dir();
    let ast = TorrentAST::decode(&doc).unwrap();
    assert_eq!(ast.announce, "http://tracker.example.com");
    assert_eq!(
        ast.announceList,
        Some(vec![vec!["http://tracker.example.com"], vec!["http://tracker2.example.com"]])
    );
    assert_eq!(ast.info.pieceLength, 32768);
    assert_eq!(ast.info.pieces, &PIECE);
    assert_eq!(ast.info.private, Some(1));
    assert_eq!(ast.info.name, "mock");
    assert_eq!(ast.info.length, None);
    let files = ast.info.files.unwrap();
    assert_eq!(files.len(), 1);
    assert_eq!(files[0].path, vec!["file.txt"]);
    assert_eq!(files[0].length, 10);
    assert_eq!(files[0].attr, None);
}

#[test]
fn fields_that_may_be_missing() {
    let bad_list = descriptor(
        "d8:announce8:http://t13:announce-listl3:abce4:info",
        "d6:lengthi10e4:name1:f12:piece lengthi1e",
        &PIECE,
        "e",
    );
    let ast = TorrentAST::decode(&bad_list).unwrap();
    assert_eq!(ast.announceList, None);
    assert_eq!(ast.info.private, None);
    let t = Torrent::new(&bad_list, peer_id(), 0, 0).unwrap();
    assert_eq!(t.trackers, vec![vec!["http://t".to_string()]]);
    assert!(!t.info.private);
    let attr = single(
        "d5:filesld4:attr1:x6:lengthi3e4:pathl1:aeee4:name1:d12:piece lengthi1e",
        &PIECE,
    );
    let ast = TorrentAST::decode(&attr).unwrap();
    assert_eq!(ast.info.files.unwrap()[0].attr, Some("x"));
}

#[test]
fn private_is_one_and_nothing_else() {
    for (flag, private) in [("7:privatei1e", true), ("7:privatei0e", false), ("7:privatei2e", false), ("", false)] {
        let doc = descriptor(
            "d8:announce8:http://t4:info",
            "d6:lengthi10e4:name1:f12:piece lengthi1e",
            &PIECE,
            &format!("{flag}e"),
        );
        assert_eq!(Torrent::new(&doc, peer_id(), 0, 0).unwrap().info.private, private);
    }
}

#[test]
fn an_announce_list_without_trackers_falls_back_on_announce() {
    for list in ["le", "llee", "llelee"] {
        let head = format!("d8:announce8:http://t13:announce-list{list}4:info");
        let doc = descriptor(&head, "d6:lengthi10e4:name1:f12:piece lengthi1e", &PIECE, "e");
        let t = Torrent::new(&doc, peer_id(), 0, 0).unwrap();
        assert_eq!(t.trackers, vec![vec!["http://t".to_string()]]);
    }
    let head = "d8:announce8:http://t13:announce-listllel1:aee4:info";
    let doc = descriptor(head, "d6:lengthi10e4:name1:f12:piece lengthi1e", &PIECE, "e");
    let t = Torrent::new(&doc, peer_id(), 0, 0).unwrap();
    assert_eq!(t.trackers, vec![vec![], vec!["a".to_string()]]);
}

#[test]
fn trackers_are_shuffled_within_their_group() {
    let names: Vec<String> = (0..20).map(|i| format!("http://t{i:02}")).collect();
    let mut list = String::from("l");
    for n in &names {
        list.push_str(&format!("{}:{}", n.len(), n));
    }
    list.push_str("el8:http://be");
    let head = format!("d8:announce8:http://t13:announce-listl{list}e4:info");
    let doc = descriptor(&head, "d6:lengthi10e4:name1:f12:piece lengthi1e", &PIECE, "e");
    let mut orders = Vec::new();
    for seed in 0..4u64 {
        let t = Torrent::new(&doc, peer_id(), seed, 0).unwrap();
        assert_eq!(t.trackers.len(), 2);
        assert_eq!(t.trackers[1], vec!["http://b".to_string()]);
        let mut sorted = t.trackers[0].clone();
        sorted.sort();
        assert_eq!(sorted, names);
        orders.push(t.trackers[0].clone());
    }
    assert!(orders.iter().any(|o| *o != names));
    let again = Torrent::new(&doc, peer_id(), 0, 0).unwrap();
    assert_eq!(again.trackers[0], orders[0]);
}

#[test]
fn piece_length_is_positive_and_fits_a_u32() {
    for (length, ok) in [("0", false), ("-1", false), ("1", true), ("4294967295", true), ("4294967296", false)] {
        let head = format!("d6:lengthi10e4:name1:f12:piece lengthi{length}e");
        let doc = single(&head, &PIECE);
        assert_eq!(Torrent::new(&doc, peer_id(), 0, 0).is_some(), ok);
    }
    let doc = single("d6:lengthi10e4:name1:f12:piece lengthi4294967295e", &PIECE);
    assert_eq!(Torrent::new(&doc, peer_id(), 0, 0).unwrap().info.piece_length, u32::MAX);
}

#[test]
fn a_file_has_a_length_and_a_place() {
    let no_dir: Vec<String> = vec![];
    let dir = path(&["mock"]);
    assert_eq!(
        File::new(10, &dir, &vec!["a", "b.txt"]),
        Some(File { file: path(&["mock", "a", "b.txt"]), length: 10, attr: None })
    );
    assert_eq!(
        File::new(1, &no_dir, &vec!["b.txt"]),
        Some(File { file: path(&["b.txt"]), length: 1, attr: None })
    );
    assert_eq!(
        File::new(i64::MAX, &dir, &vec!["..", "a", ".", "", "b", ".."]),
        Some(File { file: path(&["mock", "a", "b"]), length: i64::MAX as u64, attr: None })
    );
    assert_eq!(File::new(0, &dir, &vec!["a"]), None);
    assert_eq!(File::new(-1, &dir, &vec!["a"]), None);
    assert_eq!(File::new(i64::MIN, &dir, &vec!["a"]), None);
    assert_eq!(File::new(10, &dir, &vec![]), None);
    assert_eq!(File::new(10, &dir, &vec![".."]), None);
    assert_eq!(File::new(10, &dir, &vec!["", ".", ".."]), None);
    assert_eq!(File::new(10, &no_dir, &vec!["..."]).unwrap().file, path(&["..."]));
}

fn info<'a>(name: &'a str, length: Option<i64>, files: Option<Vec<(i64, Vec<&'a str>)>>) -> InfoAST<'a> {
    InfoAST {
        pieceLength: 1,
        pieces: &[],
        private: None,
        name,
        length,
        files: files.map(|fs| {
            fs.into_iter()
                .map(|(length, path)| tsunami::torrent_ast::FileAST { path, length, attr: None })
                .collect()
        }),
    }
}

#[test]
fn files_of_a_descriptor() {
    assert_eq!(
        Torrent::build_files(&info("f.txt", Some(3), None)),
        Some(vec![File { file: path(&["f.txt"]), length: 3, attr: None }])
    );
    assert_eq!(Torrent::build_files(&info("..", Some(3), None)), None);
    assert_eq!(Torrent::build_files(&info("f.txt", Some(0), None)), None);
    assert_eq!(Torrent::build_files(&info("f.txt", None, None)), None);
    assert_eq!(
        Torrent::build_files(&info("d", None, Some(vec![(1, vec!["a"]), (2, vec!["b", "c"])]))),
        Some(vec![
            File { file: path(&["d", "a"]), length: 1, attr: None },
            File { file: path(&["d", "b", "c"]), length: 2, attr: None },
        ])
    );
    assert_eq!(Torrent::build_files(&info("d", None, Some(vec![]))), Some(vec![]));
    assert_eq!(Torrent::build_files(&info("..", None, Some(vec![(1, vec!["a"])]))), None);
    assert_eq!(Torrent::build_files(&info("", None, Some(vec![(1, vec!["a"])]))), None);
    assert_eq!(
        Torrent::build_files(&info("d", None, Some(vec![(1, vec!["a"]), (0, vec!["b"])]))),
        None
    );
    assert_eq!(
        Torrent::build_files(&info("d", None, Some(vec![(1, vec!["a"]), (1, vec![".."])]))),
        None
    );
}

#[test]
fn lengths_add_up_or_do_not_fit() {
    let file = |length: u64| File { file: path(&["f"]), length, attr: Some(Attr::Hidden) };
    assert_eq!(sum_lengths(&vec![]), Some(0));
    assert_eq!(sum_lengths(&vec![file(1), file(2), file(39)]), Some(42));
    assert_eq!(sum_lengths(&vec![file(u64::MAX - 1), file(1)]), Some(u64::MAX));
    assert_eq!(sum_lengths(&vec![file(u64::MAX), file(1)]), None);
    assert_eq!(sum_lengths(&vec![file(u64::MAX), file(1), file(5)]), None);
    let doc = single(
        "d5:filesld6:lengthi9223372036854775807e4:pathl1:aeed6:lengthi9223372036854775807e4:pathl1:beed6:lengthi2e4:pathl1:ceee4:name1:d12:piece lengthi1e",
        &PIECE,
    );
    assert!(TorrentAST::decode(&doc).is_some());
    assert!(Torrent::new(&doc, peer_id(), 0, 0).is_none());
}

#[test]
fn the_announce_url() {
    let mut t = Torrent::new(&mock_file(), peer_id(), 0, 0).unwrap();
    t.downloaded = 1234;
    t.uploaded = 0;
    t.bytes_left = u64::MAX;
    let mut url = String::from("old");
    t.build_tracker_url("http://tracker.example.com/announce", &mut url);
    assert_eq!(
        url,
        "http://tracker.example.com/announce?info_hash=%0B%05%AB%A1%F2%A0%B2%E6%DC%92%F1%DB%11%43%3E%5F%3A%82%0B%AD&peer_id=-TS0001-|testClient|&port=6881&downloaded=1234&uploaded=0&compact=1&left=18446744073709551615"
    );
}

#[test]
fn a_first_announce_asks_the_first_tracker() {
    let mut t = Torrent::new(&mock_file(), peer_id(), 0, 100).unwrap();
    let mut url = String::new();
    t.build_tracker_url("http://tracker.example.com", &mut url);
    assert_eq!(t.refresh_peers(100).unwrap(), Step::Ask { url });
    assert_eq!(t.asking, Some((0, 0)));
}

#[test]
fn no_tracker_no_announce() {
    let mut t = Torrent::new(&mock_file(), peer_id(), 0, 100).unwrap();
    t.trackers = vec![vec![], vec![]];
    assert!(matches!(t.refresh_peers(100), Err(Error::NoTrackerAvailable)));
    assert_eq!(t.asking, None);
    t.trackers = vec![];
    assert!(matches!(t.refresh_peers(100), Err(Error::NoTrackerAvailable)));
}
