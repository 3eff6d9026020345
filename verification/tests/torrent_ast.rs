use tsunami::torrent_ast::Bencode as B;
use tsunami::torrent_ast::Bencode;

const MOCK: &str = "d8:announce40:http://tracker.example.com:8080/announce7:comment17:\"Hello mock data\"13:creation datei1234567890e9:httpseedsl31:http://direct.example.com/mock131:http://direct.example.com/mock2e4:infod6:lengthi562949953421312e4:name15:あいえおう12:piece lengthi536870912eee";

const MOCK_WITH_DECOY: &str = "d8:announce40:http://tracker.example.com:8080/announce7:comment17:\"Hello mock data\"13:creation datei1234567890e4:demod8:announce40:http://tracker.example.com:8080/announce7:comment17:\"Hello mock data\"13:creation datei1234567890e9:httpseedsl31:http://direct.example.com/mock131:http://direct.example.com/mock2e4:infod6:lengthi562949953421312e4:name15:あいえおう12:piece lengthi536870912eee9:httpseedsl31:http://direct.example.com/mock131:http://direct.example.com/mock2e4:infod6:lengthi562949953421312e4:name15:あいえおう12:piece lengthi536870912eee";

const PIECE: [u8; 20] = [
    0, 72, 105, 249, 236, 50, 141, 28, 177, 230, 77, 80, 106, 67, 249, 35, 207, 173, 235, 151,
];

fn mock_torrent(info_head: &str) -> Vec<u8> {
    let mut doc = Vec::new();
    doc.extend_from_slice(
        b"d8:announce26:http://tracker.example.com13:announce-listll26:http://tracker.example.comel27:http://tracker2.example.comee4:info",
    );
    doc.extend_from_slice(info_head.as_bytes());
    doc.extend_from_slice(b"12:piece lengthi32768e6:pieces20:");
    doc.extend_from_slice(&PIECE);
    doc.extend_from_slice(b"7:privatei1eee");
    doc
}

fn mock_dir() -> Vec<u8> {
    mock_torrent("d5:filesld6:lengthi10e4:pathl8:file.txteee4:name4:mock")
}

fn mock_file() -> Vec<u8> {
    mock_torrent("d6:lengthi10e4:name8:file.txt")
}

#[test]
fn torrent_ast_parse_int() {
    let cases = vec![
        ("i42e", 42),
        ("i9e", 9),
        ("i0e", 0),
        ("i-5e", -5),
        ("i562949953421312e", 562949953421312),
        ("i-562949953421312e", -562949953421312),
        ("i9223372036854775807e", i64::MAX),
        ("i-9223372036854775808e", i64::MIN),
    ];

    for (input, expected) in cases {
        let actual = B::decode(input.as_bytes()).unwrap().num().unwrap();
        assert_eq!(actual, expected)
    }
}

#[test]
fn torrent_ast_parse_int_fail() {
    let cases = vec![
        "e",
        "i-0e",
        "i00e",
        "i05e",
        "i18446744073709551615e",
        "i-0e",
        "i03e",
    ];

    for input in cases {
        assert!(B::decode(input.as_bytes()).is_none());
    }
}

#[test]
fn torrent_ast_parse_str() {
    let cases = vec![
        ("5:hello", "hello"),
        ("0:", ""),
        ("7:yahallo", "yahallo"),
        ("15:こんにちわ", "こんにちわ"),
        ("7:\"hello\"", "\"hello\""),
        ("11:hellohello1", "hellohello1"),
        ("02:hi", "hi"),
    ];

    for (input, expected) in cases {
        let actual = B::decode(input.as_bytes()).unwrap().str().unwrap();
        assert_eq!(actual, expected)
    }
}

#[test]
fn torrent_ast_parse_str_fail() {
    let cases = vec![
        "6:hello",
        "a5:hallo",
        "a",
        "18446744073709551616:overflow",
    ];

    for input in cases {
        assert!(B::decode(input.as_bytes()).is_none());
    }
}

#[test]
fn torrent_ast_parse_list() {
    let cases = vec![
        ("le", vec![]),
        ("li4ei2e2:42e", vec![B::Num(4), B::Num(2), B::Str(b"42")]),
        (
            "l5:helloi42eli2ei3e2:hid4:listli1ei2ei3ee7:yahallo2::)eed2:hi5:hello3:inti15eee",
            vec![
                B::Str(b"hello"),
                B::Num(42),
                B::List(vec![
                    B::Num(2),
                    B::Num(3),
                    B::Str(b"hi"),
                    B::Dict(vec![
                        (&b"list"[..], B::List(vec![B::Num(1), B::Num(2), B::Num(3)])),
                        (&b"yahallo"[..], B::Str(b":)")),
                    ]),
                ]),
                B::Dict(vec![(&b"hi"[..], B::Str(b"hello")), (&b"int"[..], B::Num(15))]),
            ],
        ),
    ];

    for (input, expected) in cases {
        let actual = B::decode(input.as_bytes()).unwrap().list().unwrap();
        assert_eq!(actual, expected)
    }
}

#[test]
fn torrent_ast_parse_dict() {
    let cases = vec![
        ("de", vec![]),
        (
            "d3:onei1e3:twoi2ee",
            vec![(&b"one"[..], B::Num(1)), (&b"two"[..], B::Num(2))],
        ),
        (
            MOCK,
            vec![
                (&b"announce"[..], B::Str(b"http://tracker.example.com:8080/announce")),
                (&b"comment"[..], B::Str(b"\"Hello mock data\"")),
                (&b"creation date"[..], B::Num(1234567890)),
                (
                    &b"httpseeds"[..],
                    B::List(vec![
                        B::Str(b"http://direct.example.com/mock1"),
                        B::Str(b"http://direct.example.com/mock2"),
                    ]),
                ),
                (
                    &b"info"[..],
                    B::Dict(vec![
                        (&b"length"[..], B::Num(562949953421312)),
                        (
                            &b"name"[..],
                            B::Str(b"\xE3\x81\x82\xE3\x81\x84\xE3\x81\x88\xE3\x81\x8A\xE3\x81\x86"),
                        ),
                        (&b"piece length"[..], B::Num(536870912)),
                    ]),
                ),
            ],
        ),
    ];

    for (input, expected) in cases {
        let actual = B::decode(input.as_bytes()).unwrap().dict().unwrap();
        assert_eq!(actual, expected)
    }
}

#[test]
fn torrent_ast_parse_dict_fail() {
    let cases = vec!["d2:hi5:hello1:ai32ee"];

    for input in cases {
        assert!(B::decode(input.as_bytes()).is_none());
    }
}

#[test]
fn torrent_ast_info_hash() {
    let dir = mock_dir();
    let file = mock_file();
    let cases = vec![
        (
            MOCK_WITH_DECOY.as_bytes(),
            [
                0x83, 0x55, 0x11, 0x80, 0x8c, 0xd6, 0x54, 0x2c, 0x1b, 0xc5, 0x19, 0x8d, 0x2a, 0x48,
                0x9d, 0xce, 0xd5, 0x2b, 0x53, 0x3a,
            ],
        ),
        (
            &dir[..],
            [
                0x74, 0x53, 0x68, 0x65, 0xe7, 0x7a, 0xcc, 0x72, 0xf2, 0x98, 0xc4, 0x88, 0xc3, 0x2c,
                0x31, 0xab, 0x9b, 0x96, 0x98, 0xb1,
            ],
        ),
        (
            &file[..],
            [
                0x0b, 0x05, 0xab, 0xa1, 0xf2, 0xa0, 0xb2, 0xe6, 0xdc, 0x92, 0xf1, 0xdb, 0x11, 0x43,
                0x3e, 0x5f, 0x3a, 0x82, 0x0b, 0xad,
            ],
        ),
    ];

    for (torrent, expected) in cases {
        let info_hash = B::hash_dict(torrent, "info").unwrap();
        assert_eq!(info_hash, expected);
    }
}

fn hybrid_torrent(with_v1: bool) -> Vec<u8> {
    let root = [7u8; 32];
    let mut doc = Vec::new();
    doc.extend_from_slice(b"d8:announce26:http://tracker.example.com10:created by5:bttut4:infod9:file treed8:file.txtd0:d6:lengthi40000e11:pieces root32:");
    doc.extend_from_slice(&root);
    doc.extend_from_slice(b"eee");
    if with_v1 {
        doc.extend_from_slice(b"6:lengthi40000e");
    }
    doc.extend_from_slice(b"12:meta versioni2e4:name8:file.txt12:piece lengthi16384e");
    if with_v1 {
        doc.extend_from_slice(b"6:pieces60:");
        doc.extend_from_slice(&[9u8; 60]);
    }
    doc.extend_from_slice(b"e12:piece layersd32:");
    doc.extend_from_slice(&root);
    doc.extend_from_slice(b"96:");
    doc.extend_from_slice(&[3u8; 96]);
    doc.extend_from_slice(b"ee");
    doc
}

#[test]
fn decode_bt_test() {
    let test_files = [hybrid_torrent(false), hybrid_torrent(true)];

    for file in test_files.iter() {
        let torrent = B::decode(file).unwrap();
        print_benc(torrent, 2);
    }
}

fn show(bytes: &[u8]) -> String {
    if let Ok(s) = std::str::from_utf8(bytes) {
        format!("{s:?}")
    } else {
        let trunc = bytes.split_at(std::cmp::min(20, bytes.len())).0;
        format!("{trunc:?}")
    }
}

fn print_benc(v: Bencode, spaces: usize) {
    let pad = " ".repeat(spaces);
    let close = " ".repeat(spaces - 2);
    match v {
        Bencode::Num(n) => println!("{pad}Num({n}),"),
        Bencode::Str(b) => println!("{pad}{}", show(b)),
        Bencode::List(l) => {
            println!("{pad}List([");
            for node in l {
                print_benc(node, spaces + 2);
            }
            println!("{close}])");
        }
        Bencode::Dict(d) => {
            println!("{pad}{{");
            for (k, v) in d {
                println!("{pad}{}: ", show(k));
                print_benc(v, spaces + 2);
            }
            println!("{close}}}");
        }
    }
}
