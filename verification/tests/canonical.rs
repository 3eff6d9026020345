use tsunami::canonical::{push_digits, push_int, push_str};
use tsunami::torrent_ast::Bencode as B;

const MOCK: &str = "d8:announce40:http://tracker.example.com:8080/announce7:comment17:\"Hello mock data\"13:creation datei1234567890e9:httpseedsl31:http://direct.example.com/mock131:http://direct.example.com/mock2e4:infod6:lengthi562949953421312e4:name15:あいえおう12:piece lengthi536870912eee";

#[test]
fn values_as_they_are_written() {
    assert_eq!(B::Num(0).encode(), b"i0e");
    assert_eq!(B::Num(42).encode(), b"i42e");
    assert_eq!(B::Num(-5).encode(), b"i-5e");
    assert_eq!(B::Num(i64::MAX).encode(), b"i9223372036854775807e");
    assert_eq!(B::Num(i64::MIN).encode(), b"i-9223372036854775808e");
    assert_eq!(B::Str(b"").encode(), b"0:");
    assert_eq!(B::Str(b"hello").encode(), b"5:hello");
    assert_eq!(B::Str(b"hellohello1").encode(), b"11:hellohello1");
    assert_eq!(B::Str(&[0xff, 0x00]).encode(), &[b'2', b':', 0xff, 0x00]);
    assert_eq!(B::List(vec![]).encode(), b"le");
    assert_eq!(B::Dict(vec![]).encode(), b"de");
    assert_eq!(B::List(vec![B::Num(4), B::Num(2), B::Str(b"42")]).encode(), b"li4ei2e2:42e");
    assert_eq!(
        B::Dict(vec![(&b"one"[..], B::Num(1)), (&b"two"[..], B::List(vec![B::Dict(vec![])]))])
            .encode(),
        b"d3:onei1e3:twoldeee"
    );
}

#[test]
fn writing_after_what_is_there() {
    let mut out = b"x".to_vec();
    push_digits(&mut out, 0);
    push_digits(&mut out, 907);
    push_int(&mut out, -10);
    push_str(&mut out, b"ab");
    B::List(vec![B::Num(1)]).write(&mut out);
    assert_eq!(out, b"x0907i-10e2:abli1ee");
    let mut digits = Vec::new();
    push_digits(&mut digits, u64::MAX);
    assert_eq!(digits, b"18446744073709551615");
}

#[test]
fn a_canonical_document_is_written_back_byte_for_byte() {
    let documents = [
        MOCK,
        "i0e",
        "i-1e",
        "0:",
        "le",
        "de",
        "l5:helloi42eli2ei3e2:hid4:listli1ei2ei3ee7:yahallo2::)eed2:hi5:hello3:inti15eee",
        "d0:i1e1:ad1:ad1:aleeee",
    ];
    for doc in documents {
        let value = B::decode(doc.as_bytes()).unwrap();
        assert_eq!(value.encode(), doc.as_bytes());
    }
}

#[test]
fn a_padded_length_is_read_but_not_written() {
    for (padded, plain) in [("02:hi", "2:hi"), ("00:", "0:"), ("l002:hie", "l2:hie"), ("d01:ai1ee", "d1:ai1ee")] {
        let value = B::decode(padded.as_bytes()).unwrap();
        assert_eq!(value, B::decode(plain.as_bytes()).unwrap());
        assert_eq!(value.encode(), plain.as_bytes());
    }
}

#[test]
fn what_is_written_is_read_back() {
    let values = vec![
        B::Num(i64::MIN),
        B::Num(1000),
        B::Str(b"0123456789"),
        B::List(vec![B::List(vec![B::List(vec![])]), B::Str(b"e")]),
        B::Dict(vec![
            (&b""[..], B::Num(1)),
            (&b"a"[..], B::Dict(vec![(&b"b"[..], B::Str(b"i1e"))])),
            (&b"aa"[..], B::List(vec![B::Num(-1)])),
            (&b"b"[..], B::Str(b"")),
        ]),
    ];
    for value in values {
        let written = value.encode();
        assert_eq!(B::decode(&written), Some(value.clone()));
        assert_eq!(value.clone(), value);
    }
}

#[test]
fn keys_out_of_order_are_written_but_not_read() {
    let sorted = B::Dict(vec![(&b"a"[..], B::Num(32)), (&b"hi"[..], B::Str(b"hello"))]);
    let swapped = B::Dict(vec![(&b"hi"[..], B::Str(b"hello")), (&b"a"[..], B::Num(32))]);
    assert_eq!(sorted.encode(), b"d1:ai32e2:hi5:helloe");
    assert_eq!(swapped.encode(), b"d2:hi5:hello1:ai32ee");
    assert_eq!(B::decode(&sorted.encode()), Some(sorted));
    assert_eq!(B::decode(&swapped.encode()), None);
    let twice = B::Dict(vec![(&b"a"[..], B::Num(1)), (&b"a"[..], B::Num(2))]);
    assert_eq!(B::decode(&twice.encode()), None);
    let inner = B::List(vec![B::Dict(vec![(&b"b"[..], B::Num(1)), (&b"a"[..], B::Num(2))])]);
    assert_eq!(B::decode(&inner.encode()), None);
}
