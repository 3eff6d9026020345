//! Path segments, and numbers and bytes written out as text.

use vstd::prelude::*;
use vstd::string::{StringExecFns, StringSliceAdditionalSpecFns};

verus! {

/// ASCII `.`.
pub const DOT: u8 = 46;

/// Whether a path segment, as bytes, names something under the directory it
/// stands in: it is not empty, and neither `.` nor `..`.
pub open spec fn valid_segment(segment: Seq<u8>) -> bool {
    segment != Seq::<u8>::empty() && segment != seq![DOT] && segment != seq![DOT, DOT]
}

/// Whether `p` can be a segment of a file's path.
pub fn valid_path(p: &str) -> (r: bool)
    ensures
        r == valid_segment(p.spec_bytes()),
{
    let b = p.as_bytes();
    let n = b.len();
    if n == 0 {
        assert(b@ =~= Seq::<u8>::empty());
        false
    } else if n == 1 && b[0] == DOT {
        assert(b@ =~= seq![DOT]);
        false
    } else if n == 2 && b[0] == DOT && b[1] == DOT {
        assert(b@ =~= seq![DOT, DOT]);
        false
    } else {
        assert(seq![DOT].len() == 1 && seq![DOT][0] == DOT);
        assert(seq![DOT, DOT].len() == 2 && seq![DOT, DOT][0] == DOT && seq![DOT, DOT][1] == DOT);
        true
    }
}

/// The character for a digit below ten.
pub open spec fn digit_char(d: nat) -> char {
    ((48 + d) as u8) as char
}

/// The character for a digit below sixteen, in upper case.
pub open spec fn hex_char(d: nat) -> char {
    if d < 10 {
        digit_char(d)
    } else {
        ((55 + d) as u8) as char
    }
}

/// `n` in decimal, without leading zeros.
pub open spec fn dec_text(n: nat) -> Seq<char>
    decreases n,
{
    if n < 10 {
        seq![digit_char(n)]
    } else {
        dec_text(n / 10).push(digit_char(n % 10))
    }
}

/// Each byte as `%` and its two hexadecimal digits in upper case.
pub open spec fn percent_encoded(bytes: Seq<u8>) -> Seq<char>
    decreases bytes.len(),
{
    if bytes.len() == 0 {
        Seq::empty()
    } else {
        percent_encoded(bytes.drop_last()) + seq![
            '%',
            hex_char(bytes.last() as nat / 16),
            hex_char(bytes.last() as nat % 16),
        ]
    }
}

/// The text of one hexadecimal digit.
fn hex_str(d: u8) -> (r: &'static str)
    requires
        d < 16,
    ensures
        r@ == seq![hex_char(d as nat)],
{
    proof {
        reveal_strlit("0");
        reveal_strlit("1");
        reveal_strlit("2");
        reveal_strlit("3");
        reveal_strlit("4");
        reveal_strlit("5");
        reveal_strlit("6");
        reveal_strlit("7");
        reveal_strlit("8");
        reveal_strlit("9");
        reveal_strlit("A");
        reveal_strlit("B");
        reveal_strlit("C");
        reveal_strlit("D");
        reveal_strlit("E");
        reveal_strlit("F");
    }
    let r = if d == 0 {
        "0"
    } else if d == 1 {
        "1"
    } else if d == 2 {
        "2"
    } else if d == 3 {
        "3"
    } else if d == 4 {
        "4"
    } else if d == 5 {
        "5"
    } else if d == 6 {
        "6"
    } else if d == 7 {
        "7"
    } else if d == 8 {
        "8"
    } else if d == 9 {
        "9"
    } else if d == 10 {
        "A"
    } else if d == 11 {
        "B"
    } else if d == 12 {
        "C"
    } else if d == 13 {
        "D"
    } else if d == 14 {
        "E"
    } else {
        "F"
    };
    assert(r@ =~= seq![hex_char(d as nat)]);
    r
}

/// Writes `n` in decimal at the end of `out`.
pub fn push_decimal(out: &mut String, n: u64)
    ensures
        final(out)@ == old(out)@ + dec_text(n as nat),
    decreases n,
{
    if n >= 10 {
        push_decimal(out, n / 10);
    }
    out.append(hex_str((n % 10) as u8));
    proof {
        let d = seq![digit_char((n % 10) as nat)];
        if n >= 10 {
            assert(old(out)@ + dec_text(n as nat / 10) + d =~= old(out)@ + dec_text(n as nat / 10).push(
                digit_char((n % 10) as nat),
            ));
        } else {
            assert(dec_text(n as nat) =~= d);
        }
    }
}

/// `n` in decimal.
pub fn decimal(n: u64) -> (r: String)
    ensures
        r@ == dec_text(n as nat),
{
    let mut out = String::new();
    push_decimal(&mut out, n);
    assert(Seq::<char>::empty() + dec_text(n as nat) =~= dec_text(n as nat));
    out
}

/// Writes each byte as `%` and two hexadecimal digits at the end of `out`.
pub fn push_percent_encoded(out: &mut String, bytes: &[u8])
    ensures
        final(out)@ == old(out)@ + percent_encoded(bytes@),
{
    let mut i: usize = 0;
    assert(bytes@.subrange(0, 0) =~= Seq::<u8>::empty());
    assert(old(out)@ + Seq::<char>::empty() =~= old(out)@);
    while i < bytes.len()
        invariant
            i <= bytes@.len(),
            out@ == old(out)@ + percent_encoded(bytes@.subrange(0, i as int)),
        decreases bytes@.len() - i,
    {
        let b = bytes[i];
        let ghost before = out@;
        proof {
            reveal_strlit("%");
        }
        out.append("%");
        out.append(hex_str(b / 16));
        out.append(hex_str(b % 16));
        proof {
            let head = bytes@.subrange(0, i as int);
            let next = bytes@.subrange(0, i + 1);
            assert(next.drop_last() =~= head);
            assert(next.last() == b);
            let three = seq!['%', hex_char(b as nat / 16), hex_char(b as nat % 16)];
            assert("%"@ + seq![hex_char(b as nat / 16)] + seq![hex_char(b as nat % 16)] =~= three);
            assert(out@ =~= before + three);
            assert(old(out)@ + percent_encoded(head) + three =~= old(out)@ + (percent_encoded(head)
                + three));
        }
        i += 1;
    }
    assert(bytes@.subrange(0, i as int) =~= bytes@);
}

} // verus!
