//! The Bencode grammar as mathematics: the abstract value, the canonical
//! serialisation, and a reading of the grammar on byte sequences that names
//! the error for every input that is not a document.

use vstd::prelude::*;

use crate::torrent_ast::TokError;

verus! {

/// ASCII `0`.
pub const ZERO: u8 = 48;

/// ASCII `9`.
pub const NINE: u8 = 57;

/// ASCII `-`.
pub const MINUS: u8 = 45;

/// ASCII `:`, between a string's length and its bytes.
pub const COLON: u8 = 58;

/// ASCII `i`, which opens an integer.
pub const INT: u8 = 105;

/// ASCII `l`, which opens a list.
pub const LIST: u8 = 108;

/// ASCII `d`, which opens a dictionary.
pub const DICT: u8 = 100;

/// ASCII `e`, which closes an integer, a list or a dictionary.
pub const END: u8 = 101;

/// What a Bencode document denotes.
pub enum Value {
    Num(i64),
    Str(Seq<u8>),
    List(Seq<Value>),
    /// The entries in the order of the document.
    Dict(Seq<(Seq<u8>, Value)>),
}

pub open spec fn is_digit(b: u8) -> bool {
    ZERO <= b <= NINE
}

pub open spec fn digit_of(b: u8) -> nat {
    (b - ZERO) as nat
}

/// The index of the first byte at or after `i` that is no digit, or the
/// length of `s` where only digits follow.
pub open spec fn digits_end(s: Seq<u8>, i: int) -> int
    decreases s.len() - i,
{
    if 0 <= i < s.len() && is_digit(s[i]) {
        digits_end(s, i + 1)
    } else {
        i
    }
}

/// The number that a string of decimal digits denotes.
pub open spec fn dec_value(s: Seq<u8>) -> nat
    decreases s.len(),
{
    if s.len() == 0 {
        0
    } else {
        10 * dec_value(s.drop_last()) + digit_of(s.last())
    }
}

/// Byte-wise lexicographic order, strict: `a` comes before `b`.
pub open spec fn lex_lt(a: Seq<u8>, b: Seq<u8>) -> bool {
    lex_lt_from(a, b, 0)
}

pub open spec fn lex_lt_from(a: Seq<u8>, b: Seq<u8>, i: int) -> bool
    decreases a.len() - i,
{
    if i < 0 || i >= b.len() {
        false
    } else if i >= a.len() {
        true
    } else if a[i] != b[i] {
        a[i] < b[i]
    } else {
        lex_lt_from(a, b, i + 1)
    }
}

/// A byte string at the front of `s`: its bytes and the number of bytes that
/// it takes up, the length prefix and the colon included. The length may be
/// written with leading zeros.
pub open spec fn str_at(s: Seq<u8>) -> Result<(Seq<u8>, int), TokError> {
    if s.len() == 0 {
        Err(TokError::StrUnexpectedEOF)
    } else if !is_digit(s[0]) {
        Err(TokError::StrInvalidIdent)
    } else {
        let k = digits_end(s, 0);
        let n = dec_value(s.subrange(0, k));
        if k >= s.len() {
            Err(TokError::StrLenEOF)
        } else if k + 1 + n > s.len() {
            Err(TokError::StrTooShort)
        } else if s[k] != COLON {
            Err(TokError::StrInvalidSep)
        } else {
            Ok((s.subrange(k + 1, k + 1 + n), k + 1 + n))
        }
    }
}

/// An integer at the front of `s`: its value and the number of bytes that it
/// takes up. Zero is written `i0e` and in no other way; no other number
/// starts with a zero.
pub open spec fn int_at(s: Seq<u8>) -> Result<(i64, int), TokError> {
    if s.len() == 0 {
        Err(TokError::IntUnexpectedEOF)
    } else if s[0] != INT {
        Err(TokError::IntInvalidIdent)
    } else if s.len() >= 3 && s[1] == ZERO && s[2] == END {
        Ok((0i64, 3))
    } else {
        let neg = s.len() >= 2 && s[1] == MINUS;
        let start: int = if neg { 2 } else { 1 };
        if !(start < s.len() && is_digit(s[start]) && s[start] != ZERO) {
            Err(TokError::IntInvalidEncoding)
        } else {
            let k = digits_end(s, start);
            let m = dec_value(s.subrange(start, k));
            let v: int = if neg { -m } else { m as int };
            if k >= s.len() {
                Err(TokError::IntLenEOF)
            } else if s[k] != END {
                Err(TokError::IntExpectedEnd)
            } else if !(i64::MIN <= v <= i64::MAX) {
                Err(TokError::IntLenParseErr)
            } else {
                Ok((v as i64, k + 1))
            }
        }
    }
}

/// One value at the front of `s`: what it denotes and the number of bytes
/// that it takes up.
pub open spec fn value_at(s: Seq<u8>) -> Result<(Value, int), TokError>
    decreases s.len(), 2int,
{
    if s.len() == 0 {
        Err(TokError::BencInvalidIdent)
    } else if is_digit(s[0]) {
        match str_at(s) {
            Ok((b, n)) => Ok((Value::Str(b), n)),
            Err(e) => Err(e),
        }
    } else if s[0] == INT {
        match int_at(s) {
            Ok((v, n)) => Ok((Value::Num(v), n)),
            Err(e) => Err(e),
        }
    } else if s[0] == LIST {
        match list_at(s) {
            Ok((items, n)) => Ok((Value::List(items), n)),
            Err(e) => Err(e),
        }
    } else if s[0] == DICT {
        match dict_at(s) {
            Ok((entries, n)) => Ok((Value::Dict(entries), n)),
            Err(e) => Err(e),
        }
    } else {
        Err(TokError::BencInvalidIdent)
    }
}

/// A list at the front of `s`: `l`, its items, `e`.
pub open spec fn list_at(s: Seq<u8>) -> Result<(Seq<Value>, int), TokError>
    decreases s.len(), 1int,
{
    if s.len() == 0 {
        Err(TokError::ListUnexpectedEOF)
    } else if s[0] != LIST {
        Err(TokError::ListInvalidIdent)
    } else {
        match items_at(s.skip(1)) {
            Err(e) => Err(e),
            Ok((items, n)) => if 1 + n < s.len() && s[1 + n] == END {
                Ok((items, n + 2))
            } else {
                Err(TokError::ListExpectedEnd)
            },
        }
    }
}

/// The values at the front of `s`, as many as there are, up to the first
/// byte that opens no value.
pub open spec fn items_at(s: Seq<u8>) -> Result<(Seq<Value>, int), TokError>
    decreases s.len(), 3int,
{
    match value_at(s) {
        Err(TokError::BencInvalidIdent) => Ok((Seq::empty(), 0)),
        Err(_) => Err(TokError::ListValParseErr),
        Ok((v, n)) => if 0 < n <= s.len() {
            match items_at(s.skip(n)) {
                Err(e) => Err(e),
                Ok((rest, m)) => Ok((seq![v] + rest, n + m)),
            }
        } else {
            Err(TokError::ListValParseErr)
        },
    }
}

/// A dictionary at the front of `s`: `d`, its entries with keys in strictly
/// ascending order, `e`.
pub open spec fn dict_at(s: Seq<u8>) -> Result<(Seq<(Seq<u8>, Value)>, int), TokError>
    decreases s.len(), 1int,
{
    if s.len() == 0 {
        Err(TokError::DictUnexpectedEOF)
    } else if s[0] != DICT {
        Err(TokError::DictInvalidIdent)
    } else {
        match entries_at(s.skip(1), None) {
            Err(e) => Err(e),
            Ok((entries, n)) => if 1 + n < s.len() && s[1 + n] == END {
                Ok((entries, n + 2))
            } else {
                Err(TokError::DictExpectedEnd)
            },
        }
    }
}

/// The entries at the front of `s`, as many as there are, up to the first
/// byte that opens no key. `prev` is the key of the entry before them, which
/// the first key here must follow.
pub open spec fn entries_at(s: Seq<u8>, prev: Option<Seq<u8>>) -> Result<
    (Seq<(Seq<u8>, Value)>, int),
    TokError,
>
    decreases s.len(), 3int,
{
    match str_at(s) {
        Err(TokError::StrInvalidIdent) => Ok((Seq::empty(), 0)),
        Err(_) => Err(TokError::DictExpectedStrKey),
        Ok((key, n)) => if prev is Some && !lex_lt(prev->Some_0, key) {
            Err(TokError::DictKeysUnsorted)
        } else if 0 < n <= s.len() {
            match value_at(s.skip(n)) {
                Err(_) => Err(TokError::DictValParseErr),
                Ok((v, m)) => if 0 < m <= s.len() - n {
                    match entries_at(s.skip(n + m), Some(key)) {
                        Err(e) => Err(e),
                        Ok((rest, r)) => Ok((seq![(key, v)] + rest, n + m + r)),
                    }
                } else {
                    Err(TokError::DictValParseErr)
                },
            }
        } else {
            Err(TokError::DictExpectedStrKey)
        },
    }
}

/// A value as the tokenizer hands it back when it builds no collections: a
/// list or a dictionary is empty, anything else is itself.
pub open spec fn hollow(v: Value) -> Value {
    match v {
        Value::List(_) => Value::List(Seq::empty()),
        Value::Dict(_) => Value::Dict(Seq::empty()),
        _ => v,
    }
}

/// A value as the tokenizer hands it back: itself where collections are
/// built, hollow where they are not.
pub open spec fn shaped(v: Value, build: bool) -> Value {
    if build {
        v
    } else {
        hollow(v)
    }
}

/// `head`, read over `used` bytes, followed by what `tail` reads after it.
pub open spec fn after<T>(head: Seq<T>, used: int, tail: Result<(Seq<T>, int), TokError>) -> Result<
    (Seq<T>, int),
    TokError,
> {
    match tail {
        Ok((rest, m)) => Ok((head + rest, used + m)),
        Err(e) => Err(e),
    }
}

/// What `s` denotes as a whole document: a value that takes up all of `s`.
pub open spec fn decoded(s: Seq<u8>) -> Option<Value> {
    match value_at(s) {
        Ok((v, n)) => if n == s.len() {
            Some(v)
        } else {
            None
        },
        Err(_) => None,
    }
}

/// Where the value of the key `key` lies in the dictionary that `s` starts
/// with: the offsets of its first byte and of the byte after its last. Only
/// the entries of the outermost dictionary are looked at, in the order of the
/// document and up to the first entry with that key; every entry on the way
/// has to be well-formed.
pub open spec fn value_span(s: Seq<u8>, key: Seq<u8>) -> Option<(int, int)> {
    if s.len() == 0 || s[0] != DICT {
        None
    } else {
        span_from(s, 1, key)
    }
}

/// `value_span` for the entries that start at offset `pos`.
pub open spec fn span_from(s: Seq<u8>, pos: int, key: Seq<u8>) -> Option<(int, int)>
    decreases s.len() - pos,
{
    if !(0 <= pos <= s.len()) {
        None
    } else {
        match str_at(s.skip(pos)) {
            Err(_) => None,
            Ok((k, n)) => match value_at(s.skip(pos + n)) {
                Err(_) => None,
                Ok((v, m)) => if k == key {
                    Some((pos + n, pos + n + m))
                } else if 0 < n + m <= s.len() - pos {
                    span_from(s, pos + n + m, key)
                } else {
                    None
                },
            },
        }
    }
}

/// The digits that start at `i` end at or after `i`, within `s`.
pub proof fn lemma_digits_end_bounds(s: Seq<u8>, i: int)
    requires
        0 <= i <= s.len(),
    ensures
        i <= digits_end(s, i) <= s.len(),
    decreases s.len() - i,
{
    if i < s.len() && is_digit(s[i]) {
        lemma_digits_end_bounds(s, i + 1);
    }
}

/// A byte string that is read takes up at least its colon and one digit, and
/// no more than there is.
pub proof fn lemma_str_at_bounds(s: Seq<u8>)
    ensures
        str_at(s) matches Ok((b, n)) ==> 1 < n <= s.len() && b.len() + 2 <= n,
{
    if s.len() > 0 && is_digit(s[0]) {
        lemma_digits_end_bounds(s, 1);
    }
}

/// An integer that is read takes up at least three bytes, and no more than
/// there is.
pub proof fn lemma_int_at_bounds(s: Seq<u8>)
    ensures
        int_at(s) matches Ok((v, n)) ==> 2 < n <= s.len(),
{
    if s.len() > 0 && s[0] == INT {
        let neg = s.len() >= 2 && s[1] == MINUS;
        let start: int = if neg { 2 } else { 1 };
        if start < s.len() && is_digit(s[start]) {
            lemma_digits_end_bounds(s, start + 1);
        }
    }
}

/// A value that is read takes up at least one byte, and no more than there is.
pub proof fn lemma_value_at_bounds(s: Seq<u8>)
    ensures
        value_at(s) matches Ok((v, n)) ==> 0 < n <= s.len(),
    decreases s.len(), 2int,
{
    reveal_with_fuel(value_at, 2);
    if s.len() > 0 {
        if is_digit(s[0]) {
            lemma_str_at_bounds(s);
        } else if s[0] == INT {
            lemma_int_at_bounds(s);
        } else if s[0] == LIST {
            lemma_list_at_bounds(s);
        } else if s[0] == DICT {
            lemma_dict_at_bounds(s);
        }
    }
}

/// A list that is read takes up at least two bytes, and no more than there is.
pub proof fn lemma_list_at_bounds(s: Seq<u8>)
    ensures
        list_at(s) matches Ok((items, n)) ==> 1 < n <= s.len(),
    decreases s.len(), 1int,
{
    reveal_with_fuel(list_at, 2);
    if s.len() > 0 && s[0] == LIST {
        lemma_items_at_bounds(s.skip(1));
    }
}

/// The items that are read take up no more than there is.
pub proof fn lemma_items_at_bounds(s: Seq<u8>)
    ensures
        items_at(s) matches Ok((items, n)) ==> 0 <= n <= s.len(),
    decreases s.len(), 3int,
{
    reveal_with_fuel(items_at, 2);
    lemma_value_at_bounds(s);
    if let Ok((v, n)) = value_at(s) {
        lemma_items_at_bounds(s.skip(n));
    }
}

/// A dictionary that is read takes up at least two bytes, and no more than
/// there is.
pub proof fn lemma_dict_at_bounds(s: Seq<u8>)
    ensures
        dict_at(s) matches Ok((entries, n)) ==> 1 < n <= s.len(),
    decreases s.len(), 1int,
{
    reveal_with_fuel(dict_at, 2);
    if s.len() > 0 && s[0] == DICT {
        lemma_entries_at_bounds(s.skip(1), None);
    }
}

/// The entries that are read take up no more than there is.
pub proof fn lemma_entries_at_bounds(s: Seq<u8>, prev: Option<Seq<u8>>)
    ensures
        entries_at(s, prev) matches Ok((entries, n)) ==> 0 <= n <= s.len(),
    decreases s.len(), 3int,
{
    reveal_with_fuel(entries_at, 2);
    lemma_str_at_bounds(s);
    if let Ok((key, n)) = str_at(s) {
        lemma_value_at_bounds(s.skip(n));
        if let Ok((v, m)) = value_at(s.skip(n)) {
            lemma_entries_at_bounds(s.skip(n + m), Some(key));
        }
    }
}

} // verus!
