//! The canonical serialisation of a Bencode value, and how it goes together
//! with reading: what is written is read back as it was, and what is read
//! from a document without padding is written back byte for byte.

use vstd::prelude::*;

use crate::bencode::{
    COLON, DICT, END, INT, LIST, MINUS, ZERO, Value, dec_value, decoded, dict_at, digit_of,
    digits_end, entries_at, int_at, is_digit, items_at, lemma_digits_end_bounds,
    lemma_entries_at_bounds, lemma_int_at_bounds, lemma_items_at_bounds, lemma_str_at_bounds,
    lemma_value_at_bounds, lex_lt, lex_lt_from, list_at, span_from, str_at, value_at,
    value_span,
};
use crate::descriptor::{lookup, lookup_from};
use crate::torrent_ast::{
    Bencode, TokError, dict_view, lemma_dict_view, lemma_list_view, list_view,
};

verus! {

/// `n` in decimal digits, without leading zeros.
pub open spec fn dec_digits(n: nat) -> Seq<u8>
    decreases n,
{
    if n < 10 {
        seq![(ZERO + n) as u8]
    } else {
        dec_digits(n / 10).push((ZERO + n % 10) as u8)
    }
}

/// An integer as it is written: `i`, the number, `e`.
pub open spec fn encode_int(n: i64) -> Seq<u8> {
    if n < 0 {
        seq![INT, MINUS] + dec_digits((-n) as nat) + seq![END]
    } else {
        seq![INT] + dec_digits(n as nat) + seq![END]
    }
}

/// A byte string as it is written: its length, a colon, its bytes.
pub open spec fn encode_str(b: Seq<u8>) -> Seq<u8> {
    dec_digits(b.len()) + seq![COLON] + b
}

/// A value as it is written.
pub open spec fn encode(v: Value) -> Seq<u8>
    decreases v,
{
    match v {
        Value::Num(n) => encode_int(n),
        Value::Str(b) => encode_str(b),
        Value::List(items) => seq![LIST] + encode_items(items) + seq![END],
        Value::Dict(entries) => seq![DICT] + encode_entries(entries) + seq![END],
    }
}

/// Values as they are written one after another.
pub open spec fn encode_items(items: Seq<Value>) -> Seq<u8>
    decreases items,
{
    if items.len() == 0 {
        Seq::empty()
    } else {
        encode(items[0]) + encode_items(items.skip(1))
    }
}

/// Entries as they are written one after another, each its key and its
/// value.
pub open spec fn encode_entries(entries: Seq<(Seq<u8>, Value)>) -> Seq<u8>
    decreases entries,
{
    if entries.len() == 0 {
        Seq::empty()
    } else {
        encode_str(entries[0].0) + encode(entries[0].1) + encode_entries(entries.skip(1))
    }
}

/// Whether the keys of `entries` ascend strictly, the first of them after
/// `prev` where there is one.
pub open spec fn keys_ascend(entries: Seq<(Seq<u8>, Value)>, prev: Option<Seq<u8>>) -> bool
    decreases entries.len(),
{
    if entries.len() == 0 {
        true
    } else {
        (prev is None || lex_lt(prev->Some_0, entries[0].0)) && keys_ascend(
            entries.skip(1),
            Some(entries[0].0),
        )
    }
}

/// Whether a value can stand in a document: the keys of each dictionary in
/// it ascend strictly.
pub open spec fn well_formed(v: Value) -> bool
    decreases v,
{
    match v {
        Value::Num(_) => true,
        Value::Str(_) => true,
        Value::List(items) => all_well_formed(items),
        Value::Dict(entries) => keys_ascend(entries, None) && entries_well_formed(entries),
    }
}

pub open spec fn all_well_formed(items: Seq<Value>) -> bool
    decreases items,
{
    if items.len() == 0 {
        true
    } else {
        well_formed(items[0]) && all_well_formed(items.skip(1))
    }
}

pub open spec fn entries_well_formed(entries: Seq<(Seq<u8>, Value)>) -> bool
    decreases entries,
{
    if entries.len() == 0 {
        true
    } else {
        well_formed(entries[0].1) && entries_well_formed(entries.skip(1))
    }
}

/// No byte string comes before itself.
pub proof fn lemma_lex_lt_irreflexive(a: Seq<u8>, i: int)
    requires
        0 <= i,
    ensures
        !lex_lt_from(a, a, i),
    decreases a.len() - i,
{
    if i < a.len() {
        lemma_lex_lt_irreflexive(a, i + 1);
    }
}

/// What comes before a byte string comes before everything after it.
pub proof fn lemma_lex_lt_transitive(a: Seq<u8>, b: Seq<u8>, c: Seq<u8>, i: int)
    requires
        0 <= i,
        lex_lt_from(a, b, i),
        lex_lt_from(b, c, i),
    ensures
        lex_lt_from(a, c, i),
    decreases a.len() - i,
{
    if i < a.len() && a[i] == b[i] && b[i] == c[i] {
        lemma_lex_lt_transitive(a, b, c, i + 1);
    }
}

/// Where the keys of entries ascend, each key comes after `prev` and after
/// the key of every entry before it: no key stands twice.
pub proof fn lemma_keys_ascend(entries: Seq<(Seq<u8>, Value)>, prev: Option<Seq<u8>>)
    requires
        keys_ascend(entries, prev),
    ensures
        forall|i: int|
            0 <= i < entries.len() && prev is Some ==> lex_lt(
                prev->Some_0,
                (#[trigger] entries[i]).0,
            ),
        forall|i: int, j: int|
            0 <= i < j < entries.len() ==> lex_lt(
                (#[trigger] entries[i]).0,
                (#[trigger] entries[j]).0,
            ),
        forall|i: int, j: int|
            0 <= i < j < entries.len() ==> (#[trigger] entries[i]).0 != (#[trigger] entries[j]).0,
    decreases entries.len(),
{
    if entries.len() > 0 {
        let first = entries[0].0;
        let rest = entries.skip(1);
        lemma_keys_ascend(rest, Some(first));
        assert forall|i: int| 0 <= i < entries.len() && prev is Some implies lex_lt(
            prev->Some_0,
            (#[trigger] entries[i]).0,
        ) by {
            if i > 0 {
                assert(rest[i - 1] == entries[i]);
                lemma_lex_lt_transitive(prev->Some_0, first, entries[i].0, 0);
            }
        }
        assert forall|i: int, j: int| 0 <= i < j < entries.len() implies lex_lt(
            (#[trigger] entries[i]).0,
            (#[trigger] entries[j]).0,
        ) by {
            assert(rest[j - 1] == entries[j]);
            if i > 0 {
                assert(rest[i - 1] == entries[i]);
            }
        }
        assert forall|i: int, j: int| 0 <= i < j < entries.len() implies (#[trigger] entries[i]).0
            != (#[trigger] entries[j]).0 by {
            lemma_lex_lt_irreflexive(entries[i].0, 0);
        }
    }
}

/// The decimal digits of a number are digits, one at least, they start with
/// a zero for zero only, and they are worth the number.
pub proof fn lemma_dec_digits(n: nat)
    ensures
        dec_digits(n).len() >= 1,
        forall|i: int| 0 <= i < dec_digits(n).len() ==> is_digit(#[trigger] dec_digits(n)[i]),
        n == 0 ==> dec_digits(n) == seq![ZERO],
        n > 0 ==> dec_digits(n)[0] != ZERO,
        dec_value(dec_digits(n)) == n,
    decreases n,
{
    reveal_with_fuel(dec_value, 2);
    let d = dec_digits(n);
    if n < 10 {
        assert(d.drop_last() =~= Seq::<u8>::empty());
    } else {
        lemma_dec_digits(n / 10);
        assert(d.drop_last() =~= dec_digits(n / 10));
    }
}

/// Where a run of digits ends.
pub proof fn lemma_digits_end_run(s: Seq<u8>, i: int, k: int)
    requires
        0 <= i <= k <= s.len(),
        forall|j: int| i <= j < k ==> is_digit(#[trigger] s[j]),
        k == s.len() || !is_digit(s[k]),
    ensures
        digits_end(s, i) == k,
    decreases k - i,
{
    if i < k {
        lemma_digits_end_run(s, i + 1, k);
    }
}

/// Digits without a zero in front are worth as much as their first digit at
/// least.
pub proof fn lemma_dec_value_first(d: Seq<u8>)
    requires
        d.len() >= 1,
    ensures
        dec_value(d) >= digit_of(d[0]),
    decreases d.len(),
{
    reveal_with_fuel(dec_value, 2);
    if d.len() == 1 {
        assert(d.drop_last() =~= Seq::<u8>::empty());
    } else {
        lemma_dec_value_first(d.drop_last());
    }
}

/// Digits that are written without a zero in front are the decimal digits
/// of what they are worth.
pub proof fn lemma_digits_of_value(d: Seq<u8>)
    requires
        d.len() >= 1,
        forall|i: int| 0 <= i < d.len() ==> is_digit(#[trigger] d[i]),
        d.len() == 1 || d[0] != ZERO,
    ensures
        dec_digits(dec_value(d)) == d,
    decreases d.len(),
{
    reveal_with_fuel(dec_value, 2);
    let head = d.drop_last();
    if d.len() == 1 {
        assert(head =~= Seq::<u8>::empty());
        assert(dec_digits(dec_value(d)) =~= d);
    } else {
        lemma_digits_of_value(head);
        lemma_dec_value_first(head);
        assert(is_digit(d[0]));
        assert(dec_value(head) >= 1);
        assert(dec_value(d) / 10 == dec_value(head));
        assert(dec_digits(dec_value(d)) =~= d);
    }
}

/// An integer that is written is read back.
pub proof fn lemma_int_at_encoded(n: i64, tail: Seq<u8>)
    ensures
        int_at(encode_int(n) + tail) == Ok::<(i64, int), TokError>(
            (n, encode_int(n).len() as int),
        ),
{
    let s = encode_int(n) + tail;
    if n == 0 {
        lemma_dec_digits(0);
    } else if n > 0 {
        let d = dec_digits(n as nat);
        lemma_dec_digits(n as nat);
        let k: int = 1 + d.len() as int;
        assert forall|j: int| 1 <= j < k implies is_digit(#[trigger] s[j]) by {
            assert(s[j] == d[j - 1]);
        }
        assert(s[1] == d[0]);
        assert(s[k] == END);
        lemma_digits_end_run(s, 1, k);
        assert(s.subrange(1, k) =~= d);
    } else {
        let d = dec_digits((-n) as nat);
        lemma_dec_digits((-n) as nat);
        let k: int = 2 + d.len() as int;
        assert forall|j: int| 2 <= j < k implies is_digit(#[trigger] s[j]) by {
            assert(s[j] == d[j - 2]);
        }
        assert(s[1] == MINUS);
        assert(s[2] == d[0]);
        assert(s[k] == END);
        lemma_digits_end_run(s, 2, k);
        assert(s.subrange(2, k) =~= d);
    }
}

/// A byte string that is written is read back.
pub proof fn lemma_str_at_encoded(b: Seq<u8>, tail: Seq<u8>)
    ensures
        str_at(encode_str(b) + tail) == Ok::<(Seq<u8>, int), TokError>(
            (b, encode_str(b).len() as int),
        ),
{
    let s = encode_str(b) + tail;
    let d = dec_digits(b.len());
    lemma_dec_digits(b.len());
    let k = d.len() as int;
    assert forall|j: int| 0 <= j < k implies is_digit(#[trigger] s[j]) by {
        assert(s[j] == d[j]);
    }
    assert(s[k] == COLON);
    lemma_digits_end_run(s, 0, k);
    assert(s.subrange(0, k) =~= d);
    assert(s.subrange(k + 1, k + 1 + b.len()) =~= b);
}

/// What is written of a value starts with a byte that opens a value.
pub proof fn lemma_encode_opens(v: Value)
    ensures
        encode(v).len() > 0,
        is_digit(encode(v)[0]) || encode(v)[0] == INT || encode(v)[0] == LIST || encode(v)[0]
            == DICT,
{
    match v {
        Value::Num(n) => {},
        Value::Str(b) => {
            lemma_dec_digits(b.len());
        },
        Value::List(items) => {},
        Value::Dict(entries) => {},
    }
}

/// A well-formed value that is written is read back, whatever follows it.
pub proof fn lemma_value_at_encoded(v: Value, tail: Seq<u8>)
    requires
        well_formed(v),
    ensures
        value_at(encode(v) + tail) == Ok::<(Value, int), TokError>((v, encode(v).len() as int)),
    decreases v,
{
    let s = encode(v) + tail;
    lemma_encode_opens(v);
    assert(s[0] == encode(v)[0]);
    match v {
        Value::Num(n) => {
            lemma_int_at_encoded(n, tail);
            assert(s[0] == INT);
        },
        Value::Str(b) => {
            lemma_str_at_encoded(b, tail);
            lemma_dec_digits(b.len());
            assert(is_digit(s[0]));
        },
        Value::List(items) => {
            let rest = seq![END] + tail;
            let n = encode_items(items).len() as int;
            assert(s[0] == LIST);
            assert(value_at(rest) == Err::<(Value, int), TokError>(TokError::BencInvalidIdent));
            lemma_items_at_encoded(items, rest);
            assert(s.skip(1) =~= encode_items(items) + rest);
            assert(s[1 + n] == END);
            assert(list_at(s) == Ok::<(Seq<Value>, int), TokError>((items, n + 2)));
        },
        Value::Dict(entries) => {
            let rest = seq![END] + tail;
            let n = encode_entries(entries).len() as int;
            assert(s[0] == DICT);
            assert(str_at(rest) == Err::<(Seq<u8>, int), TokError>(TokError::StrInvalidIdent));
            lemma_entries_at_encoded(entries, None, rest);
            assert(s.skip(1) =~= encode_entries(entries) + rest);
            assert(s[1 + n] == END);
            assert(dict_at(s) == Ok::<(Seq<(Seq<u8>, Value)>, int), TokError>((entries, n + 2)));
        },
    }
}

/// Well-formed values that are written one after another are read back, up
/// to a byte that opens no value.
pub proof fn lemma_items_at_encoded(items: Seq<Value>, tail: Seq<u8>)
    requires
        all_well_formed(items),
        value_at(tail) == Err::<(Value, int), TokError>(TokError::BencInvalidIdent),
    ensures
        items_at(encode_items(items) + tail) == Ok::<(Seq<Value>, int), TokError>(
            (items, encode_items(items).len() as int),
        ),
    decreases items,
{
    let s = encode_items(items) + tail;
    if items.len() == 0 {
        assert(encode_items(items) =~= Seq::<u8>::empty());
        assert(s =~= tail);
        assert(items =~= Seq::<Value>::empty());
    } else {
        let first = items[0];
        let rest = items.skip(1);
        let after = encode_items(rest) + tail;
        let n = encode(first).len() as int;
        let m = encode_items(rest).len() as int;
        assert(well_formed(first) && all_well_formed(rest));
        assert(encode_items(items) == encode(first) + encode_items(rest));
        lemma_value_at_encoded(first, after);
        lemma_encode_opens(first);
        assert(s =~= encode(first) + after);
        assert(value_at(s) == Ok::<(Value, int), TokError>((first, n)));
        assert(s.skip(n) =~= after);
        lemma_items_at_encoded(rest, tail);
        assert(items_at(s.skip(n)) == Ok::<(Seq<Value>, int), TokError>((rest, m)));
        assert(seq![first] + rest =~= items);
        assert(0 < n <= s.len());
    }
}

/// Well-formed entries with ascending keys that are written one after
/// another are read back, up to a byte that opens no key.
pub proof fn lemma_entries_at_encoded(
    entries: Seq<(Seq<u8>, Value)>,
    prev: Option<Seq<u8>>,
    tail: Seq<u8>,
)
    requires
        keys_ascend(entries, prev),
        entries_well_formed(entries),
        str_at(tail) == Err::<(Seq<u8>, int), TokError>(TokError::StrInvalidIdent),
    ensures
        entries_at(encode_entries(entries) + tail, prev) == Ok::<
            (Seq<(Seq<u8>, Value)>, int),
            TokError,
        >((entries, encode_entries(entries).len() as int)),
    decreases entries,
{
    let s = encode_entries(entries) + tail;
    if entries.len() == 0 {
        assert(encode_entries(entries) =~= Seq::<u8>::empty());
        assert(s =~= tail);
        assert(entries =~= Seq::<(Seq<u8>, Value)>::empty());
    } else {
        let key = entries[0].0;
        let value = entries[0].1;
        let rest = entries.skip(1);
        let after = encode_entries(rest) + tail;
        let n = encode_str(key).len() as int;
        let m = encode(value).len() as int;
        let r = encode_entries(rest).len() as int;
        assert(well_formed(value) && entries_well_formed(rest));
        assert(keys_ascend(rest, Some(key)));
        assert(prev is None || lex_lt(prev->Some_0, key));
        assert(encode_entries(entries) == encode_str(key) + encode(value) + encode_entries(rest));
        lemma_str_at_encoded(key, encode(value) + after);
        assert(s =~= encode_str(key) + (encode(value) + after));
        assert(str_at(s) == Ok::<(Seq<u8>, int), TokError>((key, n)));
        lemma_str_at_bounds(s);
        assert(s.skip(n) =~= encode(value) + after);
        lemma_value_at_encoded(value, after);
        lemma_encode_opens(value);
        assert(value_at(s.skip(n)) == Ok::<(Value, int), TokError>((value, m)));
        assert(s.skip(n + m) =~= after);
        lemma_entries_at_encoded(rest, Some(key), tail);
        assert(entries_at(s.skip(n + m), Some(key)) == Ok::<
            (Seq<(Seq<u8>, Value)>, int),
            TokError,
        >((rest, r)));
        assert(seq![(key, value)] + rest =~= entries);
        assert(0 < m <= s.len() - n);
    }
}

/// Reading items fails in one way only: with an item that is none.
pub proof fn lemma_items_error(s: Seq<u8>)
    ensures
        items_at(s) is Err ==> items_at(s) == Err::<(Seq<Value>, int), TokError>(
            TokError::ListValParseErr,
        ),
    decreases s.len(),
{
    if let Ok((v, n)) = value_at(s) {
        if 0 < n <= s.len() {
            lemma_items_error(s.skip(n));
        }
    }
}

/// Reading entries never fails for a byte that opens no value.
pub proof fn lemma_entries_error(s: Seq<u8>, prev: Option<Seq<u8>>)
    ensures
        entries_at(s, prev) != Err::<(Seq<(Seq<u8>, Value)>, int), TokError>(
            TokError::BencInvalidIdent,
        ),
    decreases s.len(),
{
    if let Ok((key, n)) = str_at(s) {
        if 0 < n <= s.len() {
            if let Ok((v, m)) = value_at(s.skip(n)) {
                if 0 < m <= s.len() - n {
                    lemma_entries_error(s.skip(n + m), Some(key));
                }
            }
        }
    }
}

/// Where the first byte opens a value, the error says what is wrong with
/// that value.
pub proof fn lemma_value_error(s: Seq<u8>)
    requires
        s.len() > 0,
        is_digit(s[0]) || s[0] == INT || s[0] == LIST || s[0] == DICT,
    ensures
        value_at(s) != Err::<(Value, int), TokError>(TokError::BencInvalidIdent),
{
    if s[0] == LIST {
        lemma_items_error(s.skip(1));
    } else if s[0] == DICT {
        lemma_entries_error(s.skip(1), None);
    }
}

/// A value that is not well-formed is not read back when it is written.
pub proof fn lemma_value_not_encoded(v: Value, tail: Seq<u8>)
    requires
        !well_formed(v),
    ensures
        value_at(encode(v) + tail) is Err,
    decreases v,
{
    let s = encode(v) + tail;
    lemma_encode_opens(v);
    assert(s[0] == encode(v)[0]);
    match v {
        Value::Num(n) => {},
        Value::Str(b) => {},
        Value::List(items) => {
            let rest = seq![END] + tail;
            assert(s[0] == LIST);
            lemma_items_not_encoded(items, rest);
            assert(s.skip(1) =~= encode_items(items) + rest);
            assert(list_at(s) is Err);
        },
        Value::Dict(entries) => {
            let rest = seq![END] + tail;
            assert(s[0] == DICT);
            lemma_entries_not_encoded(entries, None, rest);
            assert(s.skip(1) =~= encode_entries(entries) + rest);
            assert(dict_at(s) is Err);
        },
    }
}

/// Values of which one is not well-formed are not read back when they are
/// written.
pub proof fn lemma_items_not_encoded(items: Seq<Value>, tail: Seq<u8>)
    requires
        !all_well_formed(items),
    ensures
        items_at(encode_items(items) + tail) is Err,
    decreases items,
{
    let s = encode_items(items) + tail;
    let first = items[0];
    let rest = items.skip(1);
    let after = encode_items(rest) + tail;
    let n = encode(first).len() as int;
    assert(items.len() > 0);
    assert(encode_items(items) == encode(first) + encode_items(rest));
    assert(s =~= encode(first) + after);
    lemma_encode_opens(first);
    assert(s[0] == encode(first)[0]);
    if well_formed(first) {
        lemma_value_at_encoded(first, after);
        assert(value_at(s) == Ok::<(Value, int), TokError>((first, n)));
        assert(s.skip(n) =~= after);
        assert(!all_well_formed(rest));
        lemma_items_not_encoded(rest, tail);
    } else {
        lemma_value_not_encoded(first, after);
        lemma_value_error(s);
    }
}

/// Entries that are not well-formed, or whose keys do not ascend, are not
/// read back when they are written.
pub proof fn lemma_entries_not_encoded(
    entries: Seq<(Seq<u8>, Value)>,
    prev: Option<Seq<u8>>,
    tail: Seq<u8>,
)
    requires
        !(keys_ascend(entries, prev) && entries_well_formed(entries)),
    ensures
        entries_at(encode_entries(entries) + tail, prev) is Err,
    decreases entries,
{
    let s = encode_entries(entries) + tail;
    let key = entries[0].0;
    let value = entries[0].1;
    let rest = entries.skip(1);
    let after = encode_entries(rest) + tail;
    let n = encode_str(key).len() as int;
    let m = encode(value).len() as int;
    assert(entries.len() > 0);
    assert(encode_entries(entries) == encode_str(key) + encode(value) + encode_entries(rest));
    lemma_str_at_encoded(key, encode(value) + after);
    assert(s =~= encode_str(key) + (encode(value) + after));
    assert(str_at(s) == Ok::<(Seq<u8>, int), TokError>((key, n)));
    lemma_str_at_bounds(s);
    assert(s.skip(n) =~= encode(value) + after);
    if prev is Some && !lex_lt(prev->Some_0, key) {
    } else if !well_formed(value) {
        lemma_value_not_encoded(value, after);
    } else {
        lemma_value_at_encoded(value, after);
        lemma_encode_opens(value);
        assert(value_at(s.skip(n)) == Ok::<(Value, int), TokError>((value, m)));
        assert(s.skip(n + m) =~= after);
        assert(!(keys_ascend(rest, Some(key)) && entries_well_formed(rest)));
        lemma_entries_not_encoded(rest, Some(key), tail);
    }
}

/// Writing a value and decoding what was written gives the value back where
/// it is well-formed, and nothing where it is not: a dictionary whose keys do
/// not ascend is not decoded.
pub proof fn lemma_decode_encoded(v: Value)
    ensures
        decoded(encode(v)) == (if well_formed(v) {
            Some(v)
        } else {
            None
        }),
{
    assert(encode(v) + Seq::<u8>::empty() =~= encode(v));
    if well_formed(v) {
        lemma_value_at_encoded(v, Seq::empty());
    } else {
        lemma_value_not_encoded(v, Seq::empty());
    }
}

/// What is read is well-formed.
pub proof fn lemma_read_well_formed(s: Seq<u8>)
    ensures
        value_at(s) matches Ok((v, n)) ==> well_formed(v),
    decreases s.len(), 2int,
{
    if s.len() > 0 {
        if s[0] == LIST {
            lemma_items_read_well_formed(s.skip(1));
        } else if s[0] == DICT {
            lemma_entries_read_well_formed(s.skip(1), None);
        }
    }
}

/// The items that are read are well-formed.
pub proof fn lemma_items_read_well_formed(s: Seq<u8>)
    ensures
        items_at(s) matches Ok((items, n)) ==> all_well_formed(items),
    decreases s.len(), 3int,
{
    lemma_read_well_formed(s);
    if let Ok((v, n)) = value_at(s) {
        if 0 < n <= s.len() {
            lemma_items_read_well_formed(s.skip(n));
            if let Ok((rest, m)) = items_at(s.skip(n)) {
                let items = seq![v] + rest;
                assert(items[0] == v);
                assert(items.skip(1) =~= rest);
            }
        }
    }
}

/// The entries that are read are well-formed, and their keys ascend.
pub proof fn lemma_entries_read_well_formed(s: Seq<u8>, prev: Option<Seq<u8>>)
    ensures
        entries_at(s, prev) matches Ok((entries, n)) ==> keys_ascend(entries, prev)
            && entries_well_formed(entries),
    decreases s.len(), 3int,
{
    if let Ok((key, n)) = str_at(s) {
        if 0 < n <= s.len() {
            lemma_read_well_formed(s.skip(n));
            if let Ok((v, m)) = value_at(s.skip(n)) {
                if 0 < m <= s.len() - n {
                    lemma_entries_read_well_formed(s.skip(n + m), Some(key));
                    if let Ok((rest, r)) = entries_at(s.skip(n + m), Some(key)) {
                        let entries = seq![(key, v)] + rest;
                        assert(entries[0] == (key, v));
                        assert(entries.skip(1) =~= rest);
                    }
                }
            }
        }
    }
}

/// What is decoded is well-formed.
pub proof fn lemma_decoded_well_formed(s: Seq<u8>)
    ensures
        decoded(s) matches Some(v) ==> well_formed(v),
{
    lemma_read_well_formed(s);
}

/// Whether the length of the byte string at the front of `s` is written
/// as the serialisation writes it: with no zero before another digit.
pub open spec fn plain_str(s: Seq<u8>) -> bool {
    !(s.len() > 1 && s[0] == ZERO && is_digit(s[1]))
}

/// Whether every length that is read with the value at the front of `s` is
/// written with no zero before another digit.
pub open spec fn plain_value(s: Seq<u8>) -> bool
    decreases s.len(), 2int,
{
    if s.len() == 0 {
        true
    } else if is_digit(s[0]) {
        plain_str(s)
    } else if s[0] == LIST {
        plain_items(s.skip(1))
    } else if s[0] == DICT {
        plain_entries(s.skip(1))
    } else {
        true
    }
}

/// `plain_value` for each of the items at the front of `s`.
pub open spec fn plain_items(s: Seq<u8>) -> bool
    decreases s.len(), 3int,
{
    match value_at(s) {
        Ok((v, n)) => if 0 < n <= s.len() {
            plain_value(s) && plain_items(s.skip(n))
        } else {
            true
        },
        Err(_) => true,
    }
}

/// `plain_str` for the key and `plain_value` for the value of each of the
/// entries at the front of `s`.
pub open spec fn plain_entries(s: Seq<u8>) -> bool
    decreases s.len(), 3int,
{
    match str_at(s) {
        Ok((key, n)) => if 0 < n <= s.len() {
            plain_str(s) && match value_at(s.skip(n)) {
                Ok((v, m)) => if 0 < m <= s.len() - n {
                    plain_value(s.skip(n)) && plain_entries(s.skip(n + m))
                } else {
                    true
                },
                Err(_) => true,
            }
        } else {
            true
        },
        Err(_) => true,
    }
}

/// The bytes up to where a run of digits ends are digits, and the byte
/// there is none.
pub proof fn lemma_digits_end_all(s: Seq<u8>, i: int)
    requires
        0 <= i <= s.len(),
    ensures
        forall|j: int| i <= j < digits_end(s, i) ==> is_digit(#[trigger] s[j]),
        digits_end(s, i) < s.len() ==> !is_digit(s[digits_end(s, i)]),
    decreases s.len() - i,
{
    if i < s.len() && is_digit(s[i]) {
        lemma_digits_end_all(s, i + 1);
    }
}

/// A byte string that is read was written as the serialisation writes it,
/// where its length stands without a zero before another digit.
pub proof fn lemma_str_read_encodes(s: Seq<u8>)
    requires
        str_at(s) is Ok,
        plain_str(s),
    ensures
        encode_str(str_at(s)->Ok_0.0) == s.subrange(0, str_at(s)->Ok_0.1),
{
    let k = digits_end(s, 0);
    let d = s.subrange(0, k);
    let b = str_at(s)->Ok_0.0;
    lemma_digits_end_bounds(s, 0);
    lemma_digits_end_all(s, 0);
    assert(is_digit(s[0]));
    assert(k >= 1);
    assert forall|i: int| 0 <= i < d.len() implies is_digit(#[trigger] d[i]) by {
        assert(d[i] == s[i]);
    }
    if d.len() > 1 {
        assert(d[1] == s[1]);
    }
    lemma_digits_of_value(d);
    assert(encode_str(b) =~= s.subrange(0, k + 1 + b.len()));
}

/// An integer that is read was written as the serialisation writes it.
pub proof fn lemma_int_read_encodes(s: Seq<u8>)
    requires
        int_at(s) is Ok,
    ensures
        encode_int(int_at(s)->Ok_0.0) == s.subrange(0, int_at(s)->Ok_0.1),
{
    let v = int_at(s)->Ok_0.0;
    if s.len() >= 3 && s[1] == ZERO && s[2] == END {
        lemma_dec_digits(0);
        assert(encode_int(v) =~= s.subrange(0, 3));
    } else {
        let neg = s.len() >= 2 && s[1] == MINUS;
        let start: int = if neg {
            2
        } else {
            1
        };
        let k = digits_end(s, start);
        let d = s.subrange(start, k);
        lemma_digits_end_bounds(s, start);
        lemma_digits_end_all(s, start);
        assert(k > start);
        assert forall|i: int| 0 <= i < d.len() implies is_digit(#[trigger] d[i]) by {
            assert(d[i] == s[start + i]);
        }
        assert(d[0] == s[start]);
        lemma_digits_of_value(d);
        lemma_dec_value_first(d);
        assert(dec_value(d) >= 1);
        assert(encode_int(v) =~= s.subrange(0, k + 1));
    }
}

/// A value that is read was written as the serialisation writes it, where
/// every length in it stands without a zero before another digit.
pub proof fn lemma_read_encodes(s: Seq<u8>)
    requires
        value_at(s) is Ok,
        plain_value(s),
    ensures
        encode(value_at(s)->Ok_0.0) == s.subrange(0, value_at(s)->Ok_0.1),
    decreases s.len(), 2int,
{
    let v = value_at(s)->Ok_0.0;
    let n = value_at(s)->Ok_0.1;
    if is_digit(s[0]) {
        lemma_str_read_encodes(s);
    } else if s[0] == INT {
        lemma_int_read_encodes(s);
    } else if s[0] == LIST {
        let inner = s.skip(1);
        lemma_items_at_bounds(inner);
        lemma_items_read_encodes(inner);
        let m = items_at(inner)->Ok_0.1;
        assert(inner.subrange(0, m) =~= s.subrange(1, 1 + m));
        assert(encode(v) =~= s.subrange(0, m + 2));
    } else {
        let inner = s.skip(1);
        lemma_entries_at_bounds(inner, None);
        lemma_entries_read_encodes(inner, None);
        let m = entries_at(inner, None)->Ok_0.1;
        assert(inner.subrange(0, m) =~= s.subrange(1, 1 + m));
        assert(encode(v) =~= s.subrange(0, m + 2));
    }
}

/// The items that are read were written as the serialisation writes them.
pub proof fn lemma_items_read_encodes(s: Seq<u8>)
    requires
        items_at(s) is Ok,
        plain_items(s),
    ensures
        encode_items(items_at(s)->Ok_0.0) == s.subrange(0, items_at(s)->Ok_0.1),
    decreases s.len(), 3int,
{
    let items = items_at(s)->Ok_0.0;
    lemma_value_at_bounds(s);
    match value_at(s) {
        Ok((v, n)) => {
            let after = s.skip(n);
            lemma_read_encodes(s);
            lemma_items_at_bounds(after);
            lemma_items_read_encodes(after);
            let rest = items_at(after)->Ok_0.0;
            let m = items_at(after)->Ok_0.1;
            assert(items == seq![v] + rest);
            assert(items[0] == v);
            assert(items.skip(1) =~= rest);
            assert(after.subrange(0, m) =~= s.subrange(n, n + m));
            assert(encode_items(items) =~= s.subrange(0, n + m));
        },
        Err(_) => {
            assert(encode_items(items) =~= s.subrange(0, 0));
        },
    }
}

/// The entries that are read were written as the serialisation writes
/// them.
pub proof fn lemma_entries_read_encodes(s: Seq<u8>, prev: Option<Seq<u8>>)
    requires
        entries_at(s, prev) is Ok,
        plain_entries(s),
    ensures
        encode_entries(entries_at(s, prev)->Ok_0.0) == s.subrange(0, entries_at(s, prev)->Ok_0.1),
    decreases s.len(), 3int,
{
    let entries = entries_at(s, prev)->Ok_0.0;
    lemma_str_at_bounds(s);
    match str_at(s) {
        Ok((key, n)) => {
            let middle = s.skip(n);
            lemma_str_read_encodes(s);
            lemma_value_at_bounds(middle);
            lemma_read_encodes(middle);
            let v = value_at(middle)->Ok_0.0;
            let m = value_at(middle)->Ok_0.1;
            let after = s.skip(n + m);
            lemma_entries_at_bounds(after, Some(key));
            lemma_entries_read_encodes(after, Some(key));
            let rest = entries_at(after, Some(key))->Ok_0.0;
            let r = entries_at(after, Some(key))->Ok_0.1;
            assert(entries == seq![(key, v)] + rest);
            assert(entries[0] == (key, v));
            assert(entries.skip(1) =~= rest);
            assert(middle.subrange(0, m) =~= s.subrange(n, n + m));
            assert(after.subrange(0, r) =~= s.subrange(n + m, n + m + r));
            assert(encode_entries(entries) =~= s.subrange(0, n + m + r));
        },
        Err(_) => {
            assert(encode_entries(entries) =~= s.subrange(0, 0));
        },
    }
}

/// Digits are no fewer than the decimal digits of what they are worth, and
/// more where a zero stands before another digit.
pub proof fn lemma_digits_shorten(d: Seq<u8>)
    requires
        d.len() >= 1,
        forall|i: int| 0 <= i < d.len() ==> is_digit(#[trigger] d[i]),
    ensures
        dec_digits(dec_value(d)).len() <= d.len(),
        d.len() > 1 && d[0] == ZERO ==> dec_digits(dec_value(d)).len() < d.len(),
    decreases d.len(),
{
    reveal_with_fuel(dec_value, 2);
    let head = d.drop_last();
    if d.len() == 1 {
        assert(head =~= Seq::<u8>::empty());
    } else {
        lemma_digits_shorten(head);
        if dec_value(head) == 0 {
        } else {
            assert(dec_value(d) / 10 == dec_value(head));
            if head.len() == 1 {
                assert(head.drop_last() =~= Seq::<u8>::empty());
                assert(head[0] == d[0]);
            } else {
                assert(head[0] == d[0]);
            }
        }
    }
}

/// A byte string is written in no more bytes than it was read from, and in
/// fewer where its length was read with a zero before another digit.
pub proof fn lemma_str_shortens(s: Seq<u8>)
    requires
        str_at(s) is Ok,
    ensures
        encode_str(str_at(s)->Ok_0.0).len() <= str_at(s)->Ok_0.1,
        !plain_str(s) ==> encode_str(str_at(s)->Ok_0.0).len() < str_at(s)->Ok_0.1,
{
    let k = digits_end(s, 0);
    let d = s.subrange(0, k);
    lemma_digits_end_bounds(s, 0);
    lemma_digits_end_all(s, 0);
    assert(is_digit(s[0]));
    assert forall|i: int| 0 <= i < d.len() implies is_digit(#[trigger] d[i]) by {
        assert(d[i] == s[i]);
    }
    lemma_digits_shorten(d);
    if !plain_str(s) {
        lemma_digits_end_bounds(s, 2);
        assert(d[0] == s[0]);
    }
}

/// A value is written in no more bytes than it was read from, and in fewer
/// where a length in it was read with a zero before another digit.
pub proof fn lemma_value_shortens(s: Seq<u8>)
    requires
        value_at(s) is Ok,
    ensures
        encode(value_at(s)->Ok_0.0).len() <= value_at(s)->Ok_0.1,
        !plain_value(s) ==> encode(value_at(s)->Ok_0.0).len() < value_at(s)->Ok_0.1,
    decreases s.len(), 2int,
{
    if is_digit(s[0]) {
        lemma_str_shortens(s);
    } else if s[0] == INT {
        lemma_int_read_encodes(s);
        lemma_int_at_bounds(s);
    } else if s[0] == LIST {
        lemma_items_shorten(s.skip(1));
    } else {
        lemma_entries_shorten(s.skip(1), None);
    }
}

/// Items are written in no more bytes than they were read from, and in
/// fewer where a length in them was read with a zero before another digit.
pub proof fn lemma_items_shorten(s: Seq<u8>)
    requires
        items_at(s) is Ok,
    ensures
        encode_items(items_at(s)->Ok_0.0).len() <= items_at(s)->Ok_0.1,
        !plain_items(s) ==> encode_items(items_at(s)->Ok_0.0).len() < items_at(s)->Ok_0.1,
    decreases s.len(), 3int,
{
    let items = items_at(s)->Ok_0.0;
    lemma_value_at_bounds(s);
    match value_at(s) {
        Ok((v, n)) => {
            let after = s.skip(n);
            lemma_value_shortens(s);
            lemma_items_shorten(after);
            let rest = items_at(after)->Ok_0.0;
            assert(items == seq![v] + rest);
            assert(items[0] == v);
            assert(items.skip(1) =~= rest);
        },
        Err(_) => {
            assert(items =~= Seq::<Value>::empty());
        },
    }
}

/// Entries are written in no more bytes than they were read from, and in
/// fewer where a length in them was read with a zero before another digit.
pub proof fn lemma_entries_shorten(s: Seq<u8>, prev: Option<Seq<u8>>)
    requires
        entries_at(s, prev) is Ok,
    ensures
        encode_entries(entries_at(s, prev)->Ok_0.0).len() <= entries_at(s, prev)->Ok_0.1,
        !plain_entries(s) ==> encode_entries(entries_at(s, prev)->Ok_0.0).len() < entries_at(
            s,
            prev,
        )->Ok_0.1,
    decreases s.len(), 3int,
{
    let entries = entries_at(s, prev)->Ok_0.0;
    lemma_str_at_bounds(s);
    match str_at(s) {
        Ok((key, n)) => {
            let middle = s.skip(n);
            lemma_str_shortens(s);
            lemma_value_at_bounds(middle);
            lemma_value_shortens(middle);
            let v = value_at(middle)->Ok_0.0;
            let m = value_at(middle)->Ok_0.1;
            let after = s.skip(n + m);
            lemma_entries_shorten(after, Some(key));
            let rest = entries_at(after, Some(key))->Ok_0.0;
            assert(entries == seq![(key, v)] + rest);
            assert(entries[0] == (key, v));
            assert(entries.skip(1) =~= rest);
        },
        Err(_) => {
            assert(entries =~= Seq::<(Seq<u8>, Value)>::empty());
        },
    }
}

/// Decoding a document and writing what was decoded gives the document back
/// byte for byte exactly where every length in it stands without a zero
/// before another digit.
pub proof fn lemma_encode_decoded_exactly(s: Seq<u8>)
    requires
        decoded(s) is Some,
    ensures
        encode(decoded(s)->Some_0) == s <==> plain_value(s),
{
    if plain_value(s) {
        lemma_encode_decoded(s);
    } else {
        lemma_value_shortens(s);
    }
}

/// Decoding a document and writing what was decoded gives the document back
/// byte for byte, where every length in it stands without a zero before
/// another digit.
pub proof fn lemma_encode_decoded(s: Seq<u8>)
    requires
        decoded(s) is Some,
        plain_value(s),
    ensures
        encode(decoded(s)->Some_0) == s,
{
    lemma_read_encodes(s);
    assert(s.subrange(0, s.len() as int) =~= s);
}

/// Looking up a key behind the first entry is looking it up in the entries
/// behind the first.
pub proof fn lemma_lookup_skip(entries: Seq<(Seq<u8>, Value)>, key: Seq<u8>, i: int)
    requires
        entries.len() > 0,
        0 <= i,
    ensures
        lookup_from(entries, key, i + 1) == lookup_from(entries.skip(1), key, i),
    decreases entries.len() - i,
{
    if i + 1 < entries.len() {
        assert(entries.skip(1)[i] == entries[i + 1]);
        if entries[i + 1].0 != key {
            lemma_lookup_skip(entries, key, i + 1);
        }
    }
}

/// Where the entries that start at offset `pos` of `s` are read, the value of
/// the first entry with the key `key` lies exactly where `span_from` says:
/// a read that starts there gives that value and ends where the span ends.
/// Where no entry has the key, there is no span.
pub proof fn lemma_span_from(s: Seq<u8>, pos: int, prev: Option<Seq<u8>>, key: Seq<u8>)
    requires
        0 <= pos <= s.len(),
        entries_at(s.skip(pos), prev) is Ok,
    ensures
        match lookup(entries_at(s.skip(pos), prev)->Ok_0.0, key) {
            Some(v) => span_from(s, pos, key) matches Some((lo, hi)) && pos <= lo <= hi <= s.len()
                && value_at(s.skip(lo)) == Ok::<(Value, int), TokError>((v, hi - lo)),
            None => span_from(s, pos, key) is None,
        },
    decreases s.len() - pos,
{
    let here = s.skip(pos);
    let entries = entries_at(here, prev)->Ok_0.0;
    lemma_str_at_bounds(here);
    match str_at(here) {
        Ok((k, n)) => {
            assert(here.skip(n) =~= s.skip(pos + n));
            lemma_value_at_bounds(s.skip(pos + n));
            let v = value_at(s.skip(pos + n))->Ok_0.0;
            let m = value_at(s.skip(pos + n))->Ok_0.1;
            assert(here.skip(n + m) =~= s.skip(pos + n + m));
            let rest = entries_at(s.skip(pos + n + m), Some(k))->Ok_0.0;
            assert(entries == seq![(k, v)] + rest);
            assert(entries[0] == (k, v));
            assert(entries.skip(1) =~= rest);
            if k != key {
                lemma_span_from(s, pos + n + m, Some(k), key);
                lemma_lookup_skip(entries, key, 0);
            }
        },
        Err(_) => {
            assert(entries =~= Seq::<(Seq<u8>, Value)>::empty());
        },
    }
}

/// In a document that is a dictionary, the span of a key is exactly the
/// serialised value of the first entry of the outermost dictionary that has
/// the key: a read that starts at the span's start gives that value and ends
/// at the span's end. A key of an inner dictionary has no span of its own.
pub proof fn lemma_value_span(s: Seq<u8>, key: Seq<u8>)
    requires
        decoded(s) is Some,
        decoded(s)->Some_0 is Dict,
    ensures
        match lookup(decoded(s)->Some_0->Dict_0, key) {
            Some(v) => value_span(s, key) matches Some((lo, hi)) && 1 <= lo <= hi < s.len()
                && value_at(s.skip(lo)) == Ok::<(Value, int), TokError>((v, hi - lo)),
            None => value_span(s, key) is None,
        },
{
    lemma_value_at_bounds(s);
    assert(s[0] == DICT);
    lemma_entries_at_bounds(s.skip(1), None);
    lemma_span_from(s, 1, None, key);
    lemma_span_bounds(s, 1, None, key);
}

/// A span lies within the entries that are read.
pub proof fn lemma_span_bounds(s: Seq<u8>, pos: int, prev: Option<Seq<u8>>, key: Seq<u8>)
    requires
        0 <= pos <= s.len(),
        entries_at(s.skip(pos), prev) is Ok,
    ensures
        span_from(s, pos, key) matches Some((lo, hi)) ==> hi <= pos + entries_at(
            s.skip(pos),
            prev,
        )->Ok_0.1,
    decreases s.len() - pos,
{
    let here = s.skip(pos);
    lemma_str_at_bounds(here);
    match str_at(here) {
        Ok((k, n)) => {
            assert(here.skip(n) =~= s.skip(pos + n));
            lemma_value_at_bounds(s.skip(pos + n));
            let m = value_at(s.skip(pos + n))->Ok_0.1;
            assert(here.skip(n + m) =~= s.skip(pos + n + m));
            lemma_entries_at_bounds(s.skip(pos + n + m), Some(k));
            if k != key {
                lemma_span_bounds(s, pos + n + m, Some(k), key);
            }
        },
        Err(_) => {},
    }
}

/// Values written one after another, and one more after them.
pub proof fn lemma_encode_items_push(items: Seq<Value>, v: Value)
    ensures
        encode_items(items.push(v)) == encode_items(items) + encode(v),
    decreases items.len(),
{
    let all = items.push(v);
    if items.len() == 0 {
        assert(all.skip(1) =~= Seq::<Value>::empty());
        assert(encode_items(Seq::<Value>::empty()) =~= Seq::<u8>::empty());
        assert(encode_items(all) =~= encode(v));
        assert(encode_items(items) + encode(v) =~= encode(v));
    } else {
        lemma_encode_items_push(items.skip(1), v);
        assert(all.skip(1) =~= items.skip(1).push(v));
        assert(encode_items(all) =~= encode_items(items) + encode(v));
    }
}

/// Entries written one after another, and one more after them.
pub proof fn lemma_encode_entries_push(entries: Seq<(Seq<u8>, Value)>, key: Seq<u8>, v: Value)
    ensures
        encode_entries(entries.push((key, v))) == encode_entries(entries) + encode_str(key)
            + encode(v),
    decreases entries.len(),
{
    let all = entries.push((key, v));
    if entries.len() == 0 {
        assert(all.skip(1) =~= Seq::<(Seq<u8>, Value)>::empty());
        assert(encode_entries(Seq::<(Seq<u8>, Value)>::empty()) =~= Seq::<u8>::empty());
        assert(encode_entries(all) =~= encode_str(key) + encode(v));
        assert(encode_entries(entries) + encode_str(key) + encode(v) =~= encode_str(key) + encode(
            v,
        ));
    } else {
        lemma_encode_entries_push(entries.skip(1), key, v);
        assert(all.skip(1) =~= entries.skip(1).push((key, v)));
        assert(encode_entries(all) =~= encode_entries(entries) + encode_str(key) + encode(v));
    }
}

/// Writes `n` in decimal digits at the end of `out`.
pub fn push_digits(out: &mut Vec<u8>, n: u64)
    ensures
        final(out)@ == old(out)@ + dec_digits(n as nat),
    decreases n,
{
    if n >= 10 {
        push_digits(out, n / 10);
    }
    out.push(ZERO + (n % 10) as u8);
    proof {
        if n >= 10 {
            assert(out@ =~= old(out)@ + dec_digits(n as nat));
        } else {
            assert(out@ =~= old(out)@ + dec_digits(n as nat));
        }
    }
}

/// Writes a byte string at the end of `out`.
pub fn push_str(out: &mut Vec<u8>, bytes: &[u8])
    ensures
        final(out)@ == old(out)@ + encode_str(bytes@),
{
    push_digits(out, bytes.len() as u64);
    out.push(COLON);
    out.extend_from_slice(bytes);
    assert(out@ =~= old(out)@ + encode_str(bytes@));
}

/// Writes an integer at the end of `out`.
pub fn push_int(out: &mut Vec<u8>, n: i64)
    ensures
        final(out)@ == old(out)@ + encode_int(n),
{
    out.push(INT);
    if n < 0 {
        out.push(MINUS);
        let magnitude: u64 = if n == i64::MIN {
            9223372036854775808
        } else {
            (-n) as u64
        };
        push_digits(out, magnitude);
    } else {
        push_digits(out, n as u64);
    }
    out.push(END);
    assert(out@ =~= old(out)@ + encode_int(n));
}

impl<'a> Bencode<'a> {
    /// Writes the value at the end of `out`.
    pub fn write(&self, out: &mut Vec<u8>)
        ensures
            final(out)@ == old(out)@ + encode(self@),
        decreases self,
    {
        match self {
            Bencode::Num(n) => {
                push_int(out, *n);
            },
            Bencode::Str(bytes) => {
                push_str(out, bytes);
            },
            Bencode::List(items) => {
                out.push(LIST);
                let ghost views = list_view(items@);
                proof {
                    lemma_list_view(items@);
                    assert(views.subrange(0, 0) =~= Seq::<Value>::empty());
                    assert(out@ =~= old(out)@ + seq![LIST] + encode_items(views.subrange(0, 0)));
                }
                let mut i: usize = 0;
                while i < items.len()
                    invariant
                        i <= items@.len(),
                        self == Bencode::List(*items),
                        views == list_view(items@),
                        views.len() == items@.len(),
                        forall|j: int| 0 <= j < items@.len() ==> (#[trigger] views[j]) == items@[j]@,
                        out@ == old(out)@ + seq![LIST] + encode_items(views.subrange(0, i as int)),
                    decreases items@.len() - i,
                {
                    assert(self->List_0 == *items);
                    assert(decreases_to!(*self => self->List_0));
                    assert(decreases_to!(self->List_0 => self->List_0[i as int]));
                    items[i].write(out);
                    proof {
                        lemma_encode_items_push(views.subrange(0, i as int), views[i as int]);
                        assert(views.subrange(0, i as int).push(views[i as int]) =~= views.subrange(
                            0,
                            i + 1,
                        ));
                        assert(out@ =~= old(out)@ + seq![LIST] + encode_items(
                            views.subrange(0, i + 1),
                        ));
                    }
                    i += 1;
                }
                out.push(END);
                proof {
                    assert(views.subrange(0, i as int) =~= views);
                    assert(out@ =~= old(out)@ + encode(self@));
                }
            },
            Bencode::Dict(entries) => {
                out.push(DICT);
                let ghost views = dict_view(entries@);
                proof {
                    lemma_dict_view(entries@);
                    assert(views.subrange(0, 0) =~= Seq::<(Seq<u8>, Value)>::empty());
                    assert(out@ =~= old(out)@ + seq![DICT] + encode_entries(views.subrange(0, 0)));
                }
                let mut i: usize = 0;
                while i < entries.len()
                    invariant
                        i <= entries@.len(),
                        self == Bencode::Dict(*entries),
                        views == dict_view(entries@),
                        views.len() == entries@.len(),
                        forall|j: int|
                            0 <= j < entries@.len() ==> (#[trigger] views[j]) == (
                                entries@[j].0@,
                                entries@[j].1@,
                            ),
                        out@ == old(out)@ + seq![DICT] + encode_entries(
                            views.subrange(0, i as int),
                        ),
                    decreases entries@.len() - i,
                {
                    push_str(out, entries[i].0);
                    assert(self->Dict_0 == *entries);
                    assert(decreases_to!(*self => self->Dict_0));
                    assert(decreases_to!(self->Dict_0 => self->Dict_0[i as int]));
                    assert(decreases_to!(self->Dict_0[i as int] => self->Dict_0[i as int].1));
                    entries[i].1.write(out);
                    proof {
                        lemma_encode_entries_push(
                            views.subrange(0, i as int),
                            views[i as int].0,
                            views[i as int].1,
                        );
                        assert(views.subrange(0, i as int).push(views[i as int])
                            =~= views.subrange(0, i + 1));
                        assert(out@ =~= old(out)@ + seq![DICT] + encode_entries(
                            views.subrange(0, i + 1),
                        ));
                    }
                    i += 1;
                }
                out.push(END);
                proof {
                    assert(views.subrange(0, i as int) =~= views);
                    assert(out@ =~= old(out)@ + encode(self@));
                }
            },
        }
    }

    /// The value as it is written.
    pub fn encode(&self) -> (r: Vec<u8>)
        ensures
            r@ == encode(self@),
    {
        let mut out: Vec<u8> = Vec::new();
        self.write(&mut out);
        assert(Seq::<u8>::empty() + encode(self@) =~= encode(self@));
        out
    }
}

} // verus!
