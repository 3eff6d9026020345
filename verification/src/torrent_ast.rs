//! The Bencode tokenizer and the torrent descriptor as it stands in the
//! document.

use vstd::prelude::*;
use vstd::slice::slice_subrange;
use vstd::string::StringSliceAdditionalSpecFns;
use vstd::utf8::valid_utf8;

use crate::canonical::{lemma_decoded_well_formed, well_formed};
use crate::bencode::{
    COLON, DICT, END, INT, LIST, MINUS, NINE, ZERO, Value, after, dec_value, decoded, dict_at,
    digits_end, entries_at, int_at, is_digit, items_at, lemma_str_at_bounds,
    lemma_value_at_bounds, lex_lt, lex_lt_from, list_at, shaped, span_from, str_at, value_at,
    value_span,
};
use crate::descriptor::{
    FileDoc, HASH_LEN, InfoDoc, MAX_PIECES, TorrentDoc, bytes_of, field, file_doc, files_of,
    info_doc, info_valid, lookup, lookup_from, num_of, text_lists_of, text_of, texts_of,
    torrent_doc,
};
use crate::wrappers::{sha1, sha1_digest, utf8_text};

verus! {

/// Why a run of bytes is not the Bencode item that was asked for.
#[derive(Debug, PartialEq, Eq, Clone, Copy)]
pub enum TokError {
    /// The first byte opens no value, or there is no byte.
    BencInvalidIdent,
    /// The first byte is no digit.
    StrInvalidIdent,
    /// There is no byte where a string should start.
    StrUnexpectedEOF,
    /// The length runs to the end of the input.
    StrLenEOF,
    /// Not given by the tokenizer: a length of any size is read, and is too
    /// long where the input is shorter.
    StrLenParseErr,
    /// Not given by the tokenizer, for the same reason.
    StrEndOverflow,
    /// Fewer bytes are left than the length says.
    StrTooShort,
    /// The byte behind the length is no colon.
    StrInvalidSep,
    /// Behind `i` stands neither `0e`, nor a digit other than zero, with or
    /// without a `-` before it.
    IntInvalidEncoding,
    /// The first byte is no `i`.
    IntInvalidIdent,
    /// There is no byte where an integer should start.
    IntUnexpectedEOF,
    /// The digits run to the end of the input.
    IntLenEOF,
    /// The byte behind the digits is no `e`.
    IntExpectedEnd,
    /// The number does not fit in 64 bits.
    IntLenParseErr,
    /// The first byte is no `l`.
    ListInvalidIdent,
    /// There is no byte where a list should start.
    ListUnexpectedEOF,
    /// The byte behind the items is no `e`.
    ListExpectedEnd,
    /// An item of the list is no value.
    ListValParseErr,
    /// The first byte is no `d`.
    DictInvalidIdent,
    /// There is no byte where a dictionary should start.
    DictUnexpectedEOF,
    /// A key is no byte string, or the input ends where a key or the closing
    /// `e` should stand.
    DictExpectedStrKey,
    /// A key does not come after the key before it.
    DictKeysUnsorted,
    /// The value of an entry is no value.
    DictValParseErr,
    /// The byte behind the entries is no `e`.
    DictExpectedEnd,
}

/// A decoded Bencode value, borrowing its strings from the document.
#[derive(Debug, PartialEq)]
pub enum Bencode<'a> {
    Num(i64),
    Str(&'a [u8]),
    List(Vec<Bencode<'a>>),
    /// The entries in the order of the document; in a document that is
    /// decoded the keys ascend.
    Dict(Vec<(&'a [u8], Bencode<'a>)>),
}

impl<'a> View for Bencode<'a> {
    type V = Value;

    open spec fn view(&self) -> Value
        decreases self,
    {
        match self {
            Bencode::Num(n) => Value::Num(*n),
            Bencode::Str(s) => Value::Str(s@),
            Bencode::List(l) => Value::List(list_view(l@)),
            Bencode::Dict(d) => Value::Dict(dict_view(d@)),
        }
    }
}

impl<'a> Bencode<'a> {
    /// Decodes a document: one value that takes up all of `input`. The
    /// keys of every dictionary in it ascend strictly.
    pub fn decode(input: &'a [u8]) -> (r: Option<Bencode<'a>>)
        ensures
            match r {
                Some(b) => decoded(input@) == Some(b@) && well_formed(b@),
                None => decoded(input@) is None,
            },
    {
        let mut tok = BencTokenizer { input, buildCollections: true };
        proof {
            lemma_value_at_bounds(input@);
            lemma_decoded_well_formed(input@);
        }
        match tok.nextToken() {
            Ok(benc) => {
                if tok.input.len() != 0 {
                    None
                } else {
                    Some(benc)
                }
            },
            Err(_) => None,
        }
    }

    /// The serialised bytes of the value that the outermost dictionary of
    /// `input` holds under `key`, its own markers included.
    #[verifier::loop_isolation(false)]
    pub fn raw_value(input: &'a [u8], key: &[u8]) -> (r: Option<&'a [u8]>)
        ensures
            match r {
                Some(b) => value_span(input@, key@) matches Some((lo, hi)) && 0 <= lo <= hi
                    <= input@.len() && b@ == input@.subrange(lo, hi),
                None => value_span(input@, key@) is None,
            },
    {
        let len = input.len();
        if len == 0 || input[0] != DICT {
            return None;
        }
        let mut tok = BencTokenizer { input: slice_subrange(input, 1, len), buildCollections: false };
        let ghost mut pos: int = 1;
        loop
            invariant
                1 <= pos <= len,
                tok.input@ == input@.skip(pos),
                span_from(input@, 1, key@) == span_from(input@, pos, key@),
            decreases len - pos,
        {
            proof {
                lemma_str_at_bounds(input@.skip(pos));
            }
            let k = match tok.parseStr() {
                Ok(k) => k,
                Err(_) => {
                    return None;
                },
            };
            let ghost n = str_at(input@.skip(pos))->Ok_0.1;
            proof {
                assert(input@.skip(pos).skip(n) =~= input@.skip(pos + n));
                lemma_value_at_bounds(input@.skip(pos + n));
            }
            let value = tok.input;
            match tok.nextToken() {
                Ok(_) => {},
                Err(_) => {
                    return None;
                },
            }
            let ghost m = value_at(input@.skip(pos + n))->Ok_0.1;
            proof {
                assert(input@.skip(pos + n).skip(m) =~= input@.skip(pos + n + m));
            }
            if same_bytes(k, key) {
                let used = value.len() - tok.input.len();
                let bytes = slice_subrange(value, 0, used);
                proof {
                    assert(bytes@ =~= input@.subrange(pos + n, pos + n + m));
                }
                return Some(bytes);
            }
            proof {
                pos = pos + n + m;
            }
        }
    }

    /// The SHA-1 digest of the serialised bytes of the value that the
    /// outermost dictionary of `input` holds under `key`.
    pub fn hash_dict(input: &[u8], key: &str) -> (r: Option<[u8; 20]>)
        ensures
            match r {
                Some(h) => value_span(input@, key.spec_bytes()) matches Some((lo, hi)) && h@
                    == sha1_digest(input@.subrange(lo, hi)),
                None => value_span(input@, key.spec_bytes()) is None,
            },
    {
        match Bencode::raw_value(input, key.as_bytes()) {
            Some(bytes) => Some(sha1(bytes)),
            None => None,
        }
    }

    /// The text of a byte string that is well-formed UTF-8.
    pub fn str(self) -> (r: Option<&'a str>)
        ensures
            match r {
                Some(s) => self matches Bencode::Str(b) && valid_utf8(b@) && s.spec_bytes() == b@,
                None => !(self matches Bencode::Str(b) && valid_utf8(b@)),
            },
    {
        match self.bstr() {
            Some(b) => utf8_text(b),
            None => None,
        }
    }

    /// The bytes of a byte string.
    pub fn bstr(self) -> (r: Option<&'a [u8]>)
        ensures
            r == (match self {
                Bencode::Str(b) => Some(b),
                _ => None,
            }),
    {
        match self {
            Bencode::Str(b) => Some(b),
            _ => None,
        }
    }

    /// The number of an integer.
    pub fn num(self) -> (r: Option<i64>)
        ensures
            r == (match self {
                Bencode::Num(n) => Some(n),
                _ => None,
            }),
    {
        match self {
            Bencode::Num(n) => Some(n),
            _ => None,
        }
    }

    /// The items of a list.
    pub fn list(self) -> (r: Option<Vec<Bencode<'a>>>)
        ensures
            r == (match self {
                Bencode::List(l) => Some(l),
                _ => None,
            }),
    {
        match self {
            Bencode::List(l) => Some(l),
            _ => None,
        }
    }

    /// The text of a byte string that is well-formed UTF-8, the value left
    /// in place.
    pub fn as_text(&self) -> (r: Option<&'a str>)
        ensures
            match r {
                Some(s) => text_of(self@) == Some(s.spec_bytes()),
                None => text_of(self@) is None,
            },
    {
        match self {
            Bencode::Str(b) => utf8_text(b),
            _ => None,
        }
    }

    /// The bytes of a byte string, the value left in place.
    pub fn as_bytes(&self) -> (r: Option<&'a [u8]>)
        ensures
            match r {
                Some(b) => bytes_of(self@) == Some(b@),
                None => bytes_of(self@) is None,
            },
    {
        match self {
            Bencode::Str(b) => Some(b),
            _ => None,
        }
    }

    /// The number of an integer, the value left in place.
    pub fn as_int(&self) -> (r: Option<i64>)
        ensures
            r == num_of(self@),
    {
        match self {
            Bencode::Num(n) => Some(*n),
            _ => None,
        }
    }

    /// The items of a list, the value left in place.
    pub fn as_list(&self) -> (r: Option<&Vec<Bencode<'a>>>)
        ensures
            match r {
                Some(l) => *self == Bencode::List(*l) && self@ == Value::List(list_view(l@)),
                None => !(self is List) && !(self@ is List),
            },
    {
        match self {
            Bencode::List(l) => Some(l),
            _ => None,
        }
    }

    /// The entries of a dictionary, the value left in place.
    pub fn as_dict(&self) -> (r: Option<&Vec<(&'a [u8], Bencode<'a>)>>)
        ensures
            match r {
                Some(d) => *self == Bencode::Dict(*d) && self@ == Value::Dict(dict_view(d@)),
                None => !(self is Dict) && !(self@ is Dict),
            },
    {
        match self {
            Bencode::Dict(d) => Some(d),
            _ => None,
        }
    }

    /// The value that a dictionary holds under `key`.
    pub fn get(&self, key: &[u8]) -> (r: Option<&Bencode<'a>>)
        ensures
            match r {
                Some(b) => field(self@, key@) == Some(b@),
                None => field(self@, key@) is None,
            },
    {
        let entries = match self {
            Bencode::Dict(d) => d,
            _ => {
                return None;
            },
        };
        proof {
            lemma_dict_view(entries@);
        }
        let mut i: usize = 0;
        while i < entries.len()
            invariant
                i <= entries@.len(),
                self@ == Value::Dict(dict_view(entries@)),
                dict_view(entries@).len() == entries@.len(),
                forall|j: int|
                    0 <= j < entries@.len() ==> (#[trigger] dict_view(entries@)[j]) == (
                        entries@[j].0@,
                        entries@[j].1@,
                    ),
                lookup(dict_view(entries@), key@) == lookup_from(
                    dict_view(entries@),
                    key@,
                    i as int,
                ),
            decreases entries@.len() - i,
        {
            if same_bytes(entries[i].0, key) {
                return Some(&entries[i].1);
            }
            i += 1;
        }
        None
    }

    /// Applies `op` to the items of a list, in order and up to the first
    /// item for which it gives nothing; gives what it gave for each item, or
    /// nothing where the value is no list or `op` gave nothing for an item.
    pub fn map_list<U>(self, op: impl Fn(Bencode<'a>) -> Option<U>) -> (r: Option<Vec<U>>)
        requires
            self matches Bencode::List(l) ==> forall|i: int|
                0 <= i < l@.len() ==> call_requires(op, (#[trigger] l@[i],)),
        ensures
            match r {
                Some(us) => self matches Bencode::List(l) && us@.len() == l@.len() && forall|
                    i: int,
                |
                    0 <= i < l@.len() ==> call_ensures(op, (l@[i],), Some(#[trigger] us@[i])),
                None => self matches Bencode::List(l) ==> exists|i: int|
                    0 <= i < l@.len() && call_ensures(op, (#[trigger] l@[i],), None::<U>),
            },
    {
        let list = match self {
            Bencode::List(l) => l,
            _ => {
                return None;
            },
        };
        let ghost items = list@;
        let mut out: Vec<U> = Vec::new();
        for item in it: list
            invariant
                self matches Bencode::List(l) && l@ == items,
                it.seq() == items,
                out@.len() == it.index(),
                forall|i: int| 0 <= i < items.len() ==> call_requires(op, (#[trigger] items[i],)),
                forall|i: int|
                    0 <= i < out@.len() ==> call_ensures(op, (items[i],), Some(#[trigger] out@[i])),
        {
            let ghost at = out@.len() as int;
            assert(items[at] == item);
            match op(item) {
                Some(u) => {
                    out.push(u);
                },
                None => {
                    assert(call_ensures(op, (items[at],), None::<U>));
                    return None;
                },
            }
        }
        Some(out)
    }

    /// The entries of a dictionary.
    pub fn dict(self) -> (r: Option<Vec<(&'a [u8], Bencode<'a>)>>)
        ensures
            r == (match self {
                Bencode::Dict(d) => Some(d),
                _ => None,
            }),
    {
        match self {
            Bencode::Dict(d) => Some(d),
            _ => None,
        }
    }
}

/// The texts of a list all of whose items are text.
pub fn texts<'a>(v: &Bencode<'a>) -> (r: Option<Vec<&'a str>>)
    ensures
        match r {
            Some(ts) => texts_of(v@) == Some(strs_view(ts@)),
            None => texts_of(v@) is None,
        },
{
    let items = match v.as_list() {
        Some(l) => l,
        None => {
            return None;
        },
    };
    proof {
        lemma_list_view(items@);
    }
    let ghost vs = list_view(items@);
    let mut out: Vec<&'a str> = Vec::new();
    let mut i: usize = 0;
    while i < items.len()
        invariant
            i <= items@.len(),
            out@.len() == i,
            v@ == Value::List(vs),
            vs.len() == items@.len(),
            forall|j: int| 0 <= j < items@.len() ==> (#[trigger] vs[j]) == items@[j]@,
            forall|j: int| 0 <= j < i ==> text_of(#[trigger] vs[j]) == Some(out@[j].spec_bytes()),
        decreases items@.len() - i,
    {
        match items[i].as_text() {
            Some(t) => {
                out.push(t);
            },
            None => {
                assert(text_of(vs[i as int]) is None);
                return None;
            },
        }
        i += 1;
    }
    assert(texts_of(v@)->Some_0 =~= strs_view(out@));
    Some(out)
}

/// The lists of texts of a list all of whose items are lists of text.
pub fn text_lists<'a>(v: &Bencode<'a>) -> (r: Option<Vec<Vec<&'a str>>>)
    ensures
        match r {
            Some(ls) => text_lists_of(v@) == Some(str_lists_view(ls@)),
            None => text_lists_of(v@) is None,
        },
{
    let items = match v.as_list() {
        Some(l) => l,
        None => {
            return None;
        },
    };
    proof {
        lemma_list_view(items@);
    }
    let ghost vs = list_view(items@);
    let mut out: Vec<Vec<&'a str>> = Vec::new();
    let mut i: usize = 0;
    while i < items.len()
        invariant
            i <= items@.len(),
            out@.len() == i,
            v@ == Value::List(vs),
            vs.len() == items@.len(),
            forall|j: int| 0 <= j < items@.len() ==> (#[trigger] vs[j]) == items@[j]@,
            forall|j: int| 0 <= j < i ==> texts_of(#[trigger] vs[j]) == Some(strs_view(out@[j]@)),
        decreases items@.len() - i,
    {
        match texts(&items[i]) {
            Some(t) => {
                out.push(t);
            },
            None => {
                assert(texts_of(vs[i as int]) is None);
                return None;
            },
        }
        i += 1;
    }
    assert(text_lists_of(v@)->Some_0 =~= str_lists_view(out@));
    Some(out)
}

/// Whether two slices hold the same bytes.
pub fn same_bytes(a: &[u8], b: &[u8]) -> (r: bool)
    ensures
        r == (a@ == b@),
{
    if a.len() != b.len() {
        return false;
    }
    let mut i: usize = 0;
    while i < a.len()
        invariant
            i <= a@.len(),
            a@.len() == b@.len(),
            forall|j: int| 0 <= j < i ==> a@[j] == b@[j],
        decreases a@.len() - i,
    {
        if a[i] != b[i] {
            return false;
        }
        i += 1;
    }
    assert(a@ =~= b@);
    true
}

impl<'a> Clone for Bencode<'a> {
    fn clone(&self) -> (r: Self)
        ensures
            r@ == self@,
        decreases self,
    {
        match self {
            Bencode::Num(n) => Bencode::Num(*n),
            Bencode::Str(bytes) => Bencode::Str(bytes),
            Bencode::List(items) => {
                let mut out: Vec<Bencode<'a>> = Vec::new();
                let mut i: usize = 0;
                proof {
                    lemma_list_view(items@);
                }
                while i < items.len()
                    invariant
                        i <= items@.len(),
                        self == Bencode::List(*items),
                        out@.len() == i,
                        forall|j: int| 0 <= j < i ==> (#[trigger] out@[j])@ == items@[j]@,
                    decreases items@.len() - i,
                {
                    assert(self->List_0 == *items);
                    assert(decreases_to!(*self => self->List_0));
                    assert(decreases_to!(self->List_0 => self->List_0[i as int]));
                    out.push(items[i].clone());
                    i += 1;
                }
                proof {
                    lemma_list_view(items@);
                    lemma_list_view(out@);
                    assert(list_view(out@) =~= list_view(items@));
                }
                Bencode::List(out)
            },
            Bencode::Dict(entries) => {
                let mut out: Vec<(&'a [u8], Bencode<'a>)> = Vec::new();
                let mut i: usize = 0;
                while i < entries.len()
                    invariant
                        i <= entries@.len(),
                        self == Bencode::Dict(*entries),
                        out@.len() == i,
                        forall|j: int|
                            0 <= j < i ==> (#[trigger] out@[j]).0@ == entries@[j].0@ && out@[j].1@
                                == entries@[j].1@,
                    decreases entries@.len() - i,
                {
                    assert(self->Dict_0 == *entries);
                    assert(decreases_to!(*self => self->Dict_0));
                    assert(decreases_to!(self->Dict_0 => self->Dict_0[i as int]));
                    assert(decreases_to!(self->Dict_0[i as int] => self->Dict_0[i as int].1));
                    out.push((entries[i].0, entries[i].1.clone()));
                    i += 1;
                }
                proof {
                    lemma_dict_view(entries@);
                    lemma_dict_view(out@);
                    assert(dict_view(out@) =~= dict_view(entries@));
                }
                Bencode::Dict(out)
            },
        }
    }
}

/// What a vector of values denotes, item by item.
pub open spec fn list_view<'a>(l: Seq<Bencode<'a>>) -> Seq<Value>
    decreases l,
{
    if l.len() == 0 {
        Seq::empty()
    } else {
        list_view(l.drop_last()).push(l.last()@)
    }
}

/// What a vector of entries denotes, entry by entry.
pub open spec fn dict_view<'a>(d: Seq<(&'a [u8], Bencode<'a>)>) -> Seq<(Seq<u8>, Value)>
    decreases d,
{
    if d.len() == 0 {
        Seq::empty()
    } else {
        dict_view(d.drop_last()).push((d.last().0@, d.last().1@))
    }
}

/// The view of a vector of values has its length and, at each place, the view
/// of the value there.
pub proof fn lemma_list_view<'a>(l: Seq<Bencode<'a>>)
    ensures
        list_view(l).len() == l.len(),
        forall|i: int| 0 <= i < l.len() ==> (#[trigger] list_view(l)[i]) == l[i]@,
    decreases l.len(),
{
    reveal_with_fuel(list_view, 2);
    if l.len() > 0 {
        lemma_list_view(l.drop_last());
    }
}

/// The view of a vector of entries has its length and, at each place, the view
/// of the entry there.
pub proof fn lemma_dict_view<'a>(d: Seq<(&'a [u8], Bencode<'a>)>)
    ensures
        dict_view(d).len() == d.len(),
        forall|i: int|
            0 <= i < d.len() ==> (#[trigger] dict_view(d)[i]) == (d[i].0@, d[i].1@),
    decreases d.len(),
{
    reveal_with_fuel(dict_view, 2);
    if d.len() > 0 {
        lemma_dict_view(d.drop_last());
    }
}

/// A string of digits is worth no less than any shorter start of it.
pub proof fn lemma_dec_value_grows(s: Seq<u8>, a: int, j: int, k: int)
    requires
        0 <= a <= j <= k <= s.len(),
    ensures
        dec_value(s.subrange(a, j)) <= dec_value(s.subrange(a, k)),
    decreases k - j,
{
    if j < k {
        lemma_dec_value_grows(s, a, j, k - 1);
        assert(s.subrange(a, k).drop_last() =~= s.subrange(a, k - 1));
    }
}

/// One turn of reading a list's items: what is read from offset `pos` on, after
/// the items `acc`, is the next item and then what is read after it.
pub proof fn lemma_items_step(s: Seq<u8>, pos: int, acc: Seq<Value>)
    requires
        0 <= pos <= s.len(),
    ensures
        match value_at(s.skip(pos)) {
            Ok((v, n)) => after(acc, pos - 1, items_at(s.skip(pos))) == after(
                acc.push(v),
                pos + n - 1,
                items_at(s.skip(pos + n)),
            ),
            Err(TokError::BencInvalidIdent) => items_at(s.skip(pos)) == Ok::<
                (Seq<Value>, int),
                TokError,
            >((Seq::empty(), 0)),
            Err(_) => items_at(s.skip(pos)) == Err::<(Seq<Value>, int), TokError>(
                TokError::ListValParseErr,
            ),
        },
{
    reveal_with_fuel(items_at, 2);
    lemma_value_at_bounds(s.skip(pos));
    if let Ok((v, n)) = value_at(s.skip(pos)) {
        assert(s.skip(pos).skip(n) =~= s.skip(pos + n));
        if let Ok((rest, m)) = items_at(s.skip(pos + n)) {
            assert(acc + (seq![v] + rest) =~= acc.push(v) + rest);
        }
    }
}

/// One turn of reading a dictionary's entries: what is read from offset `pos`
/// on, after the entries `acc` and the key `last`, is the next entry and then
/// what is read after it.
pub proof fn lemma_entries_step(
    s: Seq<u8>,
    pos: int,
    acc: Seq<(Seq<u8>, Value)>,
    last: Option<Seq<u8>>,
)
    requires
        0 <= pos <= s.len(),
    ensures
        match str_at(s.skip(pos)) {
            Ok((key, n)) => if last is Some && !lex_lt(last->Some_0, key) {
                entries_at(s.skip(pos), last) == Err::<(Seq<(Seq<u8>, Value)>, int), TokError>(
                    TokError::DictKeysUnsorted,
                )
            } else {
                match value_at(s.skip(pos + n)) {
                    Ok((v, m)) => after(acc, pos - 1, entries_at(s.skip(pos), last)) == after(
                        acc.push((key, v)),
                        pos + n + m - 1,
                        entries_at(s.skip(pos + n + m), Some(key)),
                    ),
                    Err(_) => entries_at(s.skip(pos), last) == Err::<
                        (Seq<(Seq<u8>, Value)>, int),
                        TokError,
                    >(TokError::DictValParseErr),
                }
            },
            Err(TokError::StrInvalidIdent) => entries_at(s.skip(pos), last) == Ok::<
                (Seq<(Seq<u8>, Value)>, int),
                TokError,
            >((Seq::empty(), 0)),
            Err(_) => entries_at(s.skip(pos), last) == Err::<
                (Seq<(Seq<u8>, Value)>, int),
                TokError,
            >(TokError::DictExpectedStrKey),
        },
{
    reveal_with_fuel(entries_at, 2);
    lemma_str_at_bounds(s.skip(pos));
    if let Ok((key, n)) = str_at(s.skip(pos)) {
        assert(s.skip(pos).skip(n) =~= s.skip(pos + n));
        lemma_value_at_bounds(s.skip(pos + n));
        if let Ok((v, m)) = value_at(s.skip(pos + n)) {
            assert(s.skip(pos).skip(n + m) =~= s.skip(pos + n + m));
            if let Ok((rest, r)) = entries_at(s.skip(pos + n + m), Some(key)) {
                assert(acc + (seq![(key, v)] + rest) =~= acc.push((key, v)) + rest);
            }
        }
    }
}

/// Walks over the digits that start at `start`.
pub(crate) fn scan_digits(input: &[u8], start: usize) -> (k: usize)
    requires
        start <= input@.len(),
    ensures
        k == digits_end(input@, start as int),
        start <= k <= input@.len(),
        forall|i: int| start <= i < k ==> is_digit(#[trigger] input@[i]),
        k < input@.len() ==> !is_digit(input@[k as int]),
{
    let mut k: usize = start;
    while k < input.len() && ZERO <= input[k] && input[k] <= NINE
        invariant
            start <= k <= input@.len(),
            digits_end(input@, start as int) == digits_end(input@, k as int),
            forall|i: int| start <= i < k ==> is_digit(#[trigger] input@[i]),
        decreases input@.len() - k,
    {
        k += 1;
    }
    k
}

/// Whether `a` comes before `b` in byte-wise lexicographic order.
pub fn lex_less(a: &[u8], b: &[u8]) -> (r: bool)
    ensures
        r == lex_lt(a@, b@),
{
    let mut i: usize = 0;
    loop
        invariant
            i <= a@.len(),
            i <= b@.len(),
            lex_lt(a@, b@) == lex_lt_from(a@, b@, i as int),
        decreases a@.len() - i,
    {
        if i >= b.len() {
            return false;
        }
        if i >= a.len() {
            return true;
        }
        if a[i] != b[i] {
            return a[i] < b[i];
        }
        i += 1;
    }
}

/// The UTF-8 bytes of each text.
pub open spec fn strs_view(v: Seq<&str>) -> Seq<Seq<u8>> {
    Seq::new(v.len(), |i: int| v[i].spec_bytes())
}

/// The UTF-8 bytes of each text of each list.
pub open spec fn str_lists_view(v: Seq<Vec<&str>>) -> Seq<Seq<Seq<u8>>> {
    Seq::new(v.len(), |i: int| strs_view(v[i]@))
}

pub open spec fn opt_str_view(v: Option<&str>) -> Option<Seq<u8>> {
    match v {
        Some(s) => Some(s.spec_bytes()),
        None => None,
    }
}

/// A file of a multi-file torrent, as the document lists it.
#[derive(Debug, PartialEq)]
pub struct FileAST<'a> {
    pub path: Vec<&'a str>,
    pub length: i64,
    pub attr: Option<&'a str>,
}

impl<'a> View for FileAST<'a> {
    type V = FileDoc;

    open spec fn view(&self) -> FileDoc {
        FileDoc {
            path: strs_view(self.path@),
            length: self.length,
            attr: opt_str_view(self.attr),
        }
    }
}

pub open spec fn files_view(v: Seq<FileAST>) -> Seq<FileDoc> {
    Seq::new(v.len(), |i: int| v[i]@)
}

/// The `info` dictionary of a descriptor, as it stands in the document.
#[derive(Debug, PartialEq)]
pub struct InfoAST<'a> {
    pub pieceLength: i64,
    pub pieces: &'a [u8],
    pub private: Option<i64>,
    pub name: &'a str,
    /// The length of the one file; `length` and `files` exclude each other.
    pub length: Option<i64>,
    /// The files of a multi-file torrent.
    pub files: Option<Vec<FileAST<'a>>>,
}

impl<'a> View for InfoAST<'a> {
    type V = InfoDoc;

    open spec fn view(&self) -> InfoDoc {
        InfoDoc {
            piece_length: self.pieceLength,
            pieces: self.pieces@,
            private: self.private,
            name: self.name.spec_bytes(),
            length: self.length,
            files: match self.files {
                Some(fs) => Some(files_view(fs@)),
                None => None,
            },
        }
    }
}

/// A torrent descriptor, field for field as it stands in the document.
#[derive(Debug, PartialEq)]
pub struct TorrentAST<'a> {
    pub announce: &'a str,
    pub announceList: Option<Vec<Vec<&'a str>>>,
    pub info: InfoAST<'a>,
}

impl<'a> View for TorrentAST<'a> {
    type V = TorrentDoc;

    open spec fn view(&self) -> TorrentDoc {
        TorrentDoc {
            announce: self.announce.spec_bytes(),
            announce_list: match self.announceList {
                Some(ls) => Some(str_lists_view(ls@)),
                None => None,
            },
            info: self.info@,
        }
    }
}

impl<'a> FileAST<'a> {
    /// Reads one entry of `files`.
    pub fn new(benc: &Bencode<'a>) -> (r: Option<FileAST<'a>>)
        ensures
            match r {
                Some(f) => file_doc(benc@) == Some(f@),
                None => file_doc(benc@) is None,
            },
    {
        let path = match benc.get("path".as_bytes()) {
            Some(p) => match texts(p) {
                Some(p) => p,
                None => {
                    return None;
                },
            },
            None => {
                return None;
            },
        };
        let length = match benc.get("length".as_bytes()) {
            Some(n) => match n.as_int() {
                Some(n) => n,
                None => {
                    return None;
                },
            },
            None => {
                return None;
            },
        };
        let attr = match benc.get("attr".as_bytes()) {
            Some(a) => a.as_text(),
            None => None,
        };
        Some(FileAST { path, length, attr })
    }
}

/// The files of a list all of whose items are file entries.
pub fn files<'a>(v: &Bencode<'a>) -> (r: Option<Vec<FileAST<'a>>>)
    ensures
        match r {
            Some(fs) => files_of(v@) == Some(files_view(fs@)),
            None => files_of(v@) is None,
        },
{
    let items = match v.as_list() {
        Some(l) => l,
        None => {
            return None;
        },
    };
    proof {
        lemma_list_view(items@);
    }
    let ghost vs = list_view(items@);
    let mut out: Vec<FileAST<'a>> = Vec::new();
    let mut i: usize = 0;
    while i < items.len()
        invariant
            i <= items@.len(),
            out@.len() == i,
            v@ == Value::List(vs),
            vs.len() == items@.len(),
            forall|j: int| 0 <= j < items@.len() ==> (#[trigger] vs[j]) == items@[j]@,
            forall|j: int| 0 <= j < i ==> file_doc(#[trigger] vs[j]) == Some(out@[j]@),
        decreases items@.len() - i,
    {
        match FileAST::new(&items[i]) {
            Some(f) => {
                out.push(f);
            },
            None => {
                assert(file_doc(vs[i as int]) is None);
                return None;
            },
        }
        i += 1;
    }
    assert(files_of(v@)->Some_0 =~= files_view(out@));
    Some(out)
}

impl<'a> InfoAST<'a> {
    /// Reads the `info` dictionary.
    pub fn new(benc: &Bencode<'a>) -> (r: Option<InfoAST<'a>>)
        ensures
            match r {
                Some(info) => info_doc(benc@) == Some(info@),
                None => info_doc(benc@) is None,
            },
    {
        let name = match benc.get("name".as_bytes()) {
            Some(v) => match v.as_text() {
                Some(v) => v,
                None => {
                    return None;
                },
            },
            None => {
                return None;
            },
        };
        let pieces = match benc.get("pieces".as_bytes()) {
            Some(v) => match v.as_bytes() {
                Some(v) => v,
                None => {
                    return None;
                },
            },
            None => {
                return None;
            },
        };
        let pieceLength = match benc.get("piece length".as_bytes()) {
            Some(v) => match v.as_int() {
                Some(v) => v,
                None => {
                    return None;
                },
            },
            None => {
                return None;
            },
        };
        let length = match benc.get("length".as_bytes()) {
            Some(v) => v.as_int(),
            None => None,
        };
        let files = match benc.get("files".as_bytes()) {
            Some(v) => files(v),
            None => None,
        };
        let private = match benc.get("private".as_bytes()) {
            Some(v) => v.as_int(),
            None => None,
        };
        Some(InfoAST { pieceLength, pieces, private, name, length, files })
    }
}

impl<'a> TorrentAST<'a> {
    /// Decodes a descriptor and reads its fields off the document.
    pub fn decode(file: &'a [u8]) -> (r: Option<TorrentAST<'a>>)
        ensures
            match r {
                Some(t) => decoded(file@) matches Some(v) && torrent_doc(v) == Some(t@),
                None => !(decoded(file@) matches Some(v) && torrent_doc(v) is Some),
            },
            r matches Some(t) ==> t.info.pieces@.len() % 20 == 0,
    {
        let root = match Bencode::decode(file) {
            Some(b) => b,
            None => {
                return None;
            },
        };
        let info = match root.get("info".as_bytes()) {
            Some(v) => match InfoAST::new(v) {
                Some(v) => v,
                None => {
                    return None;
                },
            },
            None => {
                return None;
            },
        };
        let announce = match root.get("announce".as_bytes()) {
            Some(v) => match v.as_text() {
                Some(v) => v,
                None => {
                    return None;
                },
            },
            None => {
                return None;
            },
        };
        let announceList = match root.get("announce-list".as_bytes()) {
            Some(v) => text_lists(v),
            None => None,
        };
        TorrentAST { announce, announceList, info }.validate()
    }

    /// Keeps a descriptor whose `info` describes a torrent.
    pub fn validate(self) -> (r: Option<TorrentAST<'a>>)
        ensures
            r == (if info_valid(self.info@) {
                Some(self)
            } else {
                None
            }),
    {
        if self.info.pieces.len() % HASH_LEN != 0 {
            return None;
        }
        if (self.info.pieces.len() / HASH_LEN) as u64 > MAX_PIECES {
            return None;
        }
        match (&self.info.length, &self.info.files) {
            (Some(_), Some(_)) | (None, None) => {
                return None;
            },
            _ => (),
        };
        Some(self)
    }
}

/// Reads a pass through a document, one item at a time.
pub struct BencTokenizer<'a> {
    /// What is left to read.
    pub input: &'a [u8],
    /// Whether lists and dictionaries are built; without it they come back
    /// empty, the document checked all the same.
    pub buildCollections: bool,
}

impl<'a> BencTokenizer<'a> {
    /// Reads a byte string: a decimal length, a colon, and that many bytes.
    #[verifier::loop_isolation(false)]
    pub fn parseStr(&mut self) -> (r: Result<&'a [u8], TokError>)
        ensures
            final(self).buildCollections == old(self).buildCollections,
            match r {
                Ok(b) => str_at(old(self).input@) matches Ok((bytes, n)) && b@ == bytes
                    && final(self).input@ == old(self).input@.skip(n),
                Err(e) => str_at(old(self).input@) == Err::<(Seq<u8>, int), TokError>(e)
                    && final(self).input@ == old(self).input@,
            },
    {
        let input = self.input;
        let len = input.len();
        if len == 0 {
            return Err(TokError::StrUnexpectedEOF);
        }
        if !(ZERO <= input[0] && input[0] <= NINE) {
            return Err(TokError::StrInvalidIdent);
        }
        let k = scan_digits(input, 0);
        if k >= len {
            return Err(TokError::StrLenEOF);
        }
        let avail: usize = len - k - 1;
        let mut n: usize = 0;
        let mut j: usize = 0;
        while j < k
            invariant
                0 <= j <= k < len,
                len == input@.len(),
                avail == len - k - 1,
                n == dec_value(input@.subrange(0, j as int)),
                n <= avail,
                forall|i: int| 0 <= i < k ==> is_digit(#[trigger] input@[i]),
            decreases k - j,
        {
            let d: usize = (input[j] - ZERO) as usize;
            proof {
                assert(input@.subrange(0, j + 1).drop_last() =~= input@.subrange(0, j as int));
                lemma_dec_value_grows(input@, 0, j + 1, k as int);
            }
            if n > avail / 10 {
                return Err(TokError::StrTooShort);
            }
            let t: usize = n * 10;
            if d > avail - t {
                return Err(TokError::StrTooShort);
            }
            n = t + d;
            j += 1;
        }
        if input[k] != COLON {
            return Err(TokError::StrInvalidSep);
        }
        let bytes = slice_subrange(input, k + 1, k + 1 + n);
        self.input = slice_subrange(input, k + 1 + n, len);
        Ok(bytes)
    }

    /// Reads an integer: `i`, the number in decimal, `e`.
    #[verifier::loop_isolation(false)]
    pub fn parseInt(&mut self) -> (r: Result<i64, TokError>)
        ensures
            final(self).buildCollections == old(self).buildCollections,
            match r {
                Ok(v) => int_at(old(self).input@) matches Ok((x, n)) && v == x
                    && final(self).input@ == old(self).input@.skip(n),
                Err(e) => int_at(old(self).input@) == Err::<(i64, int), TokError>(e)
                    && final(self).input@ == old(self).input@,
            },
    {
        let input = self.input;
        let len = input.len();
        if len == 0 {
            return Err(TokError::IntUnexpectedEOF);
        }
        if input[0] != INT {
            return Err(TokError::IntInvalidIdent);
        }
        if len >= 3 && input[1] == ZERO && input[2] == END {
            self.input = slice_subrange(input, 3, len);
            return Ok(0);
        }
        let neg = len >= 2 && input[1] == MINUS;
        let start: usize = if neg { 2 } else { 1 };
        if !(start < len && ZERO < input[start] && input[start] <= NINE) {
            return Err(TokError::IntInvalidEncoding);
        }
        let k = scan_digits(input, start);
        if k >= len {
            return Err(TokError::IntLenEOF);
        }
        if input[k] != END {
            return Err(TokError::IntExpectedEnd);
        }
        let limit: u64 = if neg { 9223372036854775808 } else { 9223372036854775807 };
        let mut m: u64 = 0;
        let mut j: usize = start;
        while j < k
            invariant
                start <= j <= k,
                m == dec_value(input@.subrange(start as int, j as int)),
                m <= limit,
            decreases k - j,
        {
            let d: u64 = (input[j] - ZERO) as u64;
            proof {
                assert(input@.subrange(start as int, j + 1).drop_last() =~= input@.subrange(
                    start as int,
                    j as int,
                ));
                lemma_dec_value_grows(input@, start as int, j + 1, k as int);
            }
            if m > limit / 10 {
                return Err(TokError::IntLenParseErr);
            }
            let t: u64 = m * 10;
            if d > limit - t {
                return Err(TokError::IntLenParseErr);
            }
            m = t + d;
            j += 1;
        }
        let v: i64 = if neg {
            if m == 9223372036854775808 {
                i64::MIN
            } else {
                -(m as i64)
            }
        } else {
            m as i64
        };
        self.input = slice_subrange(input, k + 1, len);
        Ok(v)
    }

    /// Reads whatever item comes next.
    pub fn nextToken(&mut self) -> (r: Result<Bencode<'a>, TokError>)
        ensures
            final(self).buildCollections == old(self).buildCollections,
            match r {
                Ok(b) => value_at(old(self).input@) matches Ok((v, n)) && b@ == shaped(
                    v,
                    old(self).buildCollections,
                ) && final(self).input@ == old(self).input@.skip(n),
                Err(e) => value_at(old(self).input@) == Err::<(Value, int), TokError>(e)
                    && final(self).input@ == old(self).input@,
            },
        decreases old(self).input@.len(), 2int,
    {
        proof {
            reveal_with_fuel(value_at, 2);
        }
        if self.input.len() == 0 {
            return Err(TokError::BencInvalidIdent);
        }
        let c = self.input[0];
        if ZERO <= c && c <= NINE {
            match self.parseStr() {
                Ok(s) => Ok(Bencode::Str(s)),
                Err(e) => Err(e),
            }
        } else if c == INT {
            match self.parseInt() {
                Ok(n) => Ok(Bencode::Num(n)),
                Err(e) => Err(e),
            }
        } else if c == LIST {
            match self.parseList() {
                Ok(l) => Ok(Bencode::List(l)),
                Err(e) => Err(e),
            }
        } else if c == DICT {
            match self.parseDict() {
                Ok(d) => Ok(Bencode::Dict(d)),
                Err(e) => Err(e),
            }
        } else {
            Err(TokError::BencInvalidIdent)
        }
    }

    /// Reads a list: `l`, any number of items, `e`.
    #[verifier::loop_isolation(false)]
    pub fn parseList(&mut self) -> (r: Result<Vec<Bencode<'a>>, TokError>)
        ensures
            final(self).buildCollections == old(self).buildCollections,
            match r {
                Ok(l) => list_at(old(self).input@) matches Ok((items, n)) && list_view(l@) == (
                if old(self).buildCollections {
                    items
                } else {
                    Seq::empty()
                }) && final(self).input@ == old(self).input@.skip(n),
                Err(e) => list_at(old(self).input@) == Err::<(Seq<Value>, int), TokError>(e)
                    && final(self).input@ == old(self).input@,
            },
        decreases old(self).input@.len(), 1int,
    {
        proof {
            reveal_with_fuel(list_at, 2);
        }
        let saved = self.input;
        let len = saved.len();
        if len == 0 {
            return Err(TokError::ListUnexpectedEOF);
        }
        if saved[0] != LIST {
            return Err(TokError::ListInvalidIdent);
        }
        self.input = slice_subrange(saved, 1, len);
        let mut list: Vec<Bencode<'a>> = Vec::new();
        let ghost mut pos: int = 1;
        let ghost mut acc: Seq<Value> = Seq::empty();
        let mut done = false;
        while !done
            invariant
                items_at(saved@.skip(1)) == after(acc, pos - 1, items_at(saved@.skip(pos))),
                done ==> items_at(saved@.skip(pos)) == Ok::<(Seq<Value>, int), TokError>(
                    (Seq::empty(), 0),
                ),
                1 <= pos <= len,
                self.input@ == saved@.skip(pos),
                self.buildCollections == old(self).buildCollections,
                list_view(list@) == (if self.buildCollections {
                    acc
                } else {
                    Seq::empty()
                }),
            decreases len - pos + (if done { 0int } else { 1int }),
        {
            proof {
                lemma_value_at_bounds(saved@.skip(pos));
                lemma_items_step(saved@, pos, acc);
            }
            match self.nextToken() {
                Ok(tok) => {
                    let ghost v = value_at(saved@.skip(pos))->Ok_0.0;
                    let ghost n = value_at(saved@.skip(pos))->Ok_0.1;
                    proof {
                        assert(saved@.skip(pos).skip(n) =~= saved@.skip(pos + n));
                        lemma_items_step(saved@, pos, acc);
                    }
                    if self.buildCollections {
                        proof {
                            reveal_with_fuel(list_view, 2);
                            assert(list@.push(tok).drop_last() =~= list@);
                        }
                        list.push(tok);
                    }
                    proof {
                        pos = pos + n;
                        acc = acc.push(v);
                    }
                },
                Err(TokError::BencInvalidIdent) => {
                    done = true;
                },
                Err(_) => {
                    self.input = saved;
                    return Err(TokError::ListValParseErr);
                },
            }
        }
        let cur = self.input;
        proof {
            assert(acc + Seq::<Value>::empty() =~= acc);
        }
        if cur.len() > 0 && cur[0] == END {
            self.input = slice_subrange(cur, 1, cur.len());
            proof {
                assert(saved@.skip(pos).skip(1) =~= saved@.skip(pos + 1));
            }
            Ok(list)
        } else {
            self.input = saved;
            Err(TokError::ListExpectedEnd)
        }
    }

    /// Reads a dictionary: `d`, any number of entries, each a byte string and
    /// an item, with keys in strictly ascending order, `e`.
    #[verifier::loop_isolation(false)]
    pub fn parseDict(&mut self) -> (r: Result<Vec<(&'a [u8], Bencode<'a>)>, TokError>)
        ensures
            final(self).buildCollections == old(self).buildCollections,
            match r {
                Ok(d) => dict_at(old(self).input@) matches Ok((entries, n)) && dict_view(d@) == (
                if old(self).buildCollections {
                    entries
                } else {
                    Seq::empty()
                }) && final(self).input@ == old(self).input@.skip(n),
                Err(e) => dict_at(old(self).input@) == Err::<
                    (Seq<(Seq<u8>, Value)>, int),
                    TokError,
                >(e) && final(self).input@ == old(self).input@,
            },
        decreases old(self).input@.len(), 1int,
    {
        proof {
            reveal_with_fuel(dict_at, 2);
        }
        let saved = self.input;
        let len = saved.len();
        if len == 0 {
            return Err(TokError::DictUnexpectedEOF);
        }
        if saved[0] != DICT {
            return Err(TokError::DictInvalidIdent);
        }
        self.input = slice_subrange(saved, 1, len);
        let mut dict: Vec<(&'a [u8], Bencode<'a>)> = Vec::new();
        let mut prev: Option<&'a [u8]> = None;
        let ghost mut pos: int = 1;
        let ghost mut acc: Seq<(Seq<u8>, Value)> = Seq::empty();
        let ghost mut last: Option<Seq<u8>> = None;
        let mut done = false;
        while !done
            invariant
                entries_at(saved@.skip(1), None) == after(
                    acc,
                    pos - 1,
                    entries_at(saved@.skip(pos), last),
                ),
                done ==> entries_at(saved@.skip(pos), last) == Ok::<
                    (Seq<(Seq<u8>, Value)>, int),
                    TokError,
                >((Seq::empty(), 0)),
                1 <= pos <= len,
                self.input@ == saved@.skip(pos),
                self.buildCollections == old(self).buildCollections,
                match prev {
                    Some(p) => last == Some(p@),
                    None => last is None,
                },
                dict_view(dict@) == (if self.buildCollections {
                    acc
                } else {
                    Seq::empty()
                }),
            decreases len - pos + (if done { 0int } else { 1int }),
        {
            proof {
                lemma_str_at_bounds(saved@.skip(pos));
                lemma_entries_step(saved@, pos, acc, last);
            }
            match self.parseStr() {
                Err(TokError::StrInvalidIdent) => {
                    done = true;
                },
                Err(_) => {
                    self.input = saved;
                    return Err(TokError::DictExpectedStrKey);
                },
                Ok(key) => {
                    let ghost n = str_at(saved@.skip(pos))->Ok_0.1;
                    let sorted = match prev {
                        Some(p) => lex_less(p, key),
                        None => true,
                    };
                    if !sorted {
                        self.input = saved;
                        return Err(TokError::DictKeysUnsorted);
                    }
                    proof {
                        assert(saved@.skip(pos).skip(n) =~= saved@.skip(pos + n));
                        lemma_value_at_bounds(saved@.skip(pos + n));
                    }
                    match self.nextToken() {
                        Ok(tok) => {
                            let ghost v = value_at(saved@.skip(pos + n))->Ok_0.0;
                            let ghost m = value_at(saved@.skip(pos + n))->Ok_0.1;
                            proof {
                                assert(saved@.skip(pos + n).skip(m) =~= saved@.skip(pos + n + m));
                            }
                            if self.buildCollections {
                                proof {
                                    reveal_with_fuel(dict_view, 2);
                                    assert(dict@.push((key, tok)).drop_last() =~= dict@);
                                }
                                dict.push((key, tok));
                            }
                            proof {
                                pos = pos + n + m;
                                acc = acc.push((key@, v));
                                last = Some(key@);
                            }
                            prev = Some(key);
                        },
                        Err(_) => {
                            self.input = saved;
                            return Err(TokError::DictValParseErr);
                        },
                    }
                },
            }
        }
        proof {
            assert(acc + Seq::<(Seq<u8>, Value)>::empty() =~= acc);
        }
        let cur = self.input;
        if cur.len() > 0 && cur[0] == END {
            self.input = slice_subrange(cur, 1, cur.len());
            proof {
                assert(saved@.skip(pos).skip(1) =~= saved@.skip(pos + 1));
            }
            Ok(dict)
        } else {
            self.input = saved;
            Err(TokError::DictExpectedEnd)
        }
    }
}

} // verus!
