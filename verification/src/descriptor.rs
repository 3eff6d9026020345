//! What a torrent descriptor says, read off the value that its document
//! denotes. Text is held as its UTF-8 bytes.

use vstd::prelude::*;
use vstd::string::StringSliceAdditionalSpecFns;
use vstd::utf8::valid_utf8;

use crate::bencode::Value;

verus! {

/// One file of a multi-file torrent, as the document lists it.
pub struct FileDoc {
    pub path: Seq<Seq<u8>>,
    pub length: i64,
    pub attr: Option<Seq<u8>>,
}

/// The `info` dictionary.
pub struct InfoDoc {
    pub piece_length: i64,
    pub pieces: Seq<u8>,
    pub private: Option<i64>,
    pub name: Seq<u8>,
    pub length: Option<i64>,
    pub files: Option<Seq<FileDoc>>,
}

/// The descriptor.
pub struct TorrentDoc {
    pub announce: Seq<u8>,
    pub announce_list: Option<Seq<Seq<Seq<u8>>>>,
    pub info: InfoDoc,
}

/// The length of a piece hash: a SHA-1 digest.
pub const HASH_LEN: usize = 20;

/// The most pieces that a torrent can have: a piece's index has to fit in
/// the 32 bits that the peer protocol gives it.
pub const MAX_PIECES: u64 = 4294967296;

/// The value under `key` in the first entry that has it.
pub open spec fn lookup(entries: Seq<(Seq<u8>, Value)>, key: Seq<u8>) -> Option<Value> {
    lookup_from(entries, key, 0)
}

pub open spec fn lookup_from(entries: Seq<(Seq<u8>, Value)>, key: Seq<u8>, i: int) -> Option<
    Value,
>
    decreases entries.len() - i,
{
    if i < 0 || i >= entries.len() {
        None
    } else if entries[i].0 == key {
        Some(entries[i].1)
    } else {
        lookup_from(entries, key, i + 1)
    }
}

/// The value under `key` in a dictionary.
pub open spec fn field(v: Value, key: Seq<u8>) -> Option<Value> {
    match v {
        Value::Dict(entries) => lookup(entries, key),
        _ => None,
    }
}

/// The bytes of a byte string that is well-formed UTF-8.
pub open spec fn text_of(v: Value) -> Option<Seq<u8>> {
    match v {
        Value::Str(b) => if valid_utf8(b) {
            Some(b)
        } else {
            None
        },
        _ => None,
    }
}

pub open spec fn bytes_of(v: Value) -> Option<Seq<u8>> {
    match v {
        Value::Str(b) => Some(b),
        _ => None,
    }
}

pub open spec fn num_of(v: Value) -> Option<i64> {
    match v {
        Value::Num(n) => Some(n),
        _ => None,
    }
}

/// A field that may be missing: absent, or present in another shape than
/// the one asked for, it counts as not given.
pub open spec fn opt_text(v: Option<Value>) -> Option<Seq<u8>> {
    match v {
        Some(v) => text_of(v),
        None => None,
    }
}

pub open spec fn opt_num(v: Option<Value>) -> Option<i64> {
    match v {
        Some(v) => num_of(v),
        None => None,
    }
}

/// The texts of a list all of whose items are text.
pub open spec fn texts_of(v: Value) -> Option<Seq<Seq<u8>>> {
    match v {
        Value::List(items) => if forall|i: int|
            0 <= i < items.len() ==> (#[trigger] text_of(items[i])) is Some {
            Some(Seq::new(items.len(), |i: int| text_of(items[i])->Some_0))
        } else {
            None
        },
        _ => None,
    }
}

/// The lists of texts of a list all of whose items are lists of text.
pub open spec fn text_lists_of(v: Value) -> Option<Seq<Seq<Seq<u8>>>> {
    match v {
        Value::List(items) => if forall|i: int|
            0 <= i < items.len() ==> (#[trigger] texts_of(items[i])) is Some {
            Some(Seq::new(items.len(), |i: int| texts_of(items[i])->Some_0))
        } else {
            None
        },
        _ => None,
    }
}

/// One entry of `files`: a dictionary with a `path`, a list of text, and a
/// `length`, a number; `attr` is taken where it is text.
pub open spec fn file_doc(v: Value) -> Option<FileDoc> {
    match (field(v, "path".spec_bytes()), field(v, "length".spec_bytes())) {
        (Some(path), Some(length)) => match (texts_of(path), num_of(length)) {
            (Some(path), Some(length)) => Some(
                FileDoc { path, length, attr: opt_text(field(v, "attr".spec_bytes())) },
            ),
            _ => None,
        },
        _ => None,
    }
}

/// The files of a list all of whose items are file entries.
pub open spec fn files_of(v: Value) -> Option<Seq<FileDoc>> {
    match v {
        Value::List(items) => if forall|i: int|
            0 <= i < items.len() ==> (#[trigger] file_doc(items[i])) is Some {
            Some(Seq::new(items.len(), |i: int| file_doc(items[i])->Some_0))
        } else {
            None
        },
        _ => None,
    }
}

pub open spec fn opt_files(v: Option<Value>) -> Option<Seq<FileDoc>> {
    match v {
        Some(v) => files_of(v),
        None => None,
    }
}

pub open spec fn opt_text_lists(v: Option<Value>) -> Option<Seq<Seq<Seq<u8>>>> {
    match v {
        Some(v) => text_lists_of(v),
        None => None,
    }
}

/// The `info` dictionary: `name`, `pieces` and `piece length` have to be
/// there, as text, bytes and a number.
pub open spec fn info_doc(v: Value) -> Option<InfoDoc> {
    match (
        field(v, "name".spec_bytes()),
        field(v, "pieces".spec_bytes()),
        field(v, "piece length".spec_bytes()),
    ) {
        (Some(name), Some(pieces), Some(piece_length)) => match (
            text_of(name),
            bytes_of(pieces),
            num_of(piece_length),
        ) {
            (Some(name), Some(pieces), Some(piece_length)) => Some(
                InfoDoc {
                    piece_length,
                    pieces,
                    private: opt_num(field(v, "private".spec_bytes())),
                    name,
                    length: opt_num(field(v, "length".spec_bytes())),
                    files: opt_files(field(v, "files".spec_bytes())),
                },
            ),
            _ => None,
        },
        _ => None,
    }
}

/// Whether an `info` dictionary describes a torrent: the piece hashes are
/// whole, there are no more of them than a piece index can tell apart, and it
/// names either one file or a list of files, not both.
pub open spec fn info_valid(info: InfoDoc) -> bool {
    &&& info.pieces.len() % (HASH_LEN as nat) == 0
    &&& info.pieces.len() / (HASH_LEN as nat) <= MAX_PIECES
    &&& (info.length is Some) != (info.files is Some)
}

/// The descriptor that a document's value holds, where it holds one: a
/// dictionary with `announce`, a text, and a valid `info`.
pub open spec fn torrent_doc(v: Value) -> Option<TorrentDoc> {
    match (field(v, "info".spec_bytes()), field(v, "announce".spec_bytes())) {
        (Some(info), Some(announce)) => match (info_doc(info), text_of(announce)) {
            (Some(info), Some(announce)) => if info_valid(info) {
                Some(
                    TorrentDoc {
                        announce,
                        announce_list: opt_text_lists(field(v, "announce-list".spec_bytes())),
                        info,
                    },
                )
            } else {
                None
            },
            _ => None,
        },
        _ => None,
    }
}

/// The piece hashes of a descriptor are whole: one whose `pieces` is not a
/// multiple of twenty bytes long is no descriptor.
pub proof fn lemma_pieces_whole(v: Value)
    ensures
        torrent_doc(v) matches Some(doc) ==> doc.info.pieces.len() % 20 == 0,
        info_doc(field(v, "info".spec_bytes())->Some_0) matches Some(info) && info.pieces.len() % 20
            != 0 ==> torrent_doc(v) is None,
{
}

} // verus!
