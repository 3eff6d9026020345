//! A torrent as the client works with it: what the descriptor says, made
//! ready for use, and the announce protocol that finds its peers.

use std::sync::Arc;
use vstd::prelude::*;
use vstd::string::{StringExecFns, StringSliceAdditionalSpecFns};
use vstd::utf8::encode_utf8;

use crate::bencode::{decoded, value_span};
use crate::descriptor::{InfoDoc, TorrentDoc, torrent_doc};
use crate::torrent_ast::{Bencode, InfoAST, TorrentAST, files_view, str_lists_view, strs_view};
use crate::error::{Error, ErrorView};
use crate::tracker::{
    AddrView, PeerAddr, addr_views, announce_url, merge_peers, merged, next_announce_time,
    next_time, parse_response, promoted_in, response_of, tracker_from,
};
use crate::utils::{push_decimal, push_percent_encoded};
use crate::utils::{valid_path, valid_segment};
use crate::wrappers::{seeded, sha1_digest, shuffle};

verus! {

/// A SHA-1 digest.
pub type Sha1Hash = [u8; 20];

/// One tier of trackers, in the order in which they are asked.
pub type Trackers = Vec<String>;

/// What a file is besides its content.
#[derive(Debug, PartialEq, Eq, Clone, Copy)]
pub enum Attr {
    Padding,
    Executable,
    Hidden,
    SymLink,
}

/// A file of the torrent.
#[derive(Debug, PartialEq, Eq)]
pub struct File {
    /// Where the file goes, as the segments of its path below the directory
    /// that downloads go to.
    pub file: Vec<String>,
    pub length: u64,
    pub attr: Option<Attr>,
}

/// What a file is, with text as its UTF-8 bytes.
pub struct FileView {
    pub file: Seq<Seq<u8>>,
    pub length: u64,
    pub attr: Option<Attr>,
}

/// The UTF-8 bytes of each segment.
pub open spec fn segments_view(v: Seq<String>) -> Seq<Seq<u8>> {
    Seq::new(v.len(), |i: int| encode_utf8(v[i]@))
}

/// The view of a list of segments with one more at its end.
pub proof fn lemma_segments_push(v: Seq<String>, s: String)
    ensures
        segments_view(v.push(s)) == segments_view(v).push(encode_utf8(s@)),
{
    assert(segments_view(v.push(s)) =~= segments_view(v).push(encode_utf8(s@)));
}

impl View for File {
    type V = FileView;

    open spec fn view(&self) -> FileView {
        FileView { file: segments_view(self.file@), length: self.length, attr: self.attr }
    }
}

/// The segments of `path` that can stand in a file's path, in their order.
pub open spec fn kept_segments(path: Seq<Seq<u8>>) -> Seq<Seq<u8>>
    decreases path.len(),
{
    if path.len() == 0 {
        Seq::empty()
    } else if valid_segment(path.last()) {
        kept_segments(path.drop_last()).push(path.last())
    } else {
        kept_segments(path.drop_last())
    }
}

/// The file of `length` bytes at `path` below `dir`: there is none where the
/// length is not positive, or where no segment of `path` can stand in a path.
pub open spec fn file_at(length: i64, dir: Seq<Seq<u8>>, path: Seq<Seq<u8>>) -> Option<FileView> {
    if length <= 0 || kept_segments(path).len() == 0 {
        None
    } else {
        Some(FileView { file: dir + kept_segments(path), length: length as u64, attr: None })
    }
}

impl File {
    /// The file of `length` bytes at `paths` below `torrent_dir`.
    pub fn new(length: i64, torrent_dir: &Vec<String>, paths: &Vec<&str>) -> (r: Option<File>)
        ensures
            match r {
                Some(f) => file_at(
                    length,
                    segments_view(torrent_dir@),
                    strs_view(paths@),
                ) == Some(f@),
                None => file_at(
                    length,
                    segments_view(torrent_dir@),
                    strs_view(paths@),
                ) is None,
            },
    {
        if length <= 0 {
            return None;
        }
        let ghost dir = segments_view(torrent_dir@);
        let ghost path = strs_view(paths@);
        let mut file: Vec<String> = Vec::new();
        let mut i: usize = 0;
        while i < torrent_dir.len()
            invariant
                i <= torrent_dir@.len(),
                segments_view(file@) == dir.subrange(0, i as int),
                dir == segments_view(torrent_dir@),
            decreases torrent_dir@.len() - i,
        {
            let segment = torrent_dir[i].clone();
            proof {
                lemma_segments_push(file@, segment);
                assert(dir.subrange(0, i as int).push(dir[i as int]) =~= dir.subrange(0, i + 1));
            }
            file.push(segment);
            i += 1;
        }
        assert(dir.subrange(0, i as int) =~= dir);
        let mut kept: usize = 0;
        let mut j: usize = 0;
        assert(path.subrange(0, 0) =~= Seq::<Seq<u8>>::empty());
        assert(dir + Seq::<Seq<u8>>::empty() =~= dir);
        while j < paths.len()
            invariant
                j <= paths@.len(),
                path == strs_view(paths@),
                kept <= j,
                kept == kept_segments(path.subrange(0, j as int)).len(),
                segments_view(file@) == dir + kept_segments(path.subrange(0, j as int)),
            decreases paths@.len() - j,
        {
            proof {
                assert(path.subrange(0, j + 1).drop_last() =~= path.subrange(0, j as int));
            }
            if valid_path(paths[j]) {
                let segment = String::from_str(paths[j]);
                proof {
                    lemma_segments_push(file@, segment);
                    let before = kept_segments(path.subrange(0, j as int));
                    assert((dir + before).push(path[j as int]) =~= dir + before.push(
                        path[j as int],
                    ));
                }
                file.push(segment);
                kept += 1;
            }
            j += 1;
        }
        assert(path.subrange(0, j as int) =~= path);
        if kept == 0 {
            return None;
        }
        Some(File { file, length: length as u64, attr: None })
    }
}

/// What the descriptor says of the torrent's content.
#[derive(Debug, PartialEq, Eq)]
pub struct Info {
    pub files: Vec<File>,
    pub piece_length: u32,
    pub pieces: Vec<Sha1Hash>,
    pub info_hash: Sha1Hash,
    pub private: bool,
}

/// What an `Info` holds.
pub struct InfoView {
    pub files: Seq<FileView>,
    pub piece_length: u32,
    pub pieces: Seq<Seq<u8>>,
    pub info_hash: Seq<u8>,
    pub private: bool,
}

pub open spec fn file_views(v: Seq<File>) -> Seq<FileView> {
    Seq::new(v.len(), |i: int| v[i]@)
}

pub open spec fn hash_views(v: Seq<Sha1Hash>) -> Seq<Seq<u8>> {
    Seq::new(v.len(), |i: int| v[i]@)
}

impl View for Info {
    type V = InfoView;

    open spec fn view(&self) -> InfoView {
        InfoView {
            files: file_views(self.files@),
            piece_length: self.piece_length,
            pieces: hash_views(self.pieces@),
            info_hash: self.info_hash@,
            private: self.private,
        }
    }
}

/// The piece hashes that `pieces` holds, twenty bytes each.
pub open spec fn piece_hashes(pieces: Seq<u8>) -> Seq<Seq<u8>> {
    Seq::new(pieces.len() / 20, |i: int| pieces.subrange(20 * i, 20 * i + 20))
}

/// The files that an `info` dictionary describes: the one file that `length`
/// gives, named by `name`; or else the files of `files`, below a directory
/// named by `name`. There are none where one of them is no file.
pub open spec fn files_at(info: InfoDoc) -> Option<Seq<FileView>> {
    match info.length {
        Some(length) => match file_at(length, Seq::empty(), seq![info.name]) {
            Some(f) => Some(seq![f]),
            None => None,
        },
        None => match info.files {
            Some(files) => if valid_segment(info.name) && forall|i: int|
                0 <= i < files.len() ==> (#[trigger] file_at(
                    files[i].length,
                    seq![info.name],
                    files[i].path,
                )) is Some {
                Some(
                    Seq::new(
                        files.len(),
                        |i: int| file_at(files[i].length, seq![info.name], files[i].path)->Some_0,
                    ),
                )
            } else {
                None
            },
            None => None,
        },
    }
}

/// The bytes of all the files together.
pub open spec fn total_length(files: Seq<FileView>) -> nat
    decreases files.len(),
{
    if files.len() == 0 {
        0
    } else {
        total_length(files.drop_last()) + files.last().length as nat
    }
}

/// What an `info` dictionary with the digest `info_hash` says of the
/// torrent's content: nothing where the piece length is not positive or
/// takes more than 32 bits, where one of its files is no file, or where the
/// files together are longer than 64 bits can say.
pub open spec fn info_of(info: InfoDoc, info_hash: Seq<u8>) -> Option<InfoView> {
    match files_at(info) {
        Some(files) => if 0 < info.piece_length <= u32::MAX && total_length(files) <= u64::MAX {
            Some(
                InfoView {
                    files,
                    piece_length: info.piece_length as u32,
                    pieces: piece_hashes(info.pieces),
                    info_hash,
                    private: info.private == Some(1i64),
                },
            )
        } else {
            None
        },
        None => None,
    }
}

/// Whether some group holds a tracker.
pub open spec fn has_tracker<T>(groups: Seq<Seq<T>>) -> bool {
    exists|i: int| 0 <= i < groups.len() && (#[trigger] groups[i]).len() > 0
}

/// The tracker groups of a descriptor: those of `announce-list` where it
/// names a tracker, or else one group with `announce` alone.
pub open spec fn tracker_groups(doc: TorrentDoc) -> Seq<Seq<Seq<u8>>> {
    match doc.announce_list {
        Some(groups) => if has_tracker(groups) {
            groups
        } else {
            seq![seq![doc.announce]]
        },
        None => seq![seq![doc.announce]],
    }
}

/// What a descriptor describes, where it describes a torrent: the
/// descriptor as it stands in the document, and the torrent's content. The
/// info-hash is the digest of the bytes that `info` takes up in the document.
pub open spec fn described(buf: Seq<u8>) -> Option<(TorrentDoc, InfoView)> {
    match decoded(buf) {
        Some(v) => match (torrent_doc(v), value_span(buf, "info".spec_bytes())) {
            (Some(doc), Some((lo, hi))) => match info_of(
                doc.info,
                sha1_digest(buf.subrange(lo, hi)),
            ) {
                Some(info) => Some((doc, info)),
                None => None,
            },
            _ => None,
        },
        None => None,
    }
}

/// A descriptor that is decoded and describes a torrent has its `info` at
/// the top of the document, where the info-hash is taken from.
pub proof fn lemma_info_span(buf: Seq<u8>)
    requires
        decoded(buf) is Some,
        torrent_doc(decoded(buf)->Some_0) is Some,
    ensures
        value_span(buf, "info".spec_bytes()) is Some,
{
    crate::canonical::lemma_value_span(buf, "info".spec_bytes());
}

/// The tracker groups of a descriptor hold a tracker.
pub proof fn lemma_tracker_groups(doc: TorrentDoc)
    ensures
        has_tracker(tracker_groups(doc)),
{
    let groups = tracker_groups(doc);
    if doc.announce_list is Some && has_tracker(doc.announce_list->Some_0) {
    } else {
        assert(groups[0].len() > 0);
    }
}

/// Whether a torrent can be made of the descriptor `buf` for the session
/// whose peer id is `peer_id`.
pub open spec fn can_build(buf: Seq<u8>, peer_id: Seq<char>) -> bool {
    encode_utf8(peer_id).len() == 20 && described(buf) is Some
}

/// Whether `t` is the torrent newly made of the descriptor `buf`, for the
/// session whose peer id is `peer_id`, at the time `now`: it holds what the
/// descriptor describes, its trackers in their groups, no peer yet, and all of
/// its bytes still to get; its first announce is due at once.
pub open spec fn fresh(t: Torrent, buf: Seq<u8>, peer_id: Arc<String>, now: i64) -> bool {
    &&& can_build(buf, peer_id@)
    &&& t.info@ == described(buf)->Some_0.1
    &&& shuffled_from(t.trackers@, tracker_groups(described(buf)->Some_0.0))
    &&& has_tracker(tracker_lists(t.trackers@))
    &&& t.peers@.len() == 0
    &&& t.next_announce == now
    &&& t.peer_id == peer_id
    &&& t.bytes_left == total_length(t.info@.files)
    &&& t.uploaded == 0
    &&& t.downloaded == 0
    &&& t.asking is None
}

/// Whether `trackers` holds the groups `groups`, each with its trackers in
/// some order.
pub open spec fn shuffled_from(trackers: Seq<Trackers>, groups: Seq<Seq<Seq<u8>>>) -> bool {
    &&& trackers.len() == groups.len()
    &&& forall|i: int|
        0 <= i < groups.len() ==> exists|plain: Seq<String>|
            segments_view(plain) == #[trigger] groups[i] && trackers[i]@.to_multiset()
                == plain.to_multiset()
}

/// A torrent: its content, its trackers, the peers known for it, and how
/// far the download has come.
#[derive(Debug)]
pub struct Torrent {
    pub info: Info,
    /// The addresses of the peers that trackers have named, each once.
    pub peers: Vec<PeerAddr>,
    /// The tracker groups in the order in which they are asked. There is at
    /// least one tracker among them.
    pub trackers: Vec<Trackers>,
    /// The time of the next announce, in seconds since the Unix epoch.
    pub next_announce: i64,
    pub peer_id: Arc<String>,
    pub bytes_left: u64,
    pub uploaded: u64,
    pub downloaded: u64,
    /// The group and the index of the tracker that has been asked and has
    /// not answered yet.
    pub asking: Option<(usize, usize)>,
}

/// What an announce does next.
#[derive(Debug, PartialEq, Eq)]
pub enum Step {
    /// Get `url` and come back with what came of it.
    Ask { url: String },
    /// Nothing: the peers are known.
    Done,
}

/// What an announce does next, the URL as its characters.
pub enum StepView {
    Ask { url: Seq<char> },
    Done,
}

impl View for Step {
    type V = StepView;

    open spec fn view(&self) -> StepView {
        match self {
            Step::Ask { url } => StepView::Ask { url: url@ },
            Step::Done => StepView::Done,
        }
    }
}

/// What came of a tracker's answer.
#[derive(Debug)]
pub struct Turn {
    /// Why the tracker's answer was of no use, where it sent one that was
    /// not.
    pub refused: Option<Error>,
    /// What to do next, or that no tracker is left to ask.
    pub next: Result<Step, Error>,
}

/// Whether `r` says to get `url`.
pub open spec fn asks(r: Result<Step, Error>, url: Seq<char>) -> bool {
    r matches Ok(step) && step@ == (StepView::Ask { url })
}

/// Whether `r` says that nothing is to do.
pub open spec fn is_done(r: Result<Step, Error>) -> bool {
    r matches Ok(step) && step@ == StepView::Done
}

/// Whether `r` says that no tracker is left to ask.
pub open spec fn gives_up(r: Result<Step, Error>) -> bool {
    r matches Err(e) && e@ == ErrorView::NoTrackerAvailable
}

/// The interval and the peers of a tracker's answer, where it names peers.
pub open spec fn usable(body: Option<&[u8]>) -> Option<(u64, Seq<AddrView>)> {
    match body {
        Some(b) => match response_of(b@) {
            Ok(found) => Some(found),
            Err(_) => None,
        },
        None => None,
    }
}

/// Why a tracker's answer is of no use, where it sent one that is not.
pub open spec fn refusal(body: Option<&[u8]>) -> Option<ErrorView> {
    match body {
        Some(b) => match response_of(b@) {
            Ok(_) => None,
            Err(reason) => Some(ErrorView::InvalidTrackerResp(reason)),
        },
        None => None,
    }
}

pub open spec fn opt_error_view(e: Option<Error>) -> Option<ErrorView> {
    match e {
        Some(e) => Some(e@),
        None => None,
    }
}

/// The trackers of each group.
pub open spec fn tracker_lists(trackers: Seq<Trackers>) -> Seq<Seq<String>> {
    Seq::new(trackers.len(), |i: int| trackers[i]@)
}

/// The strings of a group of trackers.
pub fn owned_strings(texts: &Vec<&str>) -> (r: Vec<String>)
    ensures
        segments_view(r@) == strs_view(texts@),
        r@.len() == texts@.len(),
{
    let mut out: Vec<String> = Vec::new();
    let mut i: usize = 0;
    while i < texts.len()
        invariant
            i <= texts@.len(),
            out@.len() == i,
            segments_view(out@) == strs_view(texts@).subrange(0, i as int),
        decreases texts@.len() - i,
    {
        let text = String::from_str(texts[i]);
        proof {
            lemma_segments_push(out@, text);
            assert(strs_view(texts@).subrange(0, i as int).push(strs_view(texts@)[i as int])
                =~= strs_view(texts@).subrange(0, i + 1));
        }
        out.push(text);
        i += 1;
    }
    assert(strs_view(texts@).subrange(0, i as int) =~= strs_view(texts@));
    out
}

/// Whether some group holds a tracker.
pub fn any_tracker(groups: &Vec<Vec<&str>>) -> (r: bool)
    ensures
        r == has_tracker(str_lists_view(groups@)),
{
    let mut i: usize = 0;
    while i < groups.len()
        invariant
            i <= groups@.len(),
            forall|j: int| 0 <= j < i ==> (#[trigger] str_lists_view(groups@)[j]).len() == 0,
        decreases groups@.len() - i,
    {
        if groups[i].len() > 0 {
            assert(str_lists_view(groups@)[i as int].len() > 0);
            return true;
        }
        i += 1;
    }
    false
}

impl Torrent {
    /// Whether `peer_id` can be a peer id: it is twenty bytes long.
    pub fn validate(peer_id: &str) -> (r: Option<()>)
        ensures
            r is Some <==> peer_id.spec_bytes().len() == 20,
    {
        if peer_id.as_bytes().len() != 20 {
            return None;
        }
        Some(())
    }

    /// The tracker groups of a descriptor, the trackers of each group
    /// shuffled.
    pub fn build_trackers(torrent: &TorrentAST, seed: u64) -> (r: Vec<Trackers>)
        ensures
            shuffled_from(r@, tracker_groups(torrent@)),
            has_tracker(tracker_lists(r@)),
    {
        let mut out: Vec<Trackers> = Vec::new();
        match &torrent.announceList {
            Some(groups) => {
                if any_tracker(groups) {
                    let ghost wanted = str_lists_view(groups@);
                    let mut rng = seeded(seed);
                    let mut i: usize = 0;
                    while i < groups.len()
                        invariant
                            i <= groups@.len(),
                            out@.len() == i,
                            wanted == str_lists_view(groups@),
                            forall|j: int|
                                0 <= j < i ==> exists|plain: Seq<String>|
                                    segments_view(plain) == #[trigger] wanted[j]
                                        && out@[j]@.to_multiset() == plain.to_multiset(),
                            forall|j: int|
                                0 <= j < i ==> (#[trigger] out@[j])@.len() == wanted[j].len(),
                        decreases groups@.len() - i,
                    {
                        let mut group = owned_strings(&groups[i]);
                        let ghost plain = group@;
                        shuffle(&mut group, &mut rng);
                        proof {
                            plain.to_multiset_ensures();
                            group@.to_multiset_ensures();
                        }
                        out.push(group);
                        proof {
                            assert(segments_view(plain) == wanted[i as int]
                                && out@[i as int]@.to_multiset() == plain.to_multiset());
                        }
                        i += 1;
                    }
                    proof {
                        let at = choose|at: int| 0 <= at < wanted.len() && (#[trigger] wanted[at]).len() > 0;
                        assert(tracker_lists(out@)[at].len() > 0);
                    }
                    return out;
                }
            },
            None => {},
        }
        let mut group: Trackers = Vec::new();
        let announce = String::from_str(torrent.announce);
        proof {
            lemma_segments_push(group@, announce);
        }
        group.push(announce);
        let ghost plain = group@;
        assert(segments_view(plain) =~= seq![torrent@.announce]);
        out.push(group);
        assert(tracker_groups(torrent@) =~= seq![seq![torrent@.announce]]);
        assert(segments_view(plain) == tracker_groups(torrent@)[0] && out@[0]@.to_multiset()
            == plain.to_multiset());
        assert(tracker_lists(out@)[0].len() > 0);
        out
    }

    /// A torrent from its descriptor, for the session whose peer id is
    /// `peer_id`, at the time `now`. The trackers of each group are shuffled,
    /// from `seed`. There is none where the peer id is not twenty bytes long
    /// or the descriptor does not describe a torrent.
    pub fn new(buf: &[u8], peer_id: Arc<String>, seed: u64, now: i64) -> (r: Option<Torrent>)
        ensures
            match r {
                Some(t) => fresh(t, buf@, peer_id, now),
                None => !can_build(buf@, peer_id@),
            },
            r matches Some(t) ==> t.info.pieces@.len() * 20 == described(
                buf@,
            )->Some_0.0.info.pieces.len(),
    {
        if Torrent::validate(peer_id.as_str()).is_none() {
            return None;
        }
        let torrent = match TorrentAST::decode(buf) {
            Some(t) => t,
            None => {
                return None;
            },
        };
        let pieces = split_pieces(torrent.info.pieces);
        let trackers = Torrent::build_trackers(&torrent, seed);
        let files = match Torrent::build_files(&torrent.info) {
            Some(f) => f,
            None => {
                return None;
            },
        };
        let total_bytes = match sum_lengths(&files) {
            Some(n) => n,
            None => {
                return None;
            },
        };
        let length = torrent.info.pieceLength;
        if length <= 0 || length > 4294967295 {
            return None;
        }
        let info_hash = match Bencode::hash_dict(buf, "info") {
            Some(h) => h,
            None => {
                return None;
            },
        };
        let private = match torrent.info.private {
            Some(n) => n == 1,
            None => false,
        };
        proof {
            assert(hash_views(pieces@).len() == pieces@.len());
        }
        Some(
            Torrent {
                info: Info { files, piece_length: length as u32, pieces, info_hash, private },
                peers: Vec::new(),
                trackers,
                next_announce: now,
                peer_id,
                bytes_left: total_bytes,
                uploaded: 0,
                downloaded: 0,
                asking: None,
            },
        )
    }

    /// Writes into `buffer` the URL of an announce to `tracker`.
    pub fn build_tracker_url(&self, tracker: &str, buffer: &mut String)
        ensures
            final(buffer)@ == announce_url(
                tracker@,
                self.info.info_hash@,
                self.peer_id@,
                self.downloaded,
                self.uploaded,
                self.bytes_left,
            ),
    {
        let mut url = String::from_str(tracker);
        url.append("?info_hash=");
        push_percent_encoded(&mut url, self.info.info_hash.as_slice());
        url.append("&peer_id=");
        url.append(self.peer_id.as_str());
        url.append("&port=");
        push_decimal(&mut url, crate::tracker::PORT as u64);
        url.append("&downloaded=");
        push_decimal(&mut url, self.downloaded);
        url.append("&uploaded=");
        push_decimal(&mut url, self.uploaded);
        url.append("&compact=");
        push_decimal(&mut url, 1);
        url.append("&left=");
        push_decimal(&mut url, self.bytes_left);
        *buffer = url;
    }

    /// What a tracker's response says.
    pub fn parse_tracker_resp(resp: &[u8]) -> (r: Result<(u64, Vec<PeerAddr>), Error>)
        ensures
            match r {
                Ok((interval, peers)) => response_of(resp@) == Ok::<
                    (u64, Seq<AddrView>),
                    Option<Seq<u8>>,
                >((interval, addr_views(peers@))),
                Err(e) => response_of(resp@) matches Err(reason) && e@
                    == ErrorView::InvalidTrackerResp(reason),
            },
    {
        parse_response(resp)
    }

    /// The URL of an announce to the tracker at `index` of the group
    /// `group`.
    pub open spec fn url_of(&self, group: int, index: int) -> Seq<char> {
        announce_url(
            self.trackers@[group]@[index]@,
            self.info.info_hash@,
            self.peer_id@,
            self.downloaded,
            self.uploaded,
            self.bytes_left,
        )
    }

    /// Whether a tracker has been asked and has not answered yet.
    pub open spec fn is_asking(&self) -> bool {
        self.asking matches Some((g, i)) && g < self.trackers@.len() && i
            < self.trackers@[g as int]@.len()
    }

    /// Asks the first tracker at or after `index` of the group `group`.
    fn ask_from(&mut self, group: usize, index: usize) -> (r: Result<Step, Error>)
        ensures
            final(self).info == old(self).info,
            final(self).peers == old(self).peers,
            final(self).trackers == old(self).trackers,
            final(self).next_announce == old(self).next_announce,
            final(self).peer_id == old(self).peer_id,
            final(self).bytes_left == old(self).bytes_left,
            final(self).uploaded == old(self).uploaded,
            final(self).downloaded == old(self).downloaded,
            match tracker_from(tracker_lists(old(self).trackers@), group as int, index as int) {
                Some((g, i)) => final(self).asking == Some((g as usize, i as usize))
                    && final(self).is_asking() && asks(r, old(self).url_of(g, i)),
                None => final(self).asking is None && gives_up(r),
            },
    {
        let ghost lists = tracker_lists(self.trackers@);
        let mut g: usize = group;
        let mut i: usize = index;
        while g < self.trackers.len()
            invariant
                lists == tracker_lists(self.trackers@),
                *self == *old(self),
                tracker_from(lists, group as int, index as int) == tracker_from(
                    lists,
                    g as int,
                    i as int,
                ),
            decreases self.trackers@.len() - g,
        {
            if i < self.trackers[g].len() {
                let mut url = String::new();
                self.build_tracker_url(self.trackers[g][i].as_str(), &mut url);
                self.asking = Some((g, i));
                return Ok(Step::Ask { url });
            }
            g += 1;
            i = 0;
        }
        self.asking = None;
        Err(Error::NoTrackerAvailable)
    }

    /// Starts an announce at the time `now`: nothing is to do while the
    /// last announce is still good and a peer is known; else the first
    /// tracker is to be asked.
    pub fn refresh_peers(&mut self, now: i64) -> (r: Result<Step, Error>)
        ensures
            final(self).info == old(self).info,
            final(self).peers == old(self).peers,
            final(self).trackers == old(self).trackers,
            final(self).next_announce == old(self).next_announce,
            final(self).peer_id == old(self).peer_id,
            final(self).bytes_left == old(self).bytes_left,
            final(self).uploaded == old(self).uploaded,
            final(self).downloaded == old(self).downloaded,
            if now < old(self).next_announce && old(self).peers@.len() > 0 {
                final(self).asking is None && is_done(r)
            } else {
                match tracker_from(tracker_lists(old(self).trackers@), 0, 0) {
                    Some((g, i)) => final(self).asking == Some((g as usize, i as usize))
                        && final(self).is_asking() && asks(r, old(self).url_of(g, i)),
                    None => final(self).asking is None && gives_up(r),
                }
            },
    {
        if now < self.next_announce && self.peers.len() > 0 {
            self.asking = None;
            return Ok(Step::Done);
        }
        self.ask_from(0, 0)
    }

    /// Takes the answer of the tracker that was asked, at the time `now`:
    /// `body` is what it sent, or nothing where the request failed. A
    /// response that names peers ends the announce: the tracker moves to the
    /// front of its group, the peers are added to those known, and the next
    /// announce is set. Anything else passes the announce on to the next
    /// tracker, or ends it where none is left.
    pub fn tracker_answered(&mut self, body: Option<&[u8]>, now: i64) -> (r: Turn)
        ensures
            final(self).info == old(self).info,
            final(self).peer_id == old(self).peer_id,
            final(self).bytes_left == old(self).bytes_left,
            final(self).uploaded == old(self).uploaded,
            final(self).downloaded == old(self).downloaded,
            final(self).trackers@.len() == old(self).trackers@.len(),
            !old(self).is_asking() ==> {
                &&& final(self).trackers == old(self).trackers
                &&& final(self).peers == old(self).peers
                &&& final(self).next_announce == old(self).next_announce
                &&& final(self).asking is None
                &&& r.refused is None
                &&& is_done(r.next)
            },
            old(self).is_asking() ==> match usable(body) {
                Some((interval, found)) => {
                    &&& tracker_lists(final(self).trackers@) == promoted_in(
                        tracker_lists(old(self).trackers@),
                        old(self).asking->Some_0.0 as int,
                        old(self).asking->Some_0.1 as int,
                    )
                    &&& addr_views(final(self).peers@) == merged(
                        addr_views(old(self).peers@),
                        found,
                    )
                    &&& final(self).next_announce == next_time(now, interval)
                    &&& final(self).asking is None
                    &&& r.refused is None
                    &&& is_done(r.next)
                },
                None => {
                    &&& final(self).trackers == old(self).trackers
                    &&& final(self).peers == old(self).peers
                    &&& final(self).next_announce == old(self).next_announce
                    &&& opt_error_view(r.refused) == refusal(body)
                    &&& match tracker_from(
                        tracker_lists(old(self).trackers@),
                        old(self).asking->Some_0.0 as int,
                        old(self).asking->Some_0.1 + 1,
                    ) {
                        Some((g, i)) => final(self).asking == Some((g as usize, i as usize))
                            && final(self).is_asking() && asks(r.next, old(self).url_of(g, i)),
                        None => final(self).asking is None && gives_up(r.next),
                    }
                },
            },
    {
        let (group, index) = match self.asking {
            Some(at) => at,
            None => {
                return Turn { refused: None, next: Ok(Step::Done) };
            },
        };
        if group >= self.trackers.len() || index >= self.trackers[group].len() {
            self.asking = None;
            return Turn { refused: None, next: Ok(Step::Done) };
        }
        let refused = match body {
            Some(bytes) => match parse_response(bytes) {
                Ok((interval, found)) => {
                    let ghost before = tracker_lists(self.trackers@);
                    let trackers = &mut self.trackers[group];
                    let tracker = trackers.remove(index);
                    trackers.insert(0, tracker);
                    assert(tracker_lists(self.trackers@) =~= promoted_in(
                        before,
                        group as int,
                        index as int,
                    ));
                    merge_peers(&mut self.peers, &found);
                    self.next_announce = next_announce_time(now, interval);
                    self.asking = None;
                    return Turn { refused: None, next: Ok(Step::Done) };
                },
                Err(e) => Some(e),
            },
            None => None,
        };
        let next = self.ask_from(group, index + 1);
        Turn { refused, next }
    }

    /// The files that an `info` dictionary describes.
    pub fn build_files(info: &InfoAST) -> (r: Option<Vec<File>>)
        ensures
            match r {
                Some(fs) => files_at(info@) == Some(file_views(fs@)),
                None => files_at(info@) is None,
            },
    {
        let mut out: Vec<File> = Vec::new();
        let mut dir: Vec<String> = Vec::new();
        if let Some(length) = info.length {
            let mut paths: Vec<&str> = Vec::new();
            paths.push(info.name);
            assert(strs_view(paths@) =~= seq![info@.name]);
            assert(segments_view(dir@) =~= Seq::<Seq<u8>>::empty());
            match File::new(length, &dir, &paths) {
                Some(f) => {
                    out.push(f);
                    assert(file_views(out@) =~= seq![f@]);
                    return Some(out);
                },
                None => {
                    return None;
                },
            }
        }
        if !valid_path(info.name) {
            return None;
        }
        let name = String::from_str(info.name);
        proof {
            lemma_segments_push(dir@, name);
        }
        dir.push(name);
        assert(segments_view(dir@) =~= seq![info@.name]);
        let files = match &info.files {
            Some(files) => files,
            None => {
                return None;
            },
        };
        let ghost docs = files_view(files@);
        let mut i: usize = 0;
        while i < files.len()
            invariant
                i <= files@.len(),
                out@.len() == i,
                docs == files_view(files@),
                info@.files == Some(docs),
                info@.length is None,
                valid_segment(info@.name),
                segments_view(dir@) == seq![info@.name],
                forall|j: int|
                    0 <= j < i ==> (#[trigger] file_at(
                        docs[j].length,
                        seq![info@.name],
                        docs[j].path,
                    )) == Some(out@[j]@),
            decreases files@.len() - i,
        {
            match File::new(files[i].length, &dir, &files[i].path) {
                Some(f) => {
                    out.push(f);
                },
                None => {
                    assert(file_at(docs[i as int].length, seq![info@.name], docs[i as int].path)
                        is None);
                    return None;
                },
            }
            i += 1;
        }
        assert(files_at(info@)->Some_0 =~= file_views(out@));
        Some(out)
    }
}

/// The piece hashes of `pieces`.
pub fn split_pieces(pieces: &[u8]) -> (r: Vec<Sha1Hash>)
    ensures
        hash_views(r@) == piece_hashes(pieces@),
{
    let count: usize = pieces.len() / 20;
    let mut out: Vec<Sha1Hash> = Vec::new();
    let mut i: usize = 0;
    while i < count
        invariant
            i <= count,
            count == pieces@.len() / 20,
            out@.len() == i,
            forall|j: int| 0 <= j < i ==> (#[trigger] out@[j])@ == pieces@.subrange(20 * j, 20 * j + 20),
        decreases count - i,
    {
        let mut hash: Sha1Hash = [0u8; 20];
        let mut k: usize = 0;
        assert(20 * i + 20 <= pieces.len());
        let base: usize = 20 * i;
        while k < 20
            invariant
                k <= 20,
                base == 20 * i,
                base + 20 <= pieces.len(),
                forall|m: int| 0 <= m < k ==> hash@[m] == pieces@[base + m],
            decreases 20 - k,
        {
            hash[k] = pieces[base + k];
            k += 1;
        }
        assert(hash@ =~= pieces@.subrange(20 * i, 20 * i + 20));
        out.push(hash);
        i += 1;
    }
    assert(hash_views(out@) =~= piece_hashes(pieces@));
    out
}

/// The bytes of all the files together, where 64 bits can say them.
pub fn sum_lengths(files: &Vec<File>) -> (r: Option<u64>)
    ensures
        match r {
            Some(n) => n == total_length(file_views(files@)),
            None => total_length(file_views(files@)) > u64::MAX,
        },
{
    let ghost views = file_views(files@);
    let mut total: u64 = 0;
    let mut i: usize = 0;
    assert(views.subrange(0, 0) =~= Seq::<FileView>::empty());
    while i < files.len()
        invariant
            i <= files@.len(),
            views == file_views(files@),
            total == total_length(views.subrange(0, i as int)),
        decreases files@.len() - i,
    {
        proof {
            assert(views.subrange(0, i + 1).drop_last() =~= views.subrange(0, i as int));
            assert(views.subrange(0, i + 1).last().length == files@[i as int].length);
            lemma_total_grows(views, i + 1, files@.len() as int);
            assert(views.subrange(0, files@.len() as int) =~= views);
        }
        match total.checked_add(files[i].length) {
            Some(t) => {
                total = t;
            },
            None => {
                return None;
            },
        }
        i += 1;
    }
    assert(views.subrange(0, i as int) =~= views);
    Some(total)
}

/// All the files are no shorter than the first of them.
pub proof fn lemma_total_grows(files: Seq<FileView>, i: int, j: int)
    requires
        0 <= i <= j <= files.len(),
    ensures
        total_length(files.subrange(0, i)) <= total_length(files.subrange(0, j)),
    decreases j - i,
{
    if i < j {
        lemma_total_grows(files, i, j - 1);
        assert(files.subrange(0, j).drop_last() =~= files.subrange(0, j - 1));
    }
}

} // verus!
