//! The tracker announce protocol: the request, the response, and the order
//! in which trackers are asked.

use vstd::prelude::*;
use vstd::slice::slice_subrange;
use vstd::string::{StringExecFns, StringSliceAdditionalSpecFns};

use crate::bencode::{Value, ZERO, dec_value, decoded, digits_end, is_digit};
use crate::descriptor::{field, num_of, text_of};
use crate::error::{Error, ErrorView};
use crate::torrent_ast::{
    Bencode, lemma_dec_value_grows, lemma_list_view, list_view, scan_digits,
};
use crate::utils::{DOT, dec_text, percent_encoded};

verus! {

/// The port that we listen on, as announces give it.
pub const PORT: u16 = 6881;

/// The shortest time, in seconds, between two announces, whatever a tracker
/// asks for.
pub const MIN_INTERVAL: u64 = 300;

/// ASCII `+`.
pub const PLUS: u8 = 43;

/// The address of a peer: an IPv4 address, its bytes in network order, and a
/// port.
#[derive(Debug, PartialEq, Eq, Clone, Copy)]
pub struct PeerAddr {
    pub ip: [u8; 4],
    pub port: u16,
}

/// What a peer's address holds.
pub struct AddrView {
    pub ip: Seq<u8>,
    pub port: u16,
}

impl View for PeerAddr {
    type V = AddrView;

    open spec fn view(&self) -> AddrView {
        AddrView { ip: self.ip@, port: self.port }
    }
}

pub open spec fn addr_views(v: Seq<PeerAddr>) -> Seq<AddrView> {
    Seq::new(v.len(), |i: int| v[i]@)
}

/// The URL of an announce to `tracker`: the info-hash with every byte
/// escaped, our peer id as it is, our port, the three counters, and the
/// request for the compact list of peers.
pub open spec fn announce_url(
    tracker: Seq<char>,
    info_hash: Seq<u8>,
    peer_id: Seq<char>,
    downloaded: u64,
    uploaded: u64,
    left: u64,
) -> Seq<char> {
    tracker + "?info_hash="@ + percent_encoded(info_hash) + "&peer_id="@ + peer_id + "&port="@
        + dec_text(PORT as nat) + "&downloaded="@ + dec_text(downloaded as nat) + "&uploaded="@
        + dec_text(uploaded as nat) + "&compact="@ + dec_text(1) + "&left="@ + dec_text(left as nat)
}

/// The number that `s` is in decimal, where it is one and no more than
/// `limit`: one digit or more, and nothing else.
pub open spec fn number_of(s: Seq<u8>, limit: nat) -> Option<nat> {
    if s.len() > 0 && digits_end(s, 0) == s.len() && dec_value(s) <= limit {
        Some(dec_value(s))
    } else {
        None
    }
}

/// The port that a text names: a decimal number of no more than 16 bits,
/// with or without a `+` before it.
pub open spec fn port_of(s: Seq<u8>) -> Option<u16> {
    let digits = if s.len() > 0 && s[0] == PLUS {
        s.skip(1)
    } else {
        s
    };
    match number_of(digits, u16::MAX as nat) {
        Some(n) => Some(n as u16),
        None => None,
    }
}

/// One part of a dotted address, the digits that start at `at`: its value
/// and where it ends. It has one to three digits, no zero before another
/// digit, and a value of no more than 255.
pub open spec fn octet_at(s: Seq<u8>, at: int) -> Option<(u8, int)> {
    let end = digits_end(s, at);
    let n = dec_value(s.subrange(at, end));
    if 0 <= at < s.len() && 1 <= end - at <= 3 && (end - at == 1 || s[at] != ZERO) && n <= 255 {
        Some((n as u8, end))
    } else {
        None
    }
}

/// One part of a dotted address and the dot behind it.
pub open spec fn dotted_at(s: Seq<u8>, at: int) -> Option<(u8, int)> {
    match octet_at(s, at) {
        Some((n, end)) => if end < s.len() && s[end] == DOT {
            Some((n, end + 1))
        } else {
            None
        },
        None => None,
    }
}

/// The address that a text names: four parts with a dot between each two.
pub open spec fn ipv4_of(s: Seq<u8>) -> Option<Seq<u8>> {
    match dotted_at(s, 0) {
        Some((a, i)) => match dotted_at(s, i) {
            Some((b, j)) => match dotted_at(s, j) {
                Some((c, k)) => match octet_at(s, k) {
                    Some((d, end)) => if end == s.len() {
                        Some(seq![a, b, c, d])
                    } else {
                        None
                    },
                    None => None,
                },
                None => None,
            },
            None => None,
        },
        None => None,
    }
}

/// The peers of a compact list: six bytes each, four of address and two of
/// port, the higher byte first. There are none where a part of a record is
/// left over.
pub open spec fn compact_peers(bytes: Seq<u8>) -> Option<Seq<AddrView>> {
    if bytes.len() % 6 == 0 {
        Some(
            Seq::new(
                bytes.len() / 6,
                |i: int|
                    AddrView {
                        ip: bytes.subrange(6 * i, 6 * i + 4),
                        port: (bytes[6 * i + 4] * 256 + bytes[6 * i + 5]) as u16,
                    },
            ),
        )
    } else {
        None
    }
}

/// The peer that one entry of a verbose list names: a dictionary with an
/// `ip` and a `port`, both text.
pub open spec fn listed_peer(v: Value) -> Option<AddrView> {
    match (field(v, "ip".spec_bytes()), field(v, "port".spec_bytes())) {
        (Some(ip), Some(port)) => match (text_of(ip), text_of(port)) {
            (Some(ip), Some(port)) => match (ipv4_of(ip), port_of(port)) {
                (Some(ip), Some(port)) => Some(AddrView { ip, port }),
                _ => None,
            },
            _ => None,
        },
        _ => None,
    }
}

/// The peers of a verbose list, where every entry names one.
pub open spec fn listed_peers(items: Seq<Value>) -> Option<Seq<AddrView>> {
    if forall|i: int| 0 <= i < items.len() ==> (#[trigger] listed_peer(items[i])) is Some {
        Some(Seq::new(items.len(), |i: int| listed_peer(items[i])->Some_0))
    } else {
        None
    }
}

/// The peers that the `peers` of a response names, in either of its two
/// shapes.
pub open spec fn peers_of(v: Value) -> Option<Seq<AddrView>> {
    match v {
        Value::Str(bytes) => compact_peers(bytes),
        Value::List(items) => listed_peers(items),
        _ => None,
    }
}

/// What a tracker's response says: the interval and the peers; or, as an
/// error, that it is no such response, with the tracker's own reason where
/// it gave one as text.
pub open spec fn response_of(body: Seq<u8>) -> Result<(u64, Seq<AddrView>), Option<Seq<u8>>> {
    match decoded(body) {
        Some(Value::Dict(entries)) => {
            let v = Value::Dict(entries);
            match field(v, "failure reason".spec_bytes()) {
                Some(reason) => Err(text_of(reason)),
                None => match (
                    field(v, "interval".spec_bytes()),
                    field(v, "peers".spec_bytes()),
                ) {
                    (Some(interval), Some(peers)) => match (num_of(interval), peers_of(peers)) {
                        (Some(interval), Some(peers)) => if interval >= 0 {
                            Ok((interval as u64, peers))
                        } else {
                            Err(None)
                        },
                        _ => Err(None),
                    },
                    _ => Err(None),
                },
            }
        },
        _ => Err(None),
    }
}

/// A group with the tracker at `index` moved to its front, the others in
/// the order that they had.
pub open spec fn promoted<T>(group: Seq<T>, index: int) -> Seq<T> {
    group.remove(index).insert(0, group[index])
}

/// The groups with the tracker at `index` of the group `group` moved to
/// the front of that group.
pub open spec fn promoted_in<T>(groups: Seq<Seq<T>>, group: int, index: int) -> Seq<Seq<T>> {
    groups.update(group, promoted(groups[group], index))
}

/// The groups after the tracker that stood at `index` of the group `group`
/// has answered `times` announces in a row: it is moved to the front of its
/// group where it stands when it answers, the first time from `index`, and
/// from the front after that.
pub open spec fn answered_again<T>(groups: Seq<Seq<T>>, group: int, index: int, times: nat) -> Seq<
    Seq<T>,
>
    decreases times,
{
    if times == 0 {
        groups
    } else if times == 1 {
        promoted_in(groups, group, index)
    } else {
        promoted_in(answered_again(groups, group, index, (times - 1) as nat), group, 0)
    }
}

/// A tracker that answers stands at the front of its group afterwards, the
/// other trackers of the group in the order that they had, and every other
/// group as it was.
pub proof fn lemma_promoted_in<T>(groups: Seq<Seq<T>>, group: int, index: int)
    requires
        0 <= group < groups.len(),
        0 <= index < groups[group].len(),
    ensures
        promoted_in(groups, group, index).len() == groups.len(),
        promoted_in(groups, group, index)[group].len() == groups[group].len(),
        promoted_in(groups, group, index)[group][0] == groups[group][index],
        promoted_in(groups, group, index)[group].remove(0) == groups[group].remove(index),
        forall|other: int|
            0 <= other < groups.len() && other != group ==> (#[trigger] promoted_in(
                groups,
                group,
                index,
            )[other]) == groups[other],
        index == 0 ==> promoted_in(groups, group, index) == groups,
{
    let after = promoted_in(groups, group, index);
    assert(after[group].remove(0) =~= groups[group].remove(index));
    if index == 0 {
        assert(after[group] =~= groups[group]);
        assert(after =~= groups);
    }
}

/// After a tracker at a place behind the front of its group has answered
/// any number of announces in a row, once at least, it stands at the front
/// of its group, the other trackers of the group in the order that they had,
/// and every other group as it was.
pub proof fn lemma_answered_again<T>(groups: Seq<Seq<T>>, group: int, index: int, times: nat)
    requires
        0 <= group < groups.len(),
        0 < index < groups[group].len(),
        times >= 1,
    ensures
        answered_again(groups, group, index, times) == promoted_in(groups, group, index),
        answered_again(groups, group, index, times).len() == groups.len(),
        answered_again(groups, group, index, times)[group][0] == groups[group][index],
        answered_again(groups, group, index, times)[group].remove(0) == groups[group].remove(
            index,
        ),
        forall|other: int|
            0 <= other < groups.len() && other != group ==> (#[trigger] answered_again(
                groups,
                group,
                index,
                times,
            )[other]) == groups[other],
    decreases times,
{
    lemma_promoted_in(groups, group, index);
    if times > 1 {
        lemma_answered_again(groups, group, index, (times - 1) as nat);
        lemma_promoted_in(promoted_in(groups, group, index), group, 0);
    }
}

/// Peers that are known once each are still known once each after a tracker
/// has named more.
pub proof fn lemma_merged_once(known: Seq<AddrView>, found: Seq<AddrView>)
    requires
        known.no_duplicates(),
    ensures
        merged(known, found).no_duplicates(),
        forall|i: int| 0 <= i < known.len() ==> merged(known, found).contains(#[trigger] known[i]),
        forall|i: int| 0 <= i < found.len() ==> merged(known, found).contains(#[trigger] found[i]),
    decreases found.len(),
{
    if found.len() > 0 {
        let head = found.drop_last();
        let before = merged(known, head);
        lemma_merged_once(known, head);
        let after = merged(known, found);
        if !before.contains(found.last()) {
            assert forall|i: int, j: int|
                0 <= i < after.len() && 0 <= j < after.len() && i != j implies after[i]
                != after[j] by {
                if i < before.len() && j < before.len() {
                } else if i < before.len() {
                    assert(before[i] == after[i]);
                } else {
                    assert(before[j] == after[j]);
                }
            }
            assert(after[after.len() - 1] == found.last());
        }
        assert forall|i: int| 0 <= i < known.len() implies after.contains(#[trigger] known[i]) by {
            let at = choose|at: int| 0 <= at < before.len() && before[at] == known[i];
            assert(after[at] == known[i]);
        }
        assert forall|i: int| 0 <= i < found.len() implies after.contains(#[trigger] found[i]) by {
            if i < head.len() {
                assert(head[i] == found[i]);
                let at = choose|at: int| 0 <= at < before.len() && before[at] == found[i];
                assert(after[at] == found[i]);
            } else if before.contains(found.last()) {
            } else {
                assert(after[after.len() - 1] == found[i]);
            }
        }
    } else {
        assert forall|i: int| 0 <= i < known.len() implies merged(known, found).contains(
            #[trigger] known[i],
        ) by {
            assert(merged(known, found)[i] == known[i]);
        }
    }
}

/// The first tracker at or after `index` of the group `group`, in the order
/// of asking: group after group, and each group from its front.
pub open spec fn tracker_from<T>(groups: Seq<Seq<T>>, group: int, index: int) -> Option<(int, int)>
    decreases groups.len() - group,
{
    if group < 0 || group >= groups.len() || index < 0 {
        None
    } else if index < groups[group].len() {
        Some((group, index))
    } else {
        tracker_from(groups, group + 1, 0)
    }
}

/// Whether `groups` holds a tracker at `index` of the group `group`.
pub open spec fn is_tracker<T>(groups: Seq<Seq<T>>, group: int, index: int) -> bool {
    0 <= group < groups.len() && 0 <= index < groups[group].len()
}

/// Whether the tracker at `index` of `group` is asked before the one at
/// `other_index` of `other`, or is the same.
pub open spec fn not_after(group: int, index: int, other: int, other_index: int) -> bool {
    group < other || (group == other && index <= other_index)
}

/// Trackers are asked group after group, and each group from its front:
/// the tracker that is asked from a place on is the first one that stands at
/// that place or after it, and none is asked where none stands there.
pub proof fn lemma_tracker_from<T>(groups: Seq<Seq<T>>, group: int, index: int)
    requires
        0 <= group,
        0 <= index,
    ensures
        match tracker_from(groups, group, index) {
            Some((g, i)) => is_tracker(groups, g, i) && not_after(group, index, g, i) && forall|
                h: int,
                j: int,
            |
                is_tracker(groups, h, j) && not_after(group, index, h, j) ==> not_after(
                    g,
                    i,
                    h,
                    j,
                ),
            None => forall|h: int, j: int|
                is_tracker(groups, h, j) ==> !not_after(group, index, h, j),
        },
    decreases groups.len() - group,
{
    if group < groups.len() && index >= groups[group].len() {
        lemma_tracker_from(groups, group + 1, 0);
    }
}

/// The peers known after a tracker has named `found`: those known before in
/// their order, then each new one where it was first named.
pub open spec fn merged(known: Seq<AddrView>, found: Seq<AddrView>) -> Seq<AddrView>
    decreases found.len(),
{
    if found.len() == 0 {
        known
    } else {
        let before = merged(known, found.drop_last());
        if before.contains(found.last()) {
            before
        } else {
            before.push(found.last())
        }
    }
}

/// The time of the next announce after one at `now` that gave `interval`:
/// no sooner than `MIN_INTERVAL` later, and no later than a time can say.
pub open spec fn next_time(now: i64, interval: u64) -> i64 {
    let wait: int = if interval < MIN_INTERVAL {
        MIN_INTERVAL as int
    } else if interval > i64::MAX {
        i64::MAX as int
    } else {
        interval as int
    };
    if now + wait > i64::MAX {
        i64::MAX
    } else {
        (now + wait) as i64
    }
}

/// Whether `peer` is among `peers`.
pub fn is_known(peers: &Vec<PeerAddr>, peer: &PeerAddr) -> (r: bool)
    ensures
        r == addr_views(peers@).contains(peer@),
{
    let mut i: usize = 0;
    while i < peers.len()
        invariant
            i <= peers@.len(),
            forall|j: int| 0 <= j < i ==> addr_views(peers@)[j] != peer@,
        decreases peers@.len() - i,
    {
        let p = &peers[i];
        if p.port == peer.port && p.ip[0] == peer.ip[0] && p.ip[1] == peer.ip[1] && p.ip[2]
            == peer.ip[2] && p.ip[3] == peer.ip[3] {
            assert(p.ip@ =~= peer.ip@);
            assert(addr_views(peers@)[i as int] == peer@);
            return true;
        }
        assert(p.ip@ != peer.ip@ || p.port != peer.port);
        i += 1;
    }
    false
}

/// Adds to `peers` those of `found` that are not among them yet.
pub fn merge_peers(peers: &mut Vec<PeerAddr>, found: &Vec<PeerAddr>)
    ensures
        addr_views(final(peers)@) == merged(addr_views(old(peers)@), addr_views(found@)),
{
    let ghost known = addr_views(peers@);
    let ghost named = addr_views(found@);
    let mut i: usize = 0;
    assert(named.subrange(0, 0) =~= Seq::<AddrView>::empty());
    while i < found.len()
        invariant
            i <= found@.len(),
            named == addr_views(found@),
            addr_views(peers@) == merged(known, named.subrange(0, i as int)),
        decreases found@.len() - i,
    {
        proof {
            assert(named.subrange(0, i + 1).drop_last() =~= named.subrange(0, i as int));
        }
        if !is_known(peers, &found[i]) {
            let ghost before = addr_views(peers@);
            peers.push(found[i]);
            assert(addr_views(peers@) =~= before.push(found@[i as int]@));
        }
        i += 1;
    }
    assert(named.subrange(0, i as int) =~= named);
}

/// The time of the next announce after one at `now` that gave `interval`.
pub fn next_announce_time(now: i64, interval: u64) -> (r: i64)
    ensures
        r == next_time(now, interval),
{
    let wait: u64 = if interval < MIN_INTERVAL {
        MIN_INTERVAL
    } else {
        interval
    };
    let wait: i64 = if wait > 9223372036854775807 {
        i64::MAX
    } else {
        wait as i64
    };
    if now > i64::MAX - wait {
        i64::MAX
    } else {
        now + wait
    }
}

/// Reads a decimal number of no more than `limit`.
pub fn parse_number(s: &[u8], limit: u64) -> (r: Option<u64>)
    ensures
        match r {
            Some(n) => number_of(s@, limit as nat) == Some(n as nat),
            None => number_of(s@, limit as nat) is None,
        },
{
    let len = s.len();
    if len == 0 {
        return None;
    }
    let end = scan_digits(s, 0);
    if end != len {
        return None;
    }
    assert(s@.subrange(0, len as int) =~= s@);
    let mut n: u64 = 0;
    let mut i: usize = 0;
    while i < len
        invariant
            i <= len,
            len == s@.len(),
            n == dec_value(s@.subrange(0, i as int)),
            n <= limit,
            forall|j: int| 0 <= j < len ==> is_digit(#[trigger] s@[j]),
        decreases len - i,
    {
        let d: u64 = (s[i] - ZERO) as u64;
        proof {
            assert(s@.subrange(0, i + 1).drop_last() =~= s@.subrange(0, i as int));
            lemma_dec_value_grows(s@, 0, i + 1, len as int);
            assert(s@.subrange(0, len as int) =~= s@);
        }
        if n > limit / 10 {
            return None;
        }
        let t: u64 = n * 10;
        if d > limit - t {
            return None;
        }
        n = t + d;
        i += 1;
    }
    Some(n)
}

/// Reads a port.
pub fn parse_port(s: &[u8]) -> (r: Option<u16>)
    ensures
        r == port_of(s@),
{
    let digits = if s.len() > 0 && s[0] == PLUS {
        slice_subrange(s, 1, s.len())
    } else {
        s
    };
    match parse_number(digits, 65535) {
        Some(n) => Some(n as u16),
        None => None,
    }
}

/// Reads one part of a dotted address.
fn parse_octet(s: &[u8], at: usize) -> (r: Option<(u8, usize)>)
    requires
        at <= s@.len(),
    ensures
        match r {
            Some((n, end)) => octet_at(s@, at as int) == Some((n, end as int)) && at < end
                <= s@.len(),
            None => octet_at(s@, at as int) is None,
        },
{
    let end = scan_digits(s, at);
    let count = end - at;
    if count < 1 || count > 3 {
        return None;
    }
    if count > 1 && s[at] == ZERO {
        return None;
    }
    let mut n: u16 = 0;
    let mut i: usize = at;
    assert(s@.subrange(at as int, at as int) =~= Seq::<u8>::empty());
    while i < end
        invariant
            at <= i <= end <= s@.len(),
            end - at <= 3,
            n == dec_value(s@.subrange(at as int, i as int)),
            i - at == 0 ==> n == 0,
            i - at == 1 ==> n <= 9,
            i - at == 2 ==> n <= 99,
            i - at == 3 ==> n <= 999,
            forall|j: int| at <= j < end ==> is_digit(#[trigger] s@[j]),
        decreases end - i,
    {
        proof {
            assert(s@.subrange(at as int, i + 1).drop_last() =~= s@.subrange(at as int, i as int));
        }
        n = n * 10 + (s[i] - ZERO) as u16;
        i += 1;
    }
    if n > 255 {
        return None;
    }
    Some((n as u8, end))
}

/// Reads one part of a dotted address and the dot behind it.
fn parse_dotted(s: &[u8], at: usize) -> (r: Option<(u8, usize)>)
    requires
        at <= s@.len(),
    ensures
        match r {
            Some((n, next)) => dotted_at(s@, at as int) == Some((n, next as int)) && next
                <= s@.len(),
            None => dotted_at(s@, at as int) is None,
        },
{
    match parse_octet(s, at) {
        Some((n, end)) => {
            if end < s.len() && s[end] == DOT {
                Some((n, end + 1))
            } else {
                None
            }
        },
        None => None,
    }
}

/// Reads a dotted address.
pub fn parse_ipv4(s: &[u8]) -> (r: Option<[u8; 4]>)
    ensures
        match r {
            Some(ip) => ipv4_of(s@) == Some(ip@),
            None => ipv4_of(s@) is None,
        },
{
    let (a, i) = match parse_dotted(s, 0) {
        Some(x) => x,
        None => {
            return None;
        },
    };
    let (b, j) = match parse_dotted(s, i) {
        Some(x) => x,
        None => {
            return None;
        },
    };
    let (c, k) = match parse_dotted(s, j) {
        Some(x) => x,
        None => {
            return None;
        },
    };
    let (d, end) = match parse_octet(s, k) {
        Some(x) => x,
        None => {
            return None;
        },
    };
    if end != s.len() {
        return None;
    }
    let ip: [u8; 4] = [a, b, c, d];
    assert(ip@ =~= seq![a, b, c, d]);
    Some(ip)
}

/// Reads a compact list of peers.
pub fn parse_compact(bytes: &[u8]) -> (r: Option<Vec<PeerAddr>>)
    ensures
        match r {
            Some(peers) => compact_peers(bytes@) == Some(addr_views(peers@)),
            None => compact_peers(bytes@) is None,
        },
{
    if bytes.len() % 6 != 0 {
        return None;
    }
    let count: usize = bytes.len() / 6;
    let mut out: Vec<PeerAddr> = Vec::new();
    let mut i: usize = 0;
    while i < count
        invariant
            i <= count,
            count == bytes@.len() / 6,
            bytes@.len() % 6 == 0,
            out@.len() == i,
            forall|j: int|
                0 <= j < i ==> (#[trigger] out@[j])@ == compact_peers(bytes@)->Some_0[j],
        decreases count - i,
    {
        assert(6 * i + 6 <= bytes.len());
        let at: usize = 6 * i;
        let ip: [u8; 4] = [bytes[at], bytes[at + 1], bytes[at + 2], bytes[at + 3]];
        let port: u16 = (bytes[at + 4] as u16) * 256 + bytes[at + 5] as u16;
        assert(ip@ =~= bytes@.subrange(6 * i, 6 * i + 4));
        out.push(PeerAddr { ip, port });
        i += 1;
    }
    assert(addr_views(out@) =~= compact_peers(bytes@)->Some_0);
    Some(out)
}

/// Reads one entry of a verbose list of peers.
pub fn parse_listed(v: &Bencode) -> (r: Option<PeerAddr>)
    ensures
        match r {
            Some(peer) => listed_peer(v@) == Some(peer@),
            None => listed_peer(v@) is None,
        },
{
    let ip = match v.get("ip".as_bytes()) {
        Some(ip) => match ip.as_text() {
            Some(ip) => ip,
            None => {
                return None;
            },
        },
        None => {
            return None;
        },
    };
    let port = match v.get("port".as_bytes()) {
        Some(port) => match port.as_text() {
            Some(port) => port,
            None => {
                return None;
            },
        },
        None => {
            return None;
        },
    };
    let ip = match parse_ipv4(ip.as_bytes()) {
        Some(ip) => ip,
        None => {
            return None;
        },
    };
    let port = match parse_port(port.as_bytes()) {
        Some(port) => port,
        None => {
            return None;
        },
    };
    Some(PeerAddr { ip, port })
}

/// Reads the `peers` of a response.
pub fn parse_peers(v: &Bencode) -> (r: Option<Vec<PeerAddr>>)
    ensures
        match r {
            Some(peers) => peers_of(v@) == Some(addr_views(peers@)),
            None => peers_of(v@) is None,
        },
{
    match v {
        Bencode::Str(bytes) => parse_compact(bytes),
        Bencode::List(items) => {
            proof {
                lemma_list_view(items@);
            }
            let ghost vs = list_view(items@);
            let mut out: Vec<PeerAddr> = Vec::new();
            let mut i: usize = 0;
            while i < items.len()
                invariant
                    i <= items@.len(),
                    out@.len() == i,
                    v@ == Value::List(vs),
                    vs.len() == items@.len(),
                    forall|j: int| 0 <= j < items@.len() ==> (#[trigger] vs[j]) == items@[j]@,
                    forall|j: int| 0 <= j < i ==> listed_peer(#[trigger] vs[j]) == Some(out@[j]@),
                decreases items@.len() - i,
            {
                match parse_listed(&items[i]) {
                    Some(peer) => {
                        out.push(peer);
                    },
                    None => {
                        assert(listed_peer(vs[i as int]) is None);
                        return None;
                    },
                }
                i += 1;
            }
            assert(listed_peers(vs)->Some_0 =~= addr_views(out@));
            Some(out)
        },
        _ => None,
    }
}

/// Reads a tracker's response.
pub fn parse_response(resp: &[u8]) -> (r: Result<(u64, Vec<PeerAddr>), Error>)
    ensures
        match r {
            Ok((interval, peers)) => response_of(resp@) == Ok::<
                (u64, Seq<AddrView>),
                Option<Seq<u8>>,
            >((interval, addr_views(peers@))),
            Err(e) => response_of(resp@) matches Err(reason) && e@
                == ErrorView::InvalidTrackerResp(reason),
        },
{
    let tracker = match Bencode::decode(resp) {
        Some(b) => b,
        None => {
            return Err(Error::InvalidTrackerResp(None));
        },
    };
    if tracker.as_dict().is_none() {
        return Err(Error::InvalidTrackerResp(None));
    }
    if let Some(fail_msg) = tracker.get("failure reason".as_bytes()) {
        let reason = match fail_msg.as_text() {
            Some(text) => Some(String::from_str(text)),
            None => None,
        };
        return Err(Error::InvalidTrackerResp(reason));
    }
    let interval = match tracker.get("interval".as_bytes()) {
        Some(v) => match v.as_int() {
            Some(n) => n,
            None => {
                return Err(Error::InvalidTrackerResp(None));
            },
        },
        None => {
            return Err(Error::InvalidTrackerResp(None));
        },
    };
    let peers = match tracker.get("peers".as_bytes()) {
        Some(v) => match parse_peers(v) {
            Some(peers) => peers,
            None => {
                return Err(Error::InvalidTrackerResp(None));
            },
        },
        None => {
            return Err(Error::InvalidTrackerResp(None));
        },
    };
    if interval < 0 {
        return Err(Error::InvalidTrackerResp(None));
    }
    Ok((interval as u64, peers))
}

} // verus!
