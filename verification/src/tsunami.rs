//! The client's session: who we are to trackers and peers, and the torrents
//! that we work on.

use std::sync::Arc;
use vstd::prelude::*;
use vstd::string::StringExecFns;

use crate::torrent::{Torrent, can_build, fresh};
use crate::wrappers::{alphanumeric, is_alphanumeric, seeded};

verus! {

/// A session of the client.
#[derive(Debug)]
pub struct Tsunami {
    pub peer_id: Arc<String>,
    pub torrents: Vec<Torrent>,
}

/// Whether `id` is a peer id of ours: the client's mark and twelve letters
/// or digits behind it.
pub open spec fn own_peer_id(id: Seq<char>) -> bool {
    &&& id.len() == 20
    &&& id.subrange(0, 8) == "-TS0001-"@
    &&& forall|i: int| 8 <= i < 20 ==> is_alphanumeric(#[trigger] id[i])
}

impl Tsunami {
    /// A session with no torrent and a peer id drawn from `seed`.
    pub fn new(seed: u64) -> (r: Tsunami)
        ensures
            own_peer_id(r.peer_id@),
            r.torrents@.len() == 0,
    {
        let mut rng = seeded(seed);
        let tail = alphanumeric(&mut rng, 12);
        let mut id = String::from_str("-TS0001-");
        proof {
            reveal_strlit("-TS0001-");
        }
        id.append(tail.as_str());
        assert(id@.subrange(0, 8) =~= "-TS0001-"@);
        assert forall|i: int| 8 <= i < 20 implies is_alphanumeric(#[trigger] id@[i]) by {
            assert(id@[i] == tail@[i - 8]);
        }
        Tsunami { peer_id: Arc::new(id), torrents: Vec::new() }
    }

    /// Takes up the torrent that the descriptor `buf` describes, at the time
    /// `now`, its trackers shuffled from `seed`; gives the torrent, or nothing
    /// where the descriptor describes none.
    pub fn add_torrent(&mut self, buf: &[u8], seed: u64, now: i64) -> (r: Option<&mut Torrent>)
        ensures
            final(self).peer_id == old(self).peer_id,
            match r {
                Some(t) => fresh(*t, buf@, old(self).peer_id, now) && final(self).torrents@
                    == old(self).torrents@.push(*final(t)),
                None => !can_build(buf@, old(self).peer_id@) && final(self).torrents
                    == old(self).torrents,
            },
    {
        let torrent = match Torrent::new(buf, self.peer_id.clone(), seed, now) {
            Some(t) => t,
            None => {
                return None;
            },
        };
        self.torrents.push(torrent);
        let last = self.torrents.len() - 1;
        Some(&mut self.torrents[last])
    }
}

} // verus!
