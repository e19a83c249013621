//! The index of announced peers.

use crate::structs::node::Endpoint;
use crate::structs::util::HashId;
use vstd::prelude::*;

verus! {

/// The peers announced for one torrent.
#[derive(Debug)]
pub struct PeerEntry {
    pub info_hash: HashId,
    pub peers: Vec<Endpoint>,
}

/// The peers of the first entry for the torrent, and none where there is
/// no entry.
pub open spec fn peers_in(entries: Seq<PeerEntry>, info_hash: HashId) -> Seq<Endpoint>
    decreases entries.len(),
{
    if entries.len() == 0 {
        Seq::empty()
    } else if entries[0].info_hash == info_hash {
        entries[0].peers@
    } else {
        peers_in(entries.skip(1), info_hash)
    }
}

/// The endpoints that announced each torrent, in the order of their
/// announcements. An endpoint that announces twice stands twice.
#[derive(Debug)]
pub struct PeerIndex {
    entries: Vec<PeerEntry>,
}

impl View for PeerIndex {
    type V = Map<HashId, Seq<Endpoint>>;

    /// For every torrent, the endpoints announced for it, oldest first.
    closed spec fn view(&self) -> Map<HashId, Seq<Endpoint>> {
        Map::total(|info_hash: HashId| peers_in(self.entries@, info_hash))
    }
}

/// The index without announcements.
pub open spec fn no_peers() -> Map<HashId, Seq<Endpoint>> {
    Map::total(|info_hash: HashId| Seq::<Endpoint>::empty())
}

impl PeerIndex {
    /// The endpoints announced for the torrent, oldest first.
    pub open spec fn announced(&self, info_hash: HashId) -> Seq<Endpoint> {
        self@[info_hash]
    }

    /// An index without announcements.
    pub fn new() -> (index: PeerIndex)
        ensures
            index@ == no_peers(),
    {
        let index = PeerIndex { entries: Vec::new() };
        assert(index@ =~= no_peers());
        index
    }

    /// The place of the first entry for the torrent.
    fn position(&self, info_hash: &HashId) -> (r: Option<usize>)
        ensures
            match r {
                Some(k) => k < self.entries@.len() && first_entry(
                    self.entries@,
                    *info_hash,
                    k as int,
                ) && self.announced(
                    *info_hash,
                ) == self.entries@[k as int].peers@,
                None => first_entry(self.entries@, *info_hash, self.entries@.len() as int)
                    && self.announced(*info_hash) == Seq::<Endpoint>::empty(),
            },
    {
        let mut k: usize = 0;
        assert(self.entries@.skip(0) =~= self.entries@);
        while k < self.entries.len()
            invariant
                k <= self.entries@.len(),
                self.announced(*info_hash) == peers_in(self.entries@.skip(k as int), *info_hash),
                forall|j: int| 0 <= j < k ==> (#[trigger] self.entries@[j]).info_hash != *info_hash,
            decreases self.entries@.len() - k,
        {
            if self.entries[k].info_hash == *info_hash {
                return Some(k);
            }
            assert(self.entries@.skip(k as int).skip(1) =~= self.entries@.skip(k + 1));
            k += 1;
        }
        None
    }

    /// The endpoints announced for the torrent, oldest first.
    pub fn get(&self, info_hash: &HashId) -> (peers: Vec<Endpoint>)
        ensures
            peers@ == self.announced(*info_hash),
    {
        let mut peers: Vec<Endpoint> = Vec::new();
        if let Some(k) = self.position(info_hash) {
            let found = &self.entries[k].peers;
            let mut i: usize = 0;
            while i < found.len()
                invariant
                    i <= found@.len(),
                    peers@ == found@.take(i as int),
                decreases found@.len() - i,
            {
                peers.push(found[i]);
                assert(found@.take(i + 1) =~= found@.take(i as int).push(found@[i as int]));
                i += 1;
            }
            assert(found@.take(i as int) =~= found@);
        }
        peers
    }

    /// Puts the endpoint behind those announced for the torrent.
    pub fn announce(&mut self, info_hash: HashId, endpoint: Endpoint)
        ensures
            final(self)@ == old(self)@.insert(info_hash, old(self)@[info_hash].push(endpoint)),
    {
        let ghost before = self@;
        match self.position(&info_hash) {
            Some(k) => {
                self.entries[k].peers.push(endpoint);
                proof {
                    lemma_changed_entry(old(self).entries@, self.entries@, k as int, info_hash);
                }
            },
            None => {
                let mut peers: Vec<Endpoint> = Vec::new();
                peers.push(endpoint);
                self.entries.push(PeerEntry { info_hash, peers });
                proof {
                    assert(peers@ =~= Seq::<Endpoint>::empty().push(endpoint));
                    lemma_new_entry(old(self).entries@, self.entries@, info_hash);
                }
            },
        }
        assert(self@ =~= before.insert(info_hash, before[info_hash].push(endpoint)));
    }
}

/// No entry before place `k` is for the torrent, and the entry at `k` is,
/// where there is one.
pub open spec fn first_entry(entries: Seq<PeerEntry>, info_hash: HashId, k: int) -> bool {
    &&& 0 <= k <= entries.len()
    &&& k < entries.len() ==> entries[k].info_hash == info_hash
    &&& forall|j: int| 0 <= j < k ==> (#[trigger] entries[j]).info_hash != info_hash
}

/// Changing the peers of the first entry for a torrent changes what is
/// announced for that torrent alone.
proof fn lemma_changed_entry(before: Seq<PeerEntry>, after: Seq<PeerEntry>, k: int, info_hash: HashId)
    requires
        k < before.len(),
        first_entry(before, info_hash, k),
        after.len() == before.len(),
        after[k].info_hash == info_hash,
        forall|j: int| 0 <= j < before.len() && j != k ==> after[j] == before[j],
    ensures
        forall|other: HashId|
            other != info_hash ==> peers_in(after, other) == peers_in(before, other),
        peers_in(after, info_hash) == after[k].peers@,
    decreases before.len(),
{
    if k > 0 {
        assert(before[0].info_hash != info_hash);
        assert(after[0] == before[0]);
        assert(first_entry(before.skip(1), info_hash, k - 1)) by {
            assert forall|j: int| 0 <= j < k - 1 implies (#[trigger] before.skip(1)[j]).info_hash
                != info_hash by {
                assert(before[j + 1].info_hash != info_hash);
            }
        }
        lemma_changed_entry(before.skip(1), after.skip(1), k - 1, info_hash);
        assert forall|other: HashId| other != info_hash implies peers_in(after, other) == peers_in(
            before,
            other,
        ) by {
            assert(peers_in(after.skip(1), other) == peers_in(before.skip(1), other));
        }
    } else {
        assert(after.skip(1) =~= before.skip(1));
        assert forall|other: HashId| other != info_hash implies peers_in(after, other) == peers_in(
            before,
            other,
        ) by {
            assert(peers_in(after.skip(1), other) == peers_in(before.skip(1), other));
        }
    }
}

/// An entry behind the others, for a torrent that had none, changes what
/// is announced for that torrent alone.
proof fn lemma_new_entry(before: Seq<PeerEntry>, after: Seq<PeerEntry>, info_hash: HashId)
    requires
        first_entry(before, info_hash, before.len() as int),
        after.len() == before.len() + 1,
        after.last().info_hash == info_hash,
        forall|j: int| 0 <= j < before.len() ==> after[j] == before[j],
    ensures
        forall|other: HashId|
            other != info_hash ==> peers_in(after, other) == peers_in(before, other),
        peers_in(after, info_hash) == after.last().peers@,
    decreases before.len(),
{
    if before.len() > 0 {
        assert(before[0].info_hash != info_hash);
        assert(after[0] == before[0]);
        assert(first_entry(before.skip(1), info_hash, before.len() - 1)) by {
            assert forall|j: int| 0 <= j < before.len() - 1 implies (#[trigger] before.skip(
                1,
            )[j]).info_hash != info_hash by {
                assert(before[j + 1].info_hash != info_hash);
            }
        }
        lemma_new_entry(before.skip(1), after.skip(1), info_hash);
        assert(after.skip(1).last() == after.last());
        assert forall|other: HashId| other != info_hash implies peers_in(after, other) == peers_in(
            before,
            other,
        ) by {
            assert(peers_in(after.skip(1), other) == peers_in(before.skip(1), other));
        }
    } else {
        assert(after.skip(1).len() == 0);
        assert forall|other: HashId| other != info_hash implies peers_in(after, other) == peers_in(
            before,
            other,
        ) by {
            assert(peers_in(after.skip(1), other) == Seq::<Endpoint>::empty());
        }
    }
}

} // verus!
