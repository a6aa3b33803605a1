use std::collections::BTreeMap;

use rand::rngs::StdRng;
use vstd::prelude::*;
use vstd::std_specs::btree::{increasing_seq, key_obeys_cmp_spec, spec_btree_map_iter};
use vstd::std_specs::cmp::OrdSpec;
use vstd::std_specs::iter::IteratorSpec;

use crate::sampling::choose_multiple;
use crate::quality::{demoted, judged, promoted, PeerQuality, PeersStatus, Verdict};
use crate::time::{TimeDiff, Timestamp};

verus! {

broadcast use {
    vstd::std_specs::btree::group_btree_axioms,
    vstd::laws_cmp::group_laws_cmp,
};

/// A peer's identifier, as handed out by the networking layer.
pub type NodeId = u64;

/// Which entries of the ledger a scan picks out.
#[derive(Copy, Clone, PartialEq, Eq, Structural)]
enum Tier {
    Dishonest,
    Reliable,
    Fallback,
    Counted,
}

spec fn in_tier(q: PeerQuality, t: Tier) -> bool {
    match t {
        Tier::Dishonest => q == PeerQuality::Dishonest,
        Tier::Reliable => q == PeerQuality::Reliable,
        Tier::Fallback => q == PeerQuality::Unreliable || q == PeerQuality::Unknown,
        Tier::Counted => q == PeerQuality::Reliable || q == PeerQuality::Unknown,
    }
}

fn is_in_tier(q: PeerQuality, t: Tier) -> (r: bool)
    ensures
        r == in_tier(q, t),
{
    match t {
        Tier::Dishonest => q == PeerQuality::Dishonest,
        Tier::Reliable => q == PeerQuality::Reliable,
        Tier::Fallback => q == PeerQuality::Unreliable || q == PeerQuality::Unknown,
        Tier::Counted => q == PeerQuality::Reliable || q == PeerQuality::Unknown,
    }
}

/// Strictly increasing, hence free of duplicates.
pub open spec fn sorted(s: Seq<NodeId>) -> bool {
    forall|i: int, j: int| 0 <= i < j < s.len() ==> s[i] < s[j]
}

/// The peers whose quality satisfies `f`.
pub open spec fn ids_where(m: Map<NodeId, PeerQuality>, f: spec_fn(PeerQuality) -> bool) -> Set<
    NodeId,
> {
    Set::new(|k: NodeId| m.contains_key(k) && f(m[k]))
}

/// The peers that have been disqualified.
pub open spec fn dishonest_ids(m: Map<NodeId, PeerQuality>) -> Set<NodeId> {
    ids_where(m, |q: PeerQuality| q == PeerQuality::Dishonest)
}

/// The peers at the top of the ladder.
pub open spec fn reliable_ids(m: Map<NodeId, PeerQuality>) -> Set<NodeId> {
    ids_where(m, |q: PeerQuality| q == PeerQuality::Reliable)
}

/// The peers that selection falls back on: neither proven nor disqualified.
pub open spec fn fallback_ids(m: Map<NodeId, PeerQuality>) -> Set<NodeId> {
    ids_where(m, |q: PeerQuality| q == PeerQuality::Unreliable || q == PeerQuality::Unknown)
}

/// The peers that count towards a healthy pool: proven ones, and untested ones.
pub open spec fn counted_ids(m: Map<NodeId, PeerQuality>) -> Set<NodeId> {
    ids_where(m, |q: PeerQuality| q == PeerQuality::Reliable || q == PeerQuality::Unknown)
}

/// The ledger after `p` is registered: a new peer starts out `Unknown`.
pub open spec fn with_registered(m: Map<NodeId, PeerQuality>, p: NodeId) -> Map<NodeId, PeerQuality> {
    if m.contains_key(p) {
        m
    } else {
        m.insert(p, PeerQuality::Unknown)
    }
}

/// The ledger after `p` is promoted; a peer never seen is entered as `Unknown`.
pub open spec fn with_promoted(m: Map<NodeId, PeerQuality>, p: NodeId) -> Map<NodeId, PeerQuality> {
    if m.contains_key(p) {
        m.insert(p, promoted(m[p]))
    } else {
        m.insert(p, PeerQuality::Unknown)
    }
}

/// The ledger after `p` is demoted; a peer never seen is left out.
pub open spec fn with_demoted(m: Map<NodeId, PeerQuality>, p: NodeId) -> Map<NodeId, PeerQuality> {
    if m.contains_key(p) {
        m.insert(p, demoted(m[p]))
    } else {
        m
    }
}

/// The ledger after `p` is disqualified.
pub open spec fn with_disqualified(m: Map<NodeId, PeerQuality>, p: NodeId) -> Map<
    NodeId,
    PeerQuality,
> {
    m.insert(p, PeerQuality::Dishonest)
}

/// The ledger with every disqualified peer forgotten.
pub open spec fn without_dishonest(m: Map<NodeId, PeerQuality>) -> Map<NodeId, PeerQuality> {
    m.restrict(m.dom().difference(dishonest_ids(m)))
}

/// Whether the staleness check is due at `now`: more than `interval` has
/// passed since `last`, counting a clock that went backwards as no time.
pub open spec fn check_due(last: Timestamp, now: Timestamp, interval: TimeDiff) -> bool {
    (if now.spec_millis() >= last.spec_millis() {
        now.spec_millis() - last.spec_millis()
    } else {
        0
    }) > interval.spec_millis()
}

/// The status that the staleness check reports.
pub open spec fn pool_status(m: Map<NodeId, PeerQuality>, desired: u32) -> PeersStatus {
    if counted_ids(m).len() < desired {
        PeersStatus::Stale
    } else {
        PeersStatus::Sufficient
    }
}

/// The size of the first, most trusted part of a selection.
pub open spec fn reliable_share(m: Map<NodeId, PeerQuality>, desired: u32) -> int {
    if reliable_ids(m).len() < desired {
        reliable_ids(m).len() as int
    } else {
        desired as int
    }
}

/// The size of the part of a selection drawn from the fallback pool.
pub open spec fn fallback_share(m: Map<NodeId, PeerQuality>, desired: u32) -> int {
    let missing = desired - reliable_share(m, desired);
    if fallback_ids(m).len() < missing {
        fallback_ids(m).len() as int
    } else {
        missing
    }
}

/// Each operation on a known peer moves its entry as the matching verdict
/// moves a quality, and leaves every other entry as it was.
pub proof fn lemma_ledger_follows_verdicts(m: Map<NodeId, PeerQuality>, p: NodeId, k: NodeId)
    requires
        m.contains_key(p),
    ensures
        with_promoted(m, p)[p] == judged(m[p], Verdict::Promote),
        with_demoted(m, p)[p] == judged(m[p], Verdict::Demote),
        with_disqualified(m, p)[p] == judged(m[p], Verdict::Disqualify),
        with_promoted(m, p).dom() == m.dom(),
        with_demoted(m, p).dom() == m.dom(),
        with_disqualified(m, p).dom() == m.dom(),
        k != p && m.contains_key(k) ==> {
            &&& with_promoted(m, p)[k] == m[k]
            &&& with_demoted(m, p)[k] == m[k]
            &&& with_disqualified(m, p)[k] == m[k]
        },
{
    assert(m.insert(p, promoted(m[p])).dom() =~= m.dom());
    assert(m.insert(p, demoted(m[p])).dom() =~= m.dom());
    assert(m.insert(p, PeerQuality::Dishonest).dom() =~= m.dom());
}

/// A disqualified peer's entry is left alone by promotion and demotion.
pub proof fn lemma_dishonest_entry_is_final(m: Map<NodeId, PeerQuality>, p: NodeId)
    requires
        m.contains_key(p),
        m[p] == PeerQuality::Dishonest,
    ensures
        with_promoted(m, p) == m,
        with_demoted(m, p) == m,
        with_disqualified(m, p) == m,
{
    assert(with_promoted(m, p) =~= m);
    assert(with_demoted(m, p) =~= m);
    assert(with_disqualified(m, p) =~= m);
}

/// A flushed ledger holds no disqualified peer.
pub proof fn lemma_flushed_has_no_dishonest()
    ensures
        dishonest_ids(Map::<NodeId, PeerQuality>::empty()) == Set::<NodeId>::empty(),
{
    assert(dishonest_ids(Map::<NodeId, PeerQuality>::empty()) =~= Set::<NodeId>::empty());
}

/// Forgetting the disqualified peers keeps every other entry unchanged and
/// removes exactly the disqualified ones.
pub proof fn lemma_flush_dishonest_is_exact(m: Map<NodeId, PeerQuality>, k: NodeId)
    ensures
        without_dishonest(m).contains_key(k) <==> (m.contains_key(k) && m[k]
            != PeerQuality::Dishonest),
        without_dishonest(m).contains_key(k) ==> without_dishonest(m)[k] == m[k],
        dishonest_ids(without_dishonest(m)) == Set::<NodeId>::empty(),
{
    assert(dishonest_ids(without_dishonest(m)) =~= Set::<NodeId>::empty());
}

/// Registering a peer a second time changes nothing: neither its quality
/// nor the size of the ledger.
pub proof fn lemma_register_is_idempotent(m: Map<NodeId, PeerQuality>, p: NodeId)
    ensures
        with_registered(with_registered(m, p), p) == with_registered(m, p),
        with_registered(m, p).contains_key(p),
        m.contains_key(p) ==> with_registered(m, p) == m,
{
}

proof fn lemma_sorted_unique(s: Seq<NodeId>)
    requires
        sorted(s),
    ensures
        s.no_duplicates(),
        s.to_set().len() == s.len(),
{
    assert forall|i: int, j: int| 0 <= i < s.len() && 0 <= j < s.len() && i != j implies s[i]
        != s[j] by {
        if i < j {
            assert(s[i] < s[j]);
        } else {
            assert(s[j] < s[i]);
        }
    }
    s.unique_seq_to_set();
}

/// The reputation ledger, with the state of its throttled staleness check.
#[derive(Clone, PartialEq, Eq, Debug)]
pub struct PeerList {
    peer_list: BTreeMap<NodeId, PeerQuality>,
    keep_fresh: Timestamp,
    max_simultaneous_peers: u32,
    peer_refresh_interval: TimeDiff,
}

impl PeerList {
    /// The quality recorded for each known peer.
    pub closed spec fn ledger(&self) -> Map<NodeId, PeerQuality> {
        self.peer_list@
    }

    /// When the staleness check last ran, or a peer was last registered.
    pub closed spec fn last_check(&self) -> Timestamp {
        self.keep_fresh
    }

    /// How many peers a selection aims for.
    pub closed spec fn desired(&self) -> u32 {
        self.max_simultaneous_peers
    }

    /// How long the staleness check stays quiet after it ran.
    pub closed spec fn refresh_interval(&self) -> TimeDiff {
        self.peer_refresh_interval
    }

    /// The staleness check's state and the configuration are those of `other`.
    pub open spec fn same_schedule(&self, other: &PeerList) -> bool {
        &&& self.last_check() == other.last_check()
        &&& self.desired() == other.desired()
        &&& self.refresh_interval() == other.refresh_interval()
    }

    /// An empty ledger whose staleness check counts from `now`.
    pub fn new_at(max_simultaneous_peers: u32, peer_refresh_interval: TimeDiff, now: Timestamp) -> (r:
        PeerList)
        ensures
            r.ledger() == Map::<NodeId, PeerQuality>::empty(),
            r.last_check() == now,
            r.desired() == max_simultaneous_peers,
            r.refresh_interval() == peer_refresh_interval,
    {
        PeerList {
            peer_list: BTreeMap::new(),
            keep_fresh: now,
            max_simultaneous_peers,
            peer_refresh_interval,
        }
    }

    /// An empty ledger whose staleness check counts from the current time.
    pub fn new(max_simultaneous_peers: u32, peer_refresh_interval: TimeDiff) -> (r: PeerList)
        ensures
            r.ledger() == Map::<NodeId, PeerQuality>::empty(),
            r.desired() == max_simultaneous_peers,
            r.refresh_interval() == peer_refresh_interval,
    {
        PeerList::new_at(max_simultaneous_peers, peer_refresh_interval, Timestamp::now())
    }

    /// Enters `peer` as `Unknown` unless it is known already; a new entry
    /// restarts the staleness check at `now`.
    pub fn register_peer_at(&mut self, peer: NodeId, now: Timestamp)
        ensures
            final(self).ledger() == with_registered(old(self).ledger(), peer),
            final(self).desired() == old(self).desired(),
            final(self).refresh_interval() == old(self).refresh_interval(),
            final(self).last_check() == if old(self).ledger().contains_key(peer) {
                old(self).last_check()
            } else {
                now
            },
    {
        proof {
            assert(key_obeys_cmp_spec::<NodeId>());
        }
        if self.peer_list.contains_key(&peer) {
            return;
        }
        self.peer_list.insert(peer, PeerQuality::Unknown);
        self.keep_fresh = now;
    }

    /// As `register_peer_at`, at the current time.
    pub fn register_peer(&mut self, peer: NodeId)
        ensures
            final(self).ledger() == with_registered(old(self).ledger(), peer),
            final(self).desired() == old(self).desired(),
            final(self).refresh_interval() == old(self).refresh_interval(),
            old(self).ledger().contains_key(peer) ==> final(self).last_check() == old(
                self,
            ).last_check(),
    {
        self.register_peer_at(peer, Timestamp::now());
    }

    /// The disqualified peers, in increasing order.
    pub fn dishonest_peers(&self) -> (r: Vec<NodeId>)
        ensures
            sorted(r@),
            r@.to_set() == dishonest_ids(self.ledger()),
    {
        let r = self.collect(Tier::Dishonest);
        assert(r@.to_set() =~= dishonest_ids(self.ledger()));
        r
    }

    /// Forgets every peer.
    pub fn flush(&mut self)
        ensures
            final(self).ledger() == Map::<NodeId, PeerQuality>::empty(),
            final(self).same_schedule(old(self)),
    {
        self.peer_list.clear();
    }

    /// Forgets the disqualified peers and keeps every other entry as it is.
    pub fn flush_dishonest_peers(&mut self)
        ensures
            final(self).ledger() == without_dishonest(old(self).ledger()),
            forall|k: NodeId|
                old(self).ledger().contains_key(k) && old(self).ledger()[k]
                    != PeerQuality::Dishonest ==> final(self).ledger().contains_key(k)
                    && final(self).ledger()[k] == old(self).ledger()[k],
            forall|k: NodeId|
                old(self).ledger().contains_key(k) && old(self).ledger()[k]
                    == PeerQuality::Dishonest ==> !final(self).ledger().contains_key(k),
            dishonest_ids(final(self).ledger()) == Set::<NodeId>::empty(),
            final(self).same_schedule(old(self)),
    {
        proof {
            assert(key_obeys_cmp_spec::<NodeId>());
        }
        let ghost m = self.peer_list@;
        let dishonest = self.collect(Tier::Dishonest);
        proof {
            assert forall|j: int| 0 <= j < dishonest@.len() implies m.contains_key(
                #[trigger] dishonest@[j],
            ) by {
                assert(dishonest@.contains(dishonest@[j]));
            }
        }
        let mut i: usize = 0;
        while i < dishonest.len()
            invariant
                i <= dishonest@.len(),
                key_obeys_cmp_spec::<NodeId>(),
                self.same_schedule(old(self)),
                m == old(self).ledger(),
                sorted(dishonest@),
                forall|k: NodeId|
                    dishonest@.contains(k) <==> (m.contains_key(k) && m[k]
                        == PeerQuality::Dishonest),
                forall|j: int| 0 <= j < i ==> !self.peer_list@.contains_key(#[trigger] dishonest@[j]),
                forall|j: int|
                    i <= j < dishonest@.len() ==> self.peer_list@.contains_key(#[trigger] dishonest@[j]),
                forall|k: NodeId|
                    #[trigger] self.peer_list@.contains_key(k) ==> m.contains_key(k)
                        && self.peer_list@[k] == m[k],
                forall|k: NodeId|
                    m.contains_key(k) && !dishonest@.contains(k) ==> #[trigger] self.peer_list@.contains_key(k),
            decreases dishonest@.len() - i,
        {
            let ghost before = self.peer_list@;
            self.peer_list.remove(&dishonest[i]);
            proof {
                assert(self.peer_list@ == before.remove(dishonest@[i as int]));
                assert forall|j: int| i < j < dishonest@.len() implies self.peer_list@.contains_key(
                    #[trigger] dishonest@[j],
                ) by {
                    assert(dishonest@[i as int] < dishonest@[j]);
                }
            }
            i = i + 1;
        }
        proof {
            assert forall|k: NodeId| m.contains_key(k) && m[k] == PeerQuality::Dishonest implies !self.peer_list@.contains_key(k) by {
                assert(dishonest@.contains(k));
                let j = choose|j: int| 0 <= j < dishonest@.len() && dishonest@[j] == k;
                assert(!self.peer_list@.contains_key(dishonest@[j]));
            }
            assert(self.peer_list@ =~= without_dishonest(m));
            assert(dishonest_ids(self.peer_list@) =~= Set::<NodeId>::empty());
        }
    }

    /// Marks `peer`, if given, as dishonest for good.
    pub fn disqualify_peer(&mut self, peer: Option<NodeId>)
        ensures
            final(self).ledger() == match peer {
                Some(p) => with_disqualified(old(self).ledger(), p),
                None => old(self).ledger(),
            },
            final(self).same_schedule(old(self)),
    {
        proof {
            assert(key_obeys_cmp_spec::<NodeId>());
        }
        if let Some(peer_id) = peer {
            self.peer_list.insert(peer_id, PeerQuality::Dishonest);
        }
    }

    /// Moves `peer`, if given, one rung up; a peer never registered is
    /// entered as `Unknown`.
    pub fn promote_peer(&mut self, peer: Option<NodeId>)
        ensures
            final(self).ledger() == match peer {
                Some(p) => with_promoted(old(self).ledger(), p),
                None => old(self).ledger(),
            },
            final(self).same_schedule(old(self)),
    {
        proof {
            assert(key_obeys_cmp_spec::<NodeId>());
        }
        if let Some(peer_id) = peer {
            match self.peer_list.get(&peer_id) {
                None => {
                    self.peer_list.insert(peer_id, PeerQuality::Unknown);
                },
                Some(quality) => {
                    let next = quality.promote();
                    if next != *quality {
                        self.peer_list.insert(peer_id, next);
                    } else {
                        proof {
                            assert(self.peer_list@ =~= with_promoted(old(self).ledger(), peer_id));
                        }
                    }
                },
            }
        }
    }

    /// Moves `peer`, if given, one rung down; a peer never registered stays
    /// out of the ledger.
    pub fn demote_peer(&mut self, peer: Option<NodeId>)
        ensures
            final(self).ledger() == match peer {
                Some(p) => with_demoted(old(self).ledger(), p),
                None => old(self).ledger(),
            },
            final(self).same_schedule(old(self)),
    {
        proof {
            assert(key_obeys_cmp_spec::<NodeId>());
        }
        if let Some(peer_id) = peer {
            match self.peer_list.get(&peer_id) {
                None => {},
                Some(quality) => {
                    let next = quality.demote();
                    if next != *quality {
                        self.peer_list.insert(peer_id, next);
                    } else {
                        proof {
                            assert(self.peer_list@ =~= with_demoted(old(self).ledger(), peer_id));
                        }
                    }
                },
            }
        }
    }

    /// Reports on the pool at `now`. An empty ledger is `Insufficient`.
    /// Otherwise, once more than the refresh interval has passed since the
    /// last check, the check runs again from `now` and reports `Stale` when
    /// fewer peers than desired are `Reliable` or `Unknown`; at any other
    /// time the pool is `Sufficient`.
    pub fn need_peers_at(&mut self, now: Timestamp) -> (r: PeersStatus)
        ensures
            final(self).ledger() == old(self).ledger(),
            final(self).desired() == old(self).desired(),
            final(self).refresh_interval() == old(self).refresh_interval(),
            old(self).ledger() == Map::<NodeId, PeerQuality>::empty() ==> r
                == PeersStatus::Insufficient && final(self).last_check() == old(self).last_check(),
            old(self).ledger() != Map::<NodeId, PeerQuality>::empty() && check_due(
                old(self).last_check(),
                now,
                old(self).refresh_interval(),
            ) ==> r == pool_status(old(self).ledger(), old(self).desired())
                && final(self).last_check() == now,
            old(self).ledger() != Map::<NodeId, PeerQuality>::empty() && !check_due(
                old(self).last_check(),
                now,
                old(self).refresh_interval(),
            ) ==> r == PeersStatus::Sufficient && final(self).last_check() == old(
                self,
            ).last_check(),
    {
        if self.peer_list.is_empty() {
            proof {
                assert(self.peer_list@ =~= Map::<NodeId, PeerQuality>::empty());
            }
            return PeersStatus::Insufficient;
        }
        proof {
            if self.peer_list@ == Map::<NodeId, PeerQuality>::empty() {
                assert(self.peer_list@.is_empty());
            }
        }
        if now.saturating_diff(self.keep_fresh).millis() > self.peer_refresh_interval.millis() {
            self.keep_fresh = now;
            let counted = self.collect(Tier::Counted);
            proof {
                lemma_sorted_unique(counted@);
                assert(counted@.to_set() =~= counted_ids(self.peer_list@));
            }
            if counted.len() < self.max_simultaneous_peers as usize {
                return PeersStatus::Stale;
            }
        }
        PeersStatus::Sufficient
    }

    /// As `need_peers_at`, at the current time.
    pub fn need_peers(&mut self) -> (r: PeersStatus)
        ensures
            final(self).ledger() == old(self).ledger(),
            final(self).desired() == old(self).desired(),
            final(self).refresh_interval() == old(self).refresh_interval(),
            old(self).ledger() == Map::<NodeId, PeerQuality>::empty() ==> r
                == PeersStatus::Insufficient,
            old(self).ledger() != Map::<NodeId, PeerQuality>::empty() ==> (r
                == PeersStatus::Sufficient || r == pool_status(old(self).ledger(), old(self).desired())),
    {
        self.need_peers_at(Timestamp::now())
    }

    /// Picks up to the desired number of peers to contact: a random sample
    /// of the `Reliable` peers first, then, for the places left, a random
    /// sample of the `Unreliable` and `Unknown` ones. Where a pool is no larger
    /// than its share, all of it is taken, in increasing order.
    pub fn qualified_peers(&self, rng: &mut StdRng) -> (r: Vec<NodeId>)
        ensures
            ({
                let m = self.ledger();
                let first = reliable_share(m, self.desired());
                &&& r@.len() == first + fallback_share(m, self.desired())
                &&& r@.len() <= self.desired()
                &&& r@.no_duplicates()
                &&& forall|i: int| 0 <= i < first ==> reliable_ids(m).contains(#[trigger] r@[i])
                &&& forall|i: int|
                    first <= i < r@.len() ==> fallback_ids(m).contains(#[trigger] r@[i])
                &&& forall|i: int|
                    0 <= i < r@.len() ==> m.contains_key(#[trigger] r@[i]) && m[r@[i]]
                        != PeerQuality::Dishonest
                &&& reliable_ids(m).len() <= self.desired() ==> forall|p: NodeId|
                    #[trigger] reliable_ids(m).contains(p) ==> r@.contains(p)
                &&& reliable_ids(m).len() + fallback_ids(m).len() <= self.desired() ==> forall|
                    p: NodeId,
                | #[trigger] fallback_ids(m).contains(p) ==> r@.contains(p)
            }),
    {
        let ghost m = self.peer_list@;
        let up_to = self.max_simultaneous_peers as usize;
        let reliable = self.collect(Tier::Reliable);
        proof {
            lemma_sorted_unique(reliable@);
            assert(reliable@.to_set() =~= reliable_ids(m));
        }
        let amount = if up_to < reliable.len() {
            up_to
        } else {
            reliable.len()
        };
        let ghost reliable_pool = reliable@;
        let mut peers = choose_multiple(reliable, rng, amount);
        let ghost first = peers@;
        proof {
            assert forall|i: int| 0 <= i < first.len() implies reliable_ids(m).contains(
                #[trigger] first[i],
            ) by {
                assert(reliable_pool.contains(first[i]));
            }
            if reliable_ids(m).len() <= up_to {
                assert forall|p: NodeId| #[trigger] reliable_ids(m).contains(p) implies first.contains(
                    p,
                ) by {
                    assert(reliable_pool.contains(p));
                }
            }
        }
        let missing = up_to - peers.len();
        if missing > 0 {
            let fallback = self.collect(Tier::Fallback);
            proof {
                lemma_sorted_unique(fallback@);
                assert(fallback@.to_set() =~= fallback_ids(m));
            }
            let amount = if missing < fallback.len() {
                missing
            } else {
                fallback.len()
            };
            let ghost fallback_pool = fallback@;
            let mut extra = choose_multiple(fallback, rng, amount);
            let ghost second = extra@;
            peers.append(&mut extra);
            proof {
                assert(peers@ == first + second);
                assert forall|i: int| 0 <= i < second.len() implies fallback_ids(m).contains(
                    #[trigger] second[i],
                ) by {
                    assert(fallback_pool.contains(second[i]));
                }
                assert forall|i: int, j: int|
                    0 <= i < peers@.len() && 0 <= j < peers@.len() && i != j implies peers@[i]
                    != peers@[j] by {
                    if i < first.len() && j >= first.len() {
                        assert(reliable_ids(m).contains(first[i]));
                        assert(fallback_ids(m).contains(second[j - first.len()]));
                    } else if j < first.len() && i >= first.len() {
                        assert(reliable_ids(m).contains(first[j]));
                        assert(fallback_ids(m).contains(second[i - first.len()]));
                    } else if i >= first.len() && j >= first.len() {
                        assert(second[i - first.len()] != second[j - first.len()]);
                    }
                }
                if reliable_ids(m).len() + fallback_ids(m).len() <= up_to {
                    assert forall|p: NodeId| #[trigger] fallback_ids(m).contains(p) implies peers@.contains(
                        p,
                    ) by {
                        assert(fallback_pool.contains(p));
                        let j = choose|j: int| 0 <= j < second.len() && second[j] == p;
                        assert(peers@[first.len() + j] == p);
                    }
                }
                assert forall|p: NodeId| first.contains(p) implies peers@.contains(p) by {
                    let j = choose|j: int| 0 <= j < first.len() && first[j] == p;
                    assert(peers@[j] == p);
                }
            }
        } else {
            proof {
                if reliable_ids(m).len() + fallback_ids(m).len() <= up_to {
                    assert(fallback_ids(m).subset_of(m.dom()));
                    vstd::set_lib::lemma_len_subset(fallback_ids(m), m.dom());
                    fallback_ids(m).lemma_len0_is_empty();
                }
            }
        }
        peers
    }

    /// The quality recorded for `peer`, if it is known.
    pub fn quality(&self, peer: NodeId) -> (r: Option<PeerQuality>)
        ensures
            r == if self.ledger().contains_key(peer) {
                Some(self.ledger()[peer])
            } else {
                None::<PeerQuality>
            },
    {
        proof {
            assert(key_obeys_cmp_spec::<NodeId>());
        }
        match self.peer_list.get(&peer) {
            Some(q) => Some(*q),
            None => None,
        }
    }

    /// The number of known peers.
    pub fn len(&self) -> (r: usize)
        ensures
            r == self.ledger().len(),
    {
        proof {
            assert(key_obeys_cmp_spec::<NodeId>());
        }
        self.peer_list.len()
    }

    /// Whether no peer is known.
    pub fn is_empty(&self) -> (r: bool)
        ensures
            r <==> self.ledger() == Map::<NodeId, PeerQuality>::empty(),
    {
        let r = self.peer_list.is_empty();
        proof {
            if r {
                assert(self.peer_list@ =~= Map::<NodeId, PeerQuality>::empty());
            }
        }
        r
    }

    /// Picks out, in increasing order, the peers whose quality is in `tier`.
    fn collect(&self, tier: Tier) -> (r: Vec<NodeId>)
        ensures
            sorted(r@),
            forall|k: NodeId|
                r@.contains(k) <==> (self.ledger().contains_key(k) && in_tier(
                    self.ledger()[k],
                    tier,
                )),
    {
        let ghost m = self.peer_list@;
        proof {
            assert(key_obeys_cmp_spec::<NodeId>());
        }
        let entries = self.peer_list.iter();
        let ghost all = entries.remaining();
        let mut r: Vec<NodeId> = Vec::new();
        let ghost mut pos: Seq<int> = Seq::empty();
        for (k, q) in it: entries
            invariant
                m == self.peer_list@,
                it.seq() == all,
                all == spec_btree_map_iter(&self.peer_list).remaining(),
                increasing_seq(all.map_values(|kv: (&NodeId, &PeerQuality)| *kv.0)),
                pos.len() == r@.len(),
                forall|i: int| 0 <= i < pos.len() ==> 0 <= #[trigger] pos[i] < it.index(),
                forall|i: int, j: int| 0 <= i < j < pos.len() ==> pos[i] < pos[j],
                forall|i: int| 0 <= i < pos.len() ==> r@[i] == *it.seq()[#[trigger] pos[i]].0,
                forall|i: int| 0 <= i < pos.len() ==> in_tier(*it.seq()[#[trigger] pos[i]].1, tier),
                forall|p: int| 0 <= p < it.index() && in_tier(*it.seq()[p].1, tier) ==> r@.contains(*it.seq()[p].0),
        {
            let ghost before = r@;
            if is_in_tier(*q, tier) {
                r.push(*k);
                proof {
                    pos = pos.push(it.index());
                    assert(r@[r@.len() - 1] == *k);
                    assert forall|x: NodeId| before.contains(x) implies r@.contains(x) by {
                        let i = choose|i: int| 0 <= i < before.len() && before[i] == x;
                        assert(r@[i] == x);
                    }
                }
            }
        }
        proof {
            let keys = all.map_values(|kv: (&NodeId, &PeerQuality)| *kv.0);
            assert forall|i: int, j: int| 0 <= i < j < r@.len() implies r@[i] < r@[j] by {
                assert(keys[pos[i]] == r@[i]);
                assert(keys[pos[j]] == r@[j]);
                assert(keys[pos[i]].cmp_spec(&keys[pos[j]]) is Less);
            }
            assert forall|k: NodeId| m.contains_key(k) && in_tier(m[k], tier) implies r@.contains(k) by {
                assert(all.contains((&k, &m[k])));
                let p = choose|p: int| 0 <= p < all.len() && all[p] == (&k, &m[k]);
                assert(in_tier(*all[p].1, tier));
            }
            assert forall|k: NodeId| r@.contains(k) implies m.contains_key(k) && in_tier(m[k], tier) by {
                let i = choose|i: int| 0 <= i < r@.len() && r@[i] == k;
                assert(m.contains_key(*all[pos[i]].0));
            }
        }
        r
    }
}

} // verus!
