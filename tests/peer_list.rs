use peer_list::{PeerList, PeerQuality, PeersStatus, TimeDiff, Timestamp};
use rand::rngs::StdRng;
use rand::SeedableRng;

const A: u64 = 10;
const B: u64 = 20;
const C: u64 = 30;
const D: u64 = 40;
const E: u64 = 50;

fn at(millis: u64) -> Timestamp {
    Timestamp::from_millis(millis)
}

fn ledger(desired: u32) -> PeerList {
    PeerList::new_at(desired, TimeDiff::from_millis(1_000), at(0))
}

fn is_sufficient(s: PeersStatus) -> bool {
    s == PeersStatus::Sufficient
}

#[test]
fn empty_tracker_needs_peers() {
    let mut list = ledger(3);
    assert_eq!(list.need_peers_at(at(10)), PeersStatus::Insufficient);
    assert_eq!(list.need_peers_at(at(1_000_000)), PeersStatus::Insufficient);
    assert_eq!(list.need_peers(), PeersStatus::Insufficient);
}

#[test]
fn empty_tracker_from_clock_needs_peers() {
    let mut list = PeerList::new(2, TimeDiff::from_millis(10));
    assert!(list.is_empty());
    assert_eq!(list.need_peers(), PeersStatus::Insufficient);
    list.register_peer(A);
    assert_eq!(list.quality(A), Some(PeerQuality::Unknown));
    assert_ne!(list.need_peers(), PeersStatus::Insufficient);
}

#[test]
fn reliable_peer_is_selected_first() {
    let mut list = ledger(2);
    list.register_peer_at(A, at(1));
    list.register_peer_at(B, at(1));
    list.register_peer_at(C, at(1));
    list.promote_peer(Some(A));
    list.promote_peer(Some(A));
    list.promote_peer(Some(B));
    assert_eq!(list.quality(A), Some(PeerQuality::Reliable));
    assert_eq!(list.quality(B), Some(PeerQuality::Unreliable));
    assert_eq!(list.quality(C), Some(PeerQuality::Unknown));
    for seed in 0..20u64 {
        let mut rng = StdRng::seed_from_u64(seed);
        let picked = list.qualified_peers(&mut rng);
        assert_eq!(picked.len(), 2);
        assert_eq!(picked[0], A);
        assert!(picked[1] == B || picked[1] == C);
    }
}

#[test]
fn disqualified_peer_stays_dishonest() {
    let mut list = ledger(2);
    list.register_peer_at(D, at(1));
    list.disqualify_peer(Some(D));
    list.promote_peer(Some(D));
    list.promote_peer(Some(D));
    list.promote_peer(Some(D));
    assert_eq!(list.quality(D), Some(PeerQuality::Dishonest));
    assert_eq!(list.dishonest_peers(), vec![D]);
}

#[test]
fn demoting_unknown_peer_changes_nothing() {
    let mut list = ledger(2);
    list.register_peer_at(E, at(1));
    list.demote_peer(Some(E));
    assert_eq!(list.quality(E), Some(PeerQuality::Unknown));
    assert_eq!(list.len(), 1);
}

#[test]
fn check_is_throttled_and_resets_timer() {
    let mut list = ledger(2);
    let peers = [1u64, 2, 3, 4, 5];
    for p in peers {
        list.register_peer_at(p, at(100));
        list.promote_peer(Some(p));
        list.promote_peer(Some(p));
        assert_eq!(list.quality(p), Some(PeerQuality::Reliable));
    }
    // Not yet due: the pool is not even looked at.
    assert_eq!(list.need_peers_at(at(600)), PeersStatus::Sufficient);
    // Due: five counted peers against two desired.
    assert_eq!(list.need_peers_at(at(1_200)), PeersStatus::Sufficient);
    // The check ran at 1200, so a depleted pool goes unnoticed until the
    // interval has passed again.
    for p in peers {
        list.demote_peer(Some(p));
    }
    assert_eq!(list.need_peers_at(at(2_100)), PeersStatus::Sufficient);
    assert_eq!(list.need_peers_at(at(2_201)), PeersStatus::Stale);
}

#[test]
fn flush_forgets_everything() {
    let mut list = ledger(2);
    list.register_peer_at(A, at(1));
    list.register_peer_at(B, at(1));
    list.register_peer_at(C, at(1));
    list.promote_peer(Some(A));
    list.disqualify_peer(Some(B));
    list.flush();
    assert_eq!(list.len(), 0);
    assert!(list.dishonest_peers().is_empty());
    assert_eq!(list.need_peers_at(at(5_000)), PeersStatus::Insufficient);
}

#[test]
fn ladder_moves_one_rung_at_a_time() {
    let mut list = ledger(2);
    list.register_peer_at(A, at(1));
    let up = [PeerQuality::Unreliable, PeerQuality::Reliable, PeerQuality::Reliable];
    for q in up {
        list.promote_peer(Some(A));
        assert_eq!(list.quality(A), Some(q));
    }
    let down = [PeerQuality::Unreliable, PeerQuality::Unknown, PeerQuality::Unknown];
    for q in down {
        list.demote_peer(Some(A));
        assert_eq!(list.quality(A), Some(q));
    }
    list.disqualify_peer(Some(A));
    list.demote_peer(Some(A));
    list.promote_peer(Some(A));
    assert_eq!(list.quality(A), Some(PeerQuality::Dishonest));
}

#[test]
fn quality_steps() {
    assert_eq!(PeerQuality::Unknown.promote(), PeerQuality::Unreliable);
    assert_eq!(PeerQuality::Unreliable.promote(), PeerQuality::Reliable);
    assert_eq!(PeerQuality::Reliable.promote(), PeerQuality::Reliable);
    assert_eq!(PeerQuality::Dishonest.promote(), PeerQuality::Dishonest);
    assert_eq!(PeerQuality::Reliable.demote(), PeerQuality::Unreliable);
    assert_eq!(PeerQuality::Unreliable.demote(), PeerQuality::Unknown);
    assert_eq!(PeerQuality::Unknown.demote(), PeerQuality::Unknown);
    assert_eq!(PeerQuality::Dishonest.demote(), PeerQuality::Dishonest);
    assert_eq!(PeerQuality::default(), PeerQuality::Unknown);
}

#[test]
fn absent_peers_on_promote_and_demote() {
    let mut list = ledger(2);
    list.demote_peer(Some(A));
    assert_eq!(list.len(), 0);
    list.promote_peer(Some(A));
    assert_eq!(list.quality(A), Some(PeerQuality::Unknown));
    list.promote_peer(None);
    list.demote_peer(None);
    list.disqualify_peer(None);
    assert_eq!(list.len(), 1);
    list.disqualify_peer(Some(B));
    assert_eq!(list.quality(B), Some(PeerQuality::Dishonest));
}

#[test]
fn selection_is_bounded_distinct_and_honest() {
    let mut list = ledger(3);
    for p in 1..=12u64 {
        list.register_peer_at(p, at(1));
        match p % 4 {
            0 => list.disqualify_peer(Some(p)),
            1 => {
                list.promote_peer(Some(p));
                list.promote_peer(Some(p));
            }
            2 => list.promote_peer(Some(p)),
            _ => {}
        }
    }
    for seed in 0..20u64 {
        let mut rng = StdRng::seed_from_u64(seed);
        let picked = list.qualified_peers(&mut rng);
        assert_eq!(picked.len(), 3);
        for (i, p) in picked.iter().enumerate() {
            assert_eq!(list.quality(*p), Some(PeerQuality::Reliable));
            assert!(!picked[i + 1..].contains(p));
        }
    }
}

#[test]
fn sample_is_drawn_when_pool_exceeds_share() {
    let mut list = ledger(2);
    for p in 1..=6u64 {
        list.register_peer_at(p, at(1));
    }
    let mut seen = std::collections::BTreeSet::new();
    for seed in 0..40u64 {
        let mut rng = StdRng::seed_from_u64(seed);
        let picked = list.qualified_peers(&mut rng);
        assert_eq!(picked.len(), 2);
        assert_ne!(picked[0], picked[1]);
        seen.insert(picked[0]);
        seen.insert(picked[1]);
    }
    assert!(seen.len() > 2);
}

#[test]
fn small_pools_are_taken_whole_in_order() {
    let mut list = ledger(10);
    for p in [7u64, 3, 5, 9] {
        list.register_peer_at(p, at(1));
    }
    list.promote_peer(Some(9));
    list.promote_peer(Some(9));
    list.disqualify_peer(Some(5));
    let mut rng = StdRng::seed_from_u64(1);
    assert_eq!(list.qualified_peers(&mut rng), vec![9, 3, 7]);
}

#[test]
fn zero_desired_selects_nothing() {
    let mut list = ledger(0);
    list.register_peer_at(A, at(1));
    list.promote_peer(Some(A));
    list.promote_peer(Some(A));
    let mut rng = StdRng::seed_from_u64(3);
    assert!(list.qualified_peers(&mut rng).is_empty());
    assert!(is_sufficient(list.need_peers_at(at(5_000))));
}

#[test]
fn flush_dishonest_keeps_the_rest() {
    let mut list = ledger(2);
    for p in [A, B, C, D] {
        list.register_peer_at(p, at(1));
    }
    list.promote_peer(Some(A));
    list.disqualify_peer(Some(B));
    list.disqualify_peer(Some(D));
    assert_eq!(list.dishonest_peers(), vec![B, D]);
    list.flush_dishonest_peers();
    assert_eq!(list.len(), 2);
    assert_eq!(list.quality(A), Some(PeerQuality::Unreliable));
    assert_eq!(list.quality(C), Some(PeerQuality::Unknown));
    assert_eq!(list.quality(B), None);
    assert_eq!(list.quality(D), None);
    assert!(list.dishonest_peers().is_empty());
}

#[test]
fn register_twice_is_idempotent() {
    let mut list = ledger(1);
    list.register_peer_at(A, at(1));
    list.promote_peer(Some(A));
    list.register_peer_at(A, at(2));
    assert_eq!(list.quality(A), Some(PeerQuality::Unreliable));
    assert_eq!(list.len(), 1);
}

#[test]
fn registering_a_known_peer_keeps_the_timer() {
    let mut list = ledger(5);
    list.register_peer_at(A, at(0));
    // A new peer restarts the check at 900; the known one does not at 1500.
    list.register_peer_at(B, at(900));
    list.register_peer_at(A, at(1_500));
    assert_eq!(list.need_peers_at(at(1_800)), PeersStatus::Sufficient);
    assert_eq!(list.need_peers_at(at(1_901)), PeersStatus::Stale);
}

#[test]
fn stale_counts_unknown_but_not_unreliable() {
    let mut list = ledger(2);
    list.register_peer_at(A, at(0));
    list.register_peer_at(B, at(0));
    list.promote_peer(Some(B));
    assert_eq!(list.need_peers_at(at(1_001)), PeersStatus::Stale);
    list.register_peer_at(C, at(1_001));
    assert_eq!(list.need_peers_at(at(2_002)), PeersStatus::Sufficient);
}

#[test]
fn clock_going_backwards_is_no_time() {
    let mut list = ledger(4);
    list.register_peer_at(A, at(5_000));
    assert_eq!(list.need_peers_at(at(10)), PeersStatus::Sufficient);
    assert_eq!(list.need_peers_at(at(6_001)), PeersStatus::Stale);
}

#[test]
fn time_values() {
    let d = at(1_500).saturating_diff(at(400));
    assert_eq!(d.millis(), 1_100);
    assert_eq!(at(400).saturating_diff(at(1_500)).millis(), 0);
    assert_eq!(at(77).millis(), 77);
}
