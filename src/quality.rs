use vstd::prelude::*;

verus! {

/// How far a peer is trusted. `Unknown`, `Unreliable` and `Reliable` form a
/// ladder that is climbed or descended one rung at a time; `Dishonest` is
/// terminal and reached only by disqualification.
#[derive(Copy, Clone, PartialEq, Eq, Structural, Debug, Hash)]
pub enum PeerQuality {
    Unknown,
    Unreliable,
    Reliable,
    Dishonest,
}

/// What the ledger reports about the pool of peers it holds.
#[derive(Copy, Clone, PartialEq, Eq, Structural, Debug, Hash)]
pub enum PeersStatus {
    Sufficient,
    Insufficient,
    Stale,
}

/// One rung up: `Reliable` and `Dishonest` stay where they are.
pub open spec fn promoted(q: PeerQuality) -> PeerQuality {
    match q {
        PeerQuality::Unknown => PeerQuality::Unreliable,
        PeerQuality::Unreliable => PeerQuality::Reliable,
        PeerQuality::Reliable => PeerQuality::Reliable,
        PeerQuality::Dishonest => PeerQuality::Dishonest,
    }
}

/// One rung down: `Unknown` and `Dishonest` stay where they are.
pub open spec fn demoted(q: PeerQuality) -> PeerQuality {
    match q {
        PeerQuality::Unknown => PeerQuality::Unknown,
        PeerQuality::Unreliable => PeerQuality::Unknown,
        PeerQuality::Reliable => PeerQuality::Unreliable,
        PeerQuality::Dishonest => PeerQuality::Dishonest,
    }
}

/// What the caller reports about a peer after dealing with it.
#[derive(Copy, Clone, PartialEq, Eq, Structural, Debug, Hash)]
pub enum Verdict {
    Promote,
    Demote,
    Disqualify,
}

/// The quality after one verdict.
pub open spec fn judged(q: PeerQuality, v: Verdict) -> PeerQuality {
    match v {
        Verdict::Promote => promoted(q),
        Verdict::Demote => demoted(q),
        Verdict::Disqualify => PeerQuality::Dishonest,
    }
}

/// The quality after a run of verdicts, applied first to last.
pub open spec fn judged_all(q: PeerQuality, vs: Seq<Verdict>) -> PeerQuality
    decreases vs.len(),
{
    if vs.len() == 0 {
        q
    } else {
        judged_all(judged(q, vs[0]), vs.drop_first())
    }
}

/// The position of a quality on the ladder; `Dishonest` is off it.
pub open spec fn rung(q: PeerQuality) -> int {
    match q {
        PeerQuality::Unknown => 0,
        PeerQuality::Unreliable => 1,
        PeerQuality::Reliable => 2,
        PeerQuality::Dishonest => -1,
    }
}

/// A promotion or a demotion moves a peer on the ladder by at most one rung
/// and never takes it off the ladder; a disqualification always takes it to
/// `Dishonest`.
pub proof fn lemma_one_rung_at_a_time(q: PeerQuality, v: Verdict)
    ensures
        q != PeerQuality::Dishonest && v != Verdict::Disqualify ==> {
            &&& judged(q, v) != PeerQuality::Dishonest
            &&& 0 <= rung(judged(q, v)) <= 2
            &&& -1 <= rung(judged(q, v)) - rung(q) <= 1
        },
        v == Verdict::Disqualify ==> judged(q, v) == PeerQuality::Dishonest,
{
}

/// Over any run of verdicts a peer stays between `Unknown` and `Reliable`,
/// and it ends up `Dishonest` exactly when it started there or the run holds
/// a disqualification.
pub proof fn lemma_ladder_is_closed(q: PeerQuality, vs: Seq<Verdict>)
    ensures
        judged_all(q, vs) == PeerQuality::Dishonest <==> (q == PeerQuality::Dishonest
            || vs.contains(Verdict::Disqualify)),
        judged_all(q, vs) != PeerQuality::Dishonest ==> 0 <= rung(judged_all(q, vs)) <= 2,
    decreases vs.len(),
{
    if vs.len() > 0 {
        lemma_ladder_is_closed(judged(q, vs[0]), vs.drop_first());
        if vs.drop_first().contains(Verdict::Disqualify) {
            let j = choose|j: int| 0 <= j < vs.drop_first().len() && vs.drop_first()[j] == Verdict::Disqualify;
            assert(vs[j + 1] == Verdict::Disqualify);
        }
        if vs.contains(Verdict::Disqualify) && vs[0] != Verdict::Disqualify {
            let j = choose|j: int| 0 <= j < vs.len() && vs[j] == Verdict::Disqualify;
            assert(vs.drop_first()[j - 1] == Verdict::Disqualify);
        }
    }
}

/// Once `Dishonest`, a peer stays `Dishonest` whatever follows.
pub proof fn lemma_dishonest_is_absorbing(vs: Seq<Verdict>)
    ensures
        judged_all(PeerQuality::Dishonest, vs) == PeerQuality::Dishonest,
    decreases vs.len(),
{
    if vs.len() > 0 {
        lemma_dishonest_is_absorbing(vs.drop_first());
    }
}

impl PeerQuality {
    /// The quality after a successful interaction with the peer.
    pub fn promote(self) -> (r: PeerQuality)
        ensures
            r == promoted(self),
    {
        match self {
            PeerQuality::Unknown => PeerQuality::Unreliable,
            PeerQuality::Unreliable => PeerQuality::Reliable,
            PeerQuality::Reliable => PeerQuality::Reliable,
            PeerQuality::Dishonest => PeerQuality::Dishonest,
        }
    }

    /// The quality after the peer failed to deliver.
    pub fn demote(self) -> (r: PeerQuality)
        ensures
            r == demoted(self),
    {
        match self {
            PeerQuality::Reliable => PeerQuality::Unreliable,
            PeerQuality::Unreliable => PeerQuality::Unknown,
            PeerQuality::Unknown => PeerQuality::Unknown,
            PeerQuality::Dishonest => PeerQuality::Dishonest,
        }
    }
}

impl Default for PeerQuality {
    fn default() -> (r: PeerQuality)
        ensures
            r == PeerQuality::Unknown,
    {
        PeerQuality::Unknown
    }
}

} // verus!
