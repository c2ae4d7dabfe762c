//! Time bookkeeping of one key's visit aggregate: when its running score was
//! last anchored, and how each new visit moves that anchor.

use vstd::prelude::*;

verus! {

/// How a visit changes a key's running score.
#[derive(Clone, Copy, Debug, PartialEq, Eq)]
pub enum Advance {
    /// First visit: the score becomes 1.
    Start,
    /// A visit in order: the score decays over this many seconds, then gains 1.
    Decay(u64),
    /// A visit older than the anchor: it counts as simultaneous with the
    /// anchor, so the score gains 1 with no decay.
    Simultaneous,
}

/// The anchor of a key's running score: the time up to which the score has
/// been decayed, once the key has been visited.
#[derive(Clone, Copy, Debug)]
pub struct VisitAnchor {
    last_ts: i64,
    initialized: bool,
}

impl VisitAnchor {
    pub closed spec fn anchor(&self) -> Option<i64> {
        if self.initialized {
            Some(self.last_ts)
        } else {
            None
        }
    }

    /// A key with no visit yet.
    pub fn new() -> (r: VisitAnchor)
        ensures
            r.anchor() is None,
    {
        VisitAnchor { last_ts: 0, initialized: false }
    }

    /// The anchor time, once there is one.
    pub fn last_ts(&self) -> (r: Option<i64>)
        ensures
            r == self.anchor(),
    {
        if self.initialized {
            Some(self.last_ts)
        } else {
            None
        }
    }

    /// Records a visit at `ts` and says how the score changes. The anchor
    /// moves to `ts` unless `ts` is older than it; it never moves backward.
    pub fn observe(&mut self, ts: i64) -> (r: Advance)
        ensures
            match old(self).anchor() {
                None => r == Advance::Start && final(self).anchor() == Some(ts),
                Some(last) => if ts >= last {
                    r == Advance::Decay((ts - last) as u64) && final(self).anchor() == Some(ts)
                } else {
                    r == Advance::Simultaneous && final(self).anchor() == Some(last)
                },
            },
            old(self).anchor() matches Some(last) ==> final(self).anchor() matches Some(
                now_last,
            ) && now_last >= last,
            final(self).anchor() == anchor_step(old(self).anchor(), ts),
            match r {
                Advance::Decay(d) => d as int == decay_of(old(self).anchor(), ts),
                _ => decay_of(old(self).anchor(), ts) == 0,
            },
    {
        if !self.initialized {
            self.last_ts = ts;
            self.initialized = true;
            return Advance::Start;
        }
        if ts >= self.last_ts {
            let dt = (ts as i128 - self.last_ts as i128) as u64;
            self.last_ts = ts;
            Advance::Decay(dt)
        } else {
            Advance::Simultaneous
        }
    }

    /// Seconds over which the score decays to reach time `now`: none before
    /// the first visit, and 0 when `now` is not after the anchor.
    pub fn elapsed_at(&self, now: i64) -> (r: Option<u64>)
        ensures
            match self.anchor() {
                None => r is None,
                Some(last) => r == Some(
                    if now > last {
                        (now - last) as u64
                    } else {
                        0u64
                    },
                ),
            },
    {
        if !self.initialized {
            return None;
        }
        if now > self.last_ts {
            Some((now as i128 - self.last_ts as i128) as u64)
        } else {
            Some(0)
        }
    }
}


/// The anchor after a visit at `t`, as `VisitAnchor::observe` moves it.
pub open spec fn anchor_step(a: Option<i64>, t: i64) -> Option<i64> {
    match a {
        None => Some(t),
        Some(last) => if t >= last {
            Some(t)
        } else {
            Some(last)
        },
    }
}

/// Seconds of decay that one visit at `t` applies to the running score.
pub open spec fn decay_of(a: Option<i64>, t: i64) -> int {
    match a {
        Some(last) => if t >= last {
            t - last
        } else {
            0
        },
        None => 0,
    }
}

/// The anchor after visits at `ts`, in order, starting from `a`.
pub open spec fn anchor_after(a: Option<i64>, ts: Seq<i64>) -> Option<i64>
    decreases ts.len(),
{
    if ts.len() == 0 {
        a
    } else {
        anchor_after(anchor_step(a, ts[0]), ts.drop_first())
    }
}

/// Total seconds of decay that visits at `ts`, in order, apply to a score
/// anchored at `a`.
pub open spec fn decay_total(a: Option<i64>, ts: Seq<i64>) -> int
    decreases ts.len(),
{
    if ts.len() == 0 {
        0
    } else {
        decay_of(a, ts[0]) + decay_total(anchor_step(a, ts[0]), ts.drop_first())
    }
}

pub open spec fn nondecreasing(ts: Seq<i64>) -> bool {
    forall|i: int, j: int| 0 <= i < j < ts.len() ==> ts[i] <= ts[j]
}

/// Law: for visits in nondecreasing time order, the running score decays the
/// unit of a visit at `t` by exactly the time from `t` to the last visit, which
/// becomes the anchor; with the decay from the anchor to the query time, every
/// visit is weighted by the time from it to the query, as a batch sum weights
/// it.
pub proof fn lemma_decay_telescopes(t: i64, later: Seq<i64>)
    requires
        nondecreasing(seq![t] + later),
    ensures
        later.len() == 0 ==> decay_total(Some(t), later) == 0 && anchor_after(Some(t), later)
            == Some(t),
        later.len() > 0 ==> decay_total(Some(t), later) == later.last() - t && anchor_after(
            Some(t),
            later,
        ) == Some(later.last()),
    decreases later.len(),
{
    if later.len() > 0 {
        let all = seq![t] + later;
        assert(all[0] == t && all[1] == later[0]);
        let rest = later.drop_first();
        assert forall|i: int, j: int|
            0 <= i < j < (seq![later[0]] + rest).len() implies (seq![later[0]] + rest)[i] <= (
        seq![later[0]] + rest)[j] by {
            assert((seq![later[0]] + rest)[i] == all[i + 1]);
            assert((seq![later[0]] + rest)[j] == all[j + 1]);
        }
        lemma_decay_telescopes(later[0], rest);
        if rest.len() > 0 {
            assert(rest.last() == later.last());
        }
    }
}

} // verus!
