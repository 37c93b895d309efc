//! The walk up a market group's ancestors: fetch a group, follow its parent,
//! stop at the root, and refuse a chain longer than the cap.

use vstd::prelude::*;

verus! {

/// The most market groups an ancestor chain may hold.
pub const MAX_MARKET_HOPS: usize = 20;

/// What the ancestor walk does next.
#[derive(Clone, Copy, Debug, PartialEq, Eq, Structural)]
pub enum MarketStep {
    /// Fetch this group and add it to the chain.
    Fetch(u64),
    /// The chain reached a root; it is complete.
    Done,
    /// The chain would exceed the cap.
    TooDeep,
}

/// The step after a group was added to a chain now `chain_len` long, whose
/// parent is `parent`: stop at a root, else fetch the parent unless the chain
/// is already at the cap.
pub open spec fn next_market_step(chain_len: nat, parent: Option<u64>) -> MarketStep {
    match parent {
        None => MarketStep::Done,
        Some(p) => if chain_len >= MAX_MARKET_HOPS { MarketStep::TooDeep } else { MarketStep::Fetch(p) },
    }
}

/// Decides the walk's next step once a group with parent `parent` has been
/// added to a chain now `chain_len` long.
pub fn market_step(chain_len: usize, parent: Option<u64>) -> (r: MarketStep)
    ensures
        r == next_market_step(chain_len as nat, parent),
{
    match parent {
        None => MarketStep::Done,
        Some(p) => if chain_len >= MAX_MARKET_HOPS { MarketStep::TooDeep } else { MarketStep::Fetch(p) },
    }
}

/// An ancestor walk: the groups fetched so far, each with the parent it
/// records, from the starting group up.
pub struct MarketWalk {
    pub start: u64,
    pub groups: Vec<(u64, Option<u64>)>,
    pub too_deep: bool,
}

/// The walk is consistent: it starts at `start`, each group is the parent the
/// one before recorded, it holds at most `MAX_MARKET_HOPS` groups, and it stops
/// as too deep only at the cap with a parent left to follow.
pub open spec fn walk_ok(w: &MarketWalk) -> bool {
    let g = w.groups@;
    &&& g.len() <= MAX_MARKET_HOPS
    &&& g.len() > 0 ==> g[0].0 == w.start
    &&& forall|i: int| 0 <= i < g.len() - 1 ==> (#[trigger] g[i]).1 == Some(g[i + 1].0)
    &&& w.too_deep <==> (g.len() == MAX_MARKET_HOPS && g.last().1 is Some)
}

/// The group the walk fetches next: the start, then each recorded parent,
/// until a root or the cap.
pub open spec fn next_id(w: &MarketWalk) -> Option<u64> {
    if w.too_deep {
        None
    } else if w.groups@.len() == 0 {
        Some(w.start)
    } else {
        w.groups@.last().1
    }
}

impl MarketWalk {
    /// A walk up from group `start`.
    pub fn new(start: u64) -> (w: MarketWalk)
        ensures
            w.start == start,
            w.groups@.len() == 0,
            !w.too_deep,
            walk_ok(&w),
    {
        MarketWalk { start, groups: Vec::new(), too_deep: false }
    }

    /// The group to fetch next, if the walk goes on.
    pub fn next(&self) -> (r: Option<u64>)
        ensures
            r == next_id(self),
    {
        if self.too_deep {
            None
        } else if self.groups.len() == 0 {
            Some(self.start)
        } else {
            self.groups[self.groups.len() - 1].1
        }
    }

    /// Records that the group the walk asked for has parent `parent`, and
    /// answers what the walk does next. A walk that has ended is left as it is.
    pub fn add(&mut self, parent: Option<u64>) -> (r: MarketStep)
        ensures
            final(self).start == old(self).start,
            match next_id(old(self)) {
                None => *final(self) == *old(self) && r == (if old(self).too_deep { MarketStep::TooDeep } else { MarketStep::Done }),
                Some(id) => {
                    &&& final(self).groups@ == old(self).groups@.push((id, parent))
                    &&& r == next_market_step(final(self).groups@.len(), parent)
                    &&& final(self).too_deep == (r is TooDeep)
                },
            },
            walk_ok(old(self)) ==> walk_ok(final(self)),
            r matches MarketStep::Fetch(p) ==> next_id(final(self)) == Some(p),
    {
        match self.next() {
            None => {
                if self.too_deep { MarketStep::TooDeep } else { MarketStep::Done }
            },
            Some(id) => {
                let ghost g0 = self.groups@;
                self.groups.push((id, parent));
                let r = market_step(self.groups.len(), parent);
                if r == MarketStep::TooDeep {
                    self.too_deep = true;
                }
                proof {
                    let g = self.groups@;
                    if walk_ok(old(self)) {
                        assert(g.len() <= MAX_MARKET_HOPS);
                        assert forall|i: int| 0 <= i < g.len() - 1 implies (#[trigger] g[i]).1 == Some(g[i + 1].0) by {
                            if i < g0.len() - 1 {
                                assert(g[i] == g0[i] && g[i + 1] == g0[i + 1]);
                                assert(g0[i].1 == Some(g0[i + 1].0));
                            } else {
                                assert(g[i] == g0.last());
                                assert(g[i + 1] == (id, parent));
                            }
                        }
                    }
                }
                r
            },
        }
    }

    /// The positions of the walk's groups, root first: the reverse of the
    /// order they were fetched in.
    pub fn root_first(&self) -> (r: Vec<usize>)
        ensures
            r@.len() == self.groups@.len(),
            forall|k: int| 0 <= k < r@.len() ==> #[trigger] r@[k] == self.groups@.len() - 1 - k,
    {
        let n = self.groups.len();
        let mut r: Vec<usize> = Vec::new();
        let mut k: usize = 0;
        while k < n
            invariant
                0 <= k <= n,
                n == self.groups@.len(),
                r@.len() == k,
                forall|j: int| 0 <= j < k ==> #[trigger] r@[j] == n - 1 - j,
            decreases n - k,
        {
            r.push(n - 1 - k);
            k = k + 1;
        }
        r
    }
}

/// A completed walk read root first is the ancestor chain: the first group is
/// a root, each next group's parent is the one before it, and it ends at the
/// starting group, within `MAX_MARKET_HOPS` groups.
pub proof fn lemma_market_chain(w: &MarketWalk)
    requires
        walk_ok(w),
        w.groups@.len() > 0,
        next_id(w) is None,
        !w.too_deep,
    ensures
        w.groups@.len() <= MAX_MARKET_HOPS,
        w.groups@[w.groups@.len() - 1].1 is None,
        w.groups@[0].0 == w.start,
        forall|k: int| 0 < k < w.groups@.len() ==> (#[trigger] w.groups@[k - 1]).1 == Some(w.groups@[k].0),
{
    let g = w.groups@;
    assert forall|k: int| 0 < k < g.len() implies (#[trigger] g[k - 1]).1 == Some(g[k].0) by {
        assert(g[k - 1].1 == Some(g[(k - 1) + 1].0));
    }
}

/// The walk never fetches a group into a chain already at the cap: a chain
/// it completes holds at most `MAX_MARKET_HOPS` groups.
pub proof fn lemma_market_walk_bounded(chain_len: nat, parent: Option<u64>)
    ensures
        next_market_step(chain_len, parent) is Fetch ==> chain_len + 1 <= MAX_MARKET_HOPS,
{
}

} // verus!
