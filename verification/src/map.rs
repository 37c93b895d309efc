//! The map: the stargate graph between SolarSystems and the shortest route
//! across it.

use vstd::prelude::*;
use std::collections::{HashMap, VecDeque};
use crate::ingest::SdeIndex;
use crate::text::{decimal, push_decimal, push_str};

verus! {

broadcast use vstd::std_specs::hash::group_hash_axioms;

/// A stargate leads from SolarSystem `a` to SolarSystem `b`.
pub open spec fn has_edge(g: Map<u64, Vec<u64>>, a: u64, b: u64) -> bool {
    g.contains_key(a) && g[a]@.contains(b)
}

/// `p` is a walk through the stargate graph: every system in it is followed by
/// one its stargates lead to.
pub open spec fn is_walk(g: Map<u64, Vec<u64>>, p: Seq<u64>) -> bool {
    p.len() >= 1 && forall|i: int| #![trigger p[i]] 0 <= i < p.len() - 1 ==> has_edge(g, p[i], p[i + 1])
}

/// `p` is a Route from `from` to `to`: a walk that starts at one and ends at the
/// other. Its jump count is `p.len() - 1`.
pub open spec fn is_route(g: Map<u64, Vec<u64>>, p: Seq<u64>, from: u64, to: u64) -> bool {
    is_walk(g, p) && p[0] == from && p.last() == to
}

/// Every walk from `from` shorter than `level` jumps ends at a discovered system
/// no farther than its length, when every discovered system closer than `level`
/// has all its neighbours discovered, each at most one jump farther.
proof fn lemma_short_walks_discovered(g: Map<u64, Vec<u64>>, disc: Map<u64, u64>, dist: Map<u64, nat>, from: u64, level: nat, q: Seq<u64>)
    requires
        dist.dom() == disc.dom(),
        disc.contains_key(from),
        dist[from] == 0,
        forall|v: u64, x: u64| disc.contains_key(v) && dist[v] < level && #[trigger] has_edge(g, v, x) ==> disc.contains_key(x) && dist[x] <= dist[v] + 1,
        is_walk(g, q),
        q[0] == from,
        q.len() - 1 <= level,
    ensures
        disc.contains_key(q.last()),
        dist[q.last()] <= q.len() - 1,
    decreases q.len(),
{
    if q.len() > 1 {
        let q2 = q.drop_last();
        assert forall|i: int| #![trigger q2[i]] 0 <= i < q2.len() - 1 implies has_edge(g, q2[i], q2[i + 1]) by {
            assert(q2[i] == q[i] && q2[i + 1] == q[i + 1]);
            assert(has_edge(g, q[i], q[i + 1]));
        }
        lemma_short_walks_discovered(g, disc, dist, from, level, q2);
        let y = q2.last();
        assert(y == q[q.len() - 2]);
        assert(has_edge(g, q[q.len() - 2], q[q.len() - 2 + 1]));
        assert(has_edge(g, y, q.last()));
    }
}

/// In a discovered set closed under stargates, every walk from a discovered
/// system stays inside it.
proof fn lemma_walks_stay_discovered(g: Map<u64, Vec<u64>>, disc: Map<u64, u64>, from: u64, q: Seq<u64>)
    requires
        disc.contains_key(from),
        forall|v: u64, x: u64| disc.contains_key(v) && #[trigger] has_edge(g, v, x) ==> disc.contains_key(x),
        is_walk(g, q),
        q[0] == from,
    ensures
        disc.contains_key(q.last()),
    decreases q.len(),
{
    if q.len() > 1 {
        let q2 = q.drop_last();
        assert forall|i: int| #![trigger q2[i]] 0 <= i < q2.len() - 1 implies has_edge(g, q2[i], q2[i + 1]) by {
            assert(q2[i] == q[i] && q2[i + 1] == q[i + 1]);
            assert(has_edge(g, q[i], q[i + 1]));
        }
        lemma_walks_stay_discovered(g, disc, from, q2);
        assert(has_edge(g, q[q.len() - 2], q[q.len() - 2 + 1]));
    }
}

/// Walks back from `to` along the BFS parent links and returns the route in
/// travel order, one system per jump of `dist[to]`.
fn reconstruct(prev: &HashMap<u64, u64>, Ghost(g): Ghost<Map<u64, Vec<u64>>>, Ghost(dist): Ghost<Map<u64, nat>>, from: u64, to: u64) -> (p: Vec<u64>)
    requires
        dist.dom() == prev@.dom(),
        prev@.contains_key(to),
        prev@.contains_key(from),
        dist[from] == 0,
        forall|v: u64| #[trigger] prev@.contains_key(v) && v != from ==> prev@.contains_key(prev@[v]) && dist[prev@[v]] + 1 == dist[v] && has_edge(g, prev@[v], v),
    ensures
        is_route(g, p@, from, to),
        p@.len() == dist[to] + 1,
{
    let mut rev: Vec<u64> = Vec::new();
    rev.push(to);
    let mut node = to;
    while node != from
        invariant
            dist.dom() == prev@.dom(),
            prev@.contains_key(node),
            prev@.contains_key(from),
            dist[from] == 0,
            forall|v: u64| #[trigger] prev@.contains_key(v) && v != from ==> prev@.contains_key(prev@[v]) && dist[prev@[v]] + 1 == dist[v] && has_edge(g, prev@[v], v),
            rev@.len() >= 1,
            rev@[0] == to,
            rev@.last() == node,
            dist[to] == dist[node] + rev@.len() - 1,
            forall|i: int| #![trigger rev@[i]] 0 <= i < rev@.len() - 1 ==> has_edge(g, rev@[i + 1], rev@[i]),
        decreases dist[node],
    {
        let p = match prev.get(&node) {
            Some(p) => *p,
            None => {
                proof { assert(false); }
                node
            },
        };
        let ghost old_rev = rev@;
        rev.push(p);
        proof {
            assert forall|i: int| #![trigger rev@[i]] 0 <= i < rev@.len() - 1 implies has_edge(g, rev@[i + 1], rev@[i]) by {
                if i < old_rev.len() - 1 {
                    assert(rev@[i] == old_rev[i] && rev@[i + 1] == old_rev[i + 1]);
                    assert(has_edge(g, old_rev[i + 1], old_rev[i]));
                } else {
                    assert(rev@[i] == node);
                    assert(rev@[i + 1] == p);
                }
            }
        }
        node = p;
    }
    let n = rev.len();
    let mut path: Vec<u64> = Vec::new();
    let mut k: usize = 0;
    while k < n
        invariant
            n == rev@.len(),
            0 <= k <= n,
            path@.len() == k,
            forall|i: int| 0 <= i < k ==> path@[i] == rev@[n - 1 - i],
        decreases n - k,
    {
        path.push(rev[n - 1 - k]);
        k = k + 1;
    }
    proof {
        assert forall|i: int| #![trigger path@[i]] 0 <= i < path@.len() - 1 implies has_edge(g, path@[i], path@[i + 1]) by {
            let j = n - 2 - i;
            assert(path@[i] == rev@[n - 1 - i]);
            assert(path@[i + 1] == rev@[n - 1 - (i + 1)]);
            assert(rev@[j + 1] == rev@[n - 1 - i]);
            assert(has_edge(g, rev@[j + 1], rev@[j]));
        }
    }
    path
}

/// Every system some stargate leads to.
pub open spec fn targets(g: Map<u64, Vec<u64>>) -> Set<u64> {
    Set::new(|x: u64| exists|a: u64| #[trigger] has_edge(g, a, x))
}

proof fn lemma_targets_finite(g: Map<u64, Vec<u64>>)
    requires
        g.dom().finite(),
    ensures
        targets(g).finite(),
    decreases g.dom().len(),
{
    if g.dom().len() == 0 {
        assert forall|x: u64| !targets(g).contains(x) by {
            if targets(g).contains(x) {
                let a = choose|a: u64| #[trigger] has_edge(g, a, x);
                assert(g.dom().contains(a));
            }
        }
        assert(targets(g) =~= Set::<u64>::empty());
    } else {
        let a = g.dom().choose();
        assert(g.dom().contains(a));
        let g2 = g.remove(a);
        assert(g2.dom() =~= g.dom().remove(a));
        lemma_targets_finite(g2);
        let extra = g[a]@.to_set();
        vstd::seq_lib::seq_to_set_is_finite(g[a]@);
        assert forall|x: u64| #[trigger] targets(g).contains(x) implies targets(g2).union(extra).contains(x) by {
            let b = choose|b: u64| #[trigger] has_edge(g, b, x);
            if b == a {
                assert(g[a]@.contains(x));
            } else {
                assert(has_edge(g2, b, x));
            }
        }
        vstd::set_lib::lemma_len_subset(targets(g), targets(g2).union(extra));
    }
}

/// The shortest Route between two SolarSystems by breadth-first search over the
/// stargate graph: a route whose jump count no other route beats, or `None`
/// exactly when no route exists. A system is its own route, with no jumps.
pub fn bfs_route(graph: &HashMap<u64, Vec<u64>>, from: u64, to: u64) -> (r: Option<Vec<u64>>)
    ensures
        match r {
            Some(p) => is_route(graph@, p@, from, to) && forall|q: Seq<u64>| #[trigger] is_route(graph@, q, from, to) ==> q.len() >= p@.len(),
            None => forall|q: Seq<u64>| !#[trigger] is_route(graph@, q, from, to),
        },
{
    let ghost g = graph@;
    if from == to {
        let p = vec![from];
        assert(is_route(g, p@, from, to));
        return Some(p);
    }
    let ghost universe = targets(g).insert(from);
    proof { lemma_targets_finite(g); }
    let mut queue: VecDeque<u64> = VecDeque::new();
    let mut prev: HashMap<u64, u64> = HashMap::new();
    queue.push_back(from);
    prev.insert(from, from);
    let ghost mut dist: Map<u64, nat> = Map::empty().insert(from, 0nat);
    let ghost mut level: nat = 0;
    assert(dist.dom() =~= prev@.dom());
    proof {
        vstd::set_lib::lemma_len_subset(prev@.dom(), universe);
        assert(queue@[0] == from);
        assert(queue@.contains(from));
    }
    loop
        invariant
            g == graph@,
            from != to,
            universe == targets(g).insert(from),
            universe.finite(),
            prev@.dom().subset_of(universe),
            prev@.dom().len() <= universe.len(),
            dist.dom() == prev@.dom(),
            prev@.contains_key(from),
            dist[from] == 0,
            !prev@.contains_key(to),
            forall|v: u64| #[trigger] prev@.contains_key(v) && v != from ==> prev@.contains_key(prev@[v]) && dist[prev@[v]] + 1 == dist[v] && has_edge(g, prev@[v], v),
            forall|i: int| 0 <= i < queue@.len() ==> prev@.contains_key(#[trigger] queue@[i]) && level <= dist[queue@[i]] <= level + 1,
            forall|i: int, j: int| 0 <= i < j < queue@.len() ==> dist[#[trigger] queue@[i]] <= dist[#[trigger] queue@[j]] && queue@[i] != queue@[j],
            forall|v: u64| #[trigger] prev@.contains_key(v) ==> dist[v] <= level + 1,
            forall|v: u64, x: u64| prev@.contains_key(v) && !queue@.contains(v) && #[trigger] has_edge(g, v, x) ==> prev@.contains_key(x) && dist[x] <= dist[v] + 1,
            forall|v: u64| #[trigger] prev@.contains_key(v) && !queue@.contains(v) ==> dist[v] <= level,
        decreases universe.len() - prev@.dom().len(), queue@.len(),
    {
        let ghost old_queue = queue@;
        let ghost d0 = prev@.dom().len();
        let curr = match queue.pop_front() {
            None => {
                proof {
                    assert forall|v: u64, x: u64| prev@.contains_key(v) && #[trigger] has_edge(g, v, x) implies prev@.contains_key(x) by {
                        assert(!queue@.contains(v));
                    }
                    assert forall|q: Seq<u64>| !#[trigger] is_route(g, q, from, to) by {
                        if is_route(g, q, from, to) {
                            lemma_walks_stay_discovered(g, prev@, from, q);
                        }
                    }
                }
                return None;
            },
            Some(c) => c,
        };
        proof {
            assert(curr == old_queue[0]);
            assert(queue@ =~= old_queue.subrange(1, old_queue.len() as int));
            assert(!queue@.contains(curr)) by {
                if queue@.contains(curr) {
                    let j = choose|j: int| 0 <= j < queue@.len() && queue@[j] == curr;
                    assert(old_queue[j + 1] == curr);
                    assert(old_queue[0] != old_queue[j + 1]);
                }
            }
            assert forall|i: int| 0 <= i < queue@.len() implies dist[#[trigger] queue@[i]] >= dist[curr] by {
                assert(queue@[i] == old_queue[i + 1]);
                assert(dist[old_queue[0]] <= dist[old_queue[i + 1]]);
            }
            assert forall|v: u64| #[trigger] prev@.contains_key(v) && !queue@.contains(v) && v != curr implies !old_queue.contains(v) by {
                if old_queue.contains(v) {
                    let j = choose|j: int| 0 <= j < old_queue.len() && old_queue[j] == v;
                    if j > 0 {
                        assert(queue@[j - 1] == v);
                    }
                }
            }
            level = dist[curr];
        }
        match graph.get(&curr) {
            None => {
                proof {
                    assert forall|x: u64| !#[trigger] has_edge(g, curr, x) by {}
                }
            },
            Some(neighbors) => {
                let mut k: usize = 0;
                while k < neighbors.len()
                    invariant
                        g == graph@,
                        g.contains_key(curr),
                        neighbors@ == g[curr]@,
                        0 <= k <= neighbors.len(),
                        from != to,
                        universe == targets(g).insert(from),
                        universe.finite(),
                        prev@.dom().subset_of(universe),
                        prev@.dom().len() <= universe.len(),
                        dist.dom() == prev@.dom(),
                        prev@.contains_key(from),
                        dist[from] == 0,
                        !prev@.contains_key(to),
                        prev@.contains_key(curr),
                        dist[curr] == level,
                        !queue@.contains(curr),
                        forall|v: u64| #[trigger] prev@.contains_key(v) && v != from ==> prev@.contains_key(prev@[v]) && dist[prev@[v]] + 1 == dist[v] && has_edge(g, prev@[v], v),
                        forall|i: int| 0 <= i < queue@.len() ==> prev@.contains_key(#[trigger] queue@[i]) && level <= dist[queue@[i]] <= level + 1,
                        forall|i: int, j: int| 0 <= i < j < queue@.len() ==> dist[#[trigger] queue@[i]] <= dist[#[trigger] queue@[j]] && queue@[i] != queue@[j],
                        forall|v: u64| #[trigger] prev@.contains_key(v) ==> dist[v] <= level + 1,
                        forall|v: u64, x: u64| prev@.contains_key(v) && !queue@.contains(v) && v != curr && #[trigger] has_edge(g, v, x) ==> prev@.contains_key(x) && dist[x] <= dist[v] + 1,
                        forall|v: u64| #[trigger] prev@.contains_key(v) && !queue@.contains(v) ==> dist[v] <= level,
                        forall|t: int| 0 <= t < k ==> prev@.contains_key(#[trigger] neighbors@[t]) && dist[neighbors@[t]] <= level + 1,
                        queue@.len() + d0 == old_queue.len() - 1 + prev@.dom().len(),
                        prev@.dom().len() >= d0,
                    decreases neighbors.len() - k,
                {
                    let next = neighbors[k];
                    if !prev.contains_key(&next) {
                        proof {
                            assert(has_edge(g, curr, next)) by {
                                assert(g[curr]@[k as int] == next);
                            }
                        }
                        if next == to {
                            let ghost dist_before = dist;
                            let ghost disc_before = prev@;
                            proof {
                                assert forall|v: u64, x: u64| disc_before.contains_key(v) && dist_before[v] < level && #[trigger] has_edge(g, v, x) implies disc_before.contains_key(x) && dist_before[x] <= dist_before[v] + 1 by {
                                    assert(v != curr);
                                    if queue@.contains(v) {
                                        let j = choose|j: int| 0 <= j < queue@.len() && queue@[j] == v;
                                        assert(level <= dist[queue@[j]]);
                                    }
                                }
                                assert forall|q: Seq<u64>| #[trigger] is_route(g, q, from, to) implies q.len() >= level + 2 by {
                                    if q.len() < level + 2 {
                                        lemma_short_walks_discovered(g, disc_before, dist_before, from, level, q);
                                    }
                                }
                            }
                            prev.insert(next, curr);
                            proof {
                                dist = dist.insert(next, level + 1);
                                assert(dist.dom() =~= prev@.dom());
                                assert forall|v: u64| #[trigger] prev@.contains_key(v) && v != from implies prev@.contains_key(prev@[v]) && dist[prev@[v]] + 1 == dist[v] && has_edge(g, prev@[v], v) by {
                                    if v != next {
                                        assert(disc_before.contains_key(v));
                                    }
                                }
                            }
                            let path = reconstruct(&prev, Ghost(g), Ghost(dist), from, to);
                            return Some(path);
                        }
                        let ghost disc_before = prev@;
                        let ghost old_q = queue@;
                        prev.insert(next, curr);
                        queue.push_back(next);
                        proof {
                            dist = dist.insert(next, level + 1);
                            assert(dist.dom() =~= prev@.dom());
                            assert(universe.contains(next));
                            assert(prev@.dom() =~= disc_before.dom().insert(next));
                            vstd::set_lib::lemma_len_subset(prev@.dom(), universe);
                            assert(!disc_before.dom().contains(next));
                            assert(prev@.dom().len() == disc_before.dom().len() + 1);
                            assert forall|v: u64| #[trigger] prev@.contains_key(v) && v != from implies prev@.contains_key(prev@[v]) && dist[prev@[v]] + 1 == dist[v] && has_edge(g, prev@[v], v) by {
                                if v != next {
                                    assert(disc_before.contains_key(v));
                                }
                            }
                            assert forall|i: int| 0 <= i < queue@.len() implies prev@.contains_key(#[trigger] queue@[i]) && level <= dist[queue@[i]] <= level + 1 by {
                                if i < queue@.len() - 1 {
                                    assert(disc_before.contains_key(queue@[i]));
                                }
                            }
                            assert forall|i: int, j: int| 0 <= i < j < queue@.len() implies dist[#[trigger] queue@[i]] <= dist[#[trigger] queue@[j]] && queue@[i] != queue@[j] by {
                                if j == queue@.len() - 1 {
                                    assert(disc_before.contains_key(queue@[i]));
                                }
                            }
                            assert(queue@ == old_q.push(next));
                            assert forall|v: u64| #[trigger] prev@.contains_key(v) && !queue@.contains(v) implies dist[v] <= level by {
                                assert(queue@[queue@.len() - 1] == next);
                                if v != next {
                                    assert(disc_before.contains_key(v));
                                    if old_q.contains(v) {
                                        let j = choose|j: int| 0 <= j < old_q.len() && old_q[j] == v;
                                        assert(queue@[j] == v);
                                    }
                                }
                            }
                            assert forall|v: u64, x: u64| prev@.contains_key(v) && !queue@.contains(v) && v != curr && #[trigger] has_edge(g, v, x) implies prev@.contains_key(x) && dist[x] <= dist[v] + 1 by {
                                assert(queue@[queue@.len() - 1] == next);
                                if v != next {
                                    assert(disc_before.contains_key(v));
                                    if old_q.contains(v) {
                                        let j = choose|j: int| 0 <= j < old_q.len() && old_q[j] == v;
                                        assert(queue@[j] == v);
                                    }
                                }
                            }
                        }
                    }
                    k = k + 1;
                }
                proof {
                    assert forall|x: u64| #[trigger] has_edge(g, curr, x) implies prev@.contains_key(x) && dist[x] <= dist[curr] + 1 by {
                        let t = choose|t: int| 0 <= t < neighbors@.len() && neighbors@[t] == x;
                    }
                }
            },
        }
        proof {
            assert forall|v: u64, x: u64| prev@.contains_key(v) && !queue@.contains(v) && #[trigger] has_edge(g, v, x) implies prev@.contains_key(x) && dist[x] <= dist[v] + 1 by {
                if v == curr {
                    assert(has_edge(g, curr, x));
                }
            }
        }
    }
}

/// Why a route request is refused.
#[derive(Clone, Copy, Debug, PartialEq, Eq, Structural)]
pub enum RouteError {
    /// The SDE declares no SolarSystem with this ID.
    SystemNotFound(u64),
    /// No stargate route joins the two systems.
    NoRoute,
}

/// The message a refused route answers with.
pub open spec fn route_error_text(e: RouteError) -> Seq<char> {
    match e {
        RouteError::SystemNotFound(id) => "ID "@ + decimal(id as nat) + " not found in mapSolarSystems"@,
        RouteError::NoRoute => "No route found"@,
    }
}

impl RouteError {
    /// The message a caller sees.
    pub fn message(self) -> (s: String)
        ensures
            s@ == route_error_text(self),
    {
        let mut s = String::new();
        match self {
            RouteError::SystemNotFound(id) => {
                push_str(&mut s, "ID ");
                push_decimal(&mut s, id);
                push_str(&mut s, " not found in mapSolarSystems");
            },
            RouteError::NoRoute => push_str(&mut s, "No route found"),
        }
        s
    }
}

/// The shortest Route from `from` to `to`, both of which must be SolarSystems
/// the SDE declares (`systems` indexes them): an undeclared endpoint is refused
/// first, the starting one before the destination, even when the two are the
/// same; then a shortest route, or `NoRoute` exactly when none exists.
pub fn find_route(systems: &SdeIndex, graph: &HashMap<u64, Vec<u64>>, from: u64, to: u64) -> (r: Result<Vec<u64>, RouteError>)
    ensures
        !systems.id_index@.contains_key(from) ==> r == Err::<Vec<u64>, RouteError>(RouteError::SystemNotFound(from)),
        systems.id_index@.contains_key(from) && !systems.id_index@.contains_key(to)
            ==> r == Err::<Vec<u64>, RouteError>(RouteError::SystemNotFound(to)),
        systems.id_index@.contains_key(from) && systems.id_index@.contains_key(to) ==> match r {
            Ok(p) => is_route(graph@, p@, from, to) && forall|q: Seq<u64>| #[trigger] is_route(graph@, q, from, to) ==> q.len() >= p@.len(),
            Err(e) => e == RouteError::NoRoute && forall|q: Seq<u64>| !#[trigger] is_route(graph@, q, from, to),
        },
{
    if systems.offset_of(from).is_none() {
        return Err(RouteError::SystemNotFound(from));
    }
    if systems.offset_of(to).is_none() {
        return Err(RouteError::SystemNotFound(to));
    }
    match bfs_route(graph, from, to) {
        Some(p) => Ok(p),
        None => Err(RouteError::NoRoute),
    }
}

} // verus!
