//! Routes through the stargate network, searched with A* and kept in a
//! cache.
use std::collections::{HashMap, HashSet};
use vstd::prelude::*;

use crate::types::{dist_sq, Stargate, System};

verus! {

broadcast use vstd::std_specs::hash::group_hash_axioms;

/// Whether `systems` has a gate from `a` to `b`: system `a` is known and
/// one of its stargates starts at `a` and leads to `b`.
pub open spec fn is_gate(systems: Map<u32, System>, a: u32, b: u32) -> bool {
    &&& systems.contains_key(a)
    &&& exists|k: int|
        0 <= k < systems[a].stargates@.len() && #[trigger] systems[a].stargates@[k] == (Stargate {
            origin: a,
            destination: b,
        })
}

/// Whether `p` is a route from `from` to `to`: it starts at `from`, ends
/// at `to`, passes only through known systems, and each step takes a gate.
pub open spec fn is_route(systems: Map<u32, System>, p: Seq<u32>, from: u32, to: u32) -> bool {
    &&& p.len() > 0
    &&& p[0] == from
    &&& p[p.len() - 1] == to
    &&& forall|i: int| 0 <= i < p.len() ==> systems.contains_key(#[trigger] p[i])
    &&& forall|i: int| 0 <= i < p.len() - 1 ==> #[trigger] is_gate(systems, p[i], p[i + 1])
}

/// Whether no system occurs twice on `p`.
pub open spec fn visits_once(p: Seq<u32>) -> bool {
    forall|i: int, j: int| 0 <= i < j < p.len() ==> #[trigger] p[i] != #[trigger] p[j]
}

/// Whether some route leads from `from` to `to`.
pub open spec fn reachable(systems: Map<u32, System>, from: u32, to: u32) -> bool {
    exists|p: Seq<u32>| is_route(systems, p, from, to)
}

/// The key under which the route from `a` to `b` is cached.
pub open spec fn cache_key(a: u32, b: u32) -> u64 {
    (a as int * 0x1_0000_0000 + b as int) as u64
}

/// Where a search stands: still going, ended at the destination, or ended
/// with nothing left to try.
pub ghost enum SearchStatus {
    Running,
    Found,
    Exhausted,
}

/// The state of an A* search: the open entries (system, estimated total
/// cost) in the order they were added, the best known cost of each system
/// reached, the system each was reached from, the closed systems, and
/// where the search stands.
pub ghost struct SearchState {
    pub open: Seq<(u32, u128)>,
    pub g: Map<u32, u128>,
    pub came: Map<u32, u32>,
    pub closed: Set<u32>,
    pub status: SearchStatus,
}

/// The cost estimate between two known systems: their squared distance.
pub open spec fn estimate(systems: Map<u32, System>, a: u32, b: u32) -> int {
    dist_sq(systems[a].position, systems[b].position)
}

/// `a + b`, or the largest `u128` when the sum does not fit.
pub open spec fn capped_sum(a: int, b: int) -> u128 {
    if a + b <= u128::MAX {
        (a + b) as u128
    } else {
        u128::MAX
    }
}

/// The index of the first entry of least estimated cost among the first
/// `n` entries of `open`.
pub open spec fn first_least(open: Seq<(u32, u128)>, n: nat) -> int
    decreases n,
{
    if n <= 1 {
        0
    } else {
        let b = first_least(open, (n - 1) as nat);
        if open[n - 1].1 < open[b].1 {
            n - 1
        } else {
            b
        }
    }
}

/// The state after following `gate` out of `cur`, whose cost is `g_cur`.
/// A gate that starts at `cur` and leads to a known system not yet closed
/// is taken when the cost through `cur` (its cost plus the estimate of the
/// step) is below the one known for that system, or none is known: then
/// that system gets this cost and `cur` as predecessor, and is opened with
/// its cost plus its estimate to `dest`.
pub open spec fn relaxed(
    systems: Map<u32, System>,
    dest: u32,
    cur: u32,
    g_cur: u128,
    s: SearchState,
    gate: Stargate,
) -> SearchState {
    let n = gate.destination;
    let t = capped_sum(g_cur as int, estimate(systems, cur, n));
    if gate.origin == cur && !s.closed.contains(n) && systems.contains_key(n) && (!s.g.contains_key(
        n,
    ) || t < s.g[n]) {
        SearchState {
            open: s.open.push((n, capped_sum(t as int, estimate(systems, n, dest)))),
            g: s.g.insert(n, t),
            came: s.came.insert(n, cur),
            closed: s.closed,
            status: s.status,
        }
    } else {
        s
    }
}

/// The state after following `gates`, in order, out of `cur`.
pub open spec fn expanded(
    systems: Map<u32, System>,
    dest: u32,
    cur: u32,
    g_cur: u128,
    s: SearchState,
    gates: Seq<Stargate>,
) -> SearchState
    decreases gates.len(),
{
    if gates.len() == 0 {
        s
    } else {
        relaxed(
            systems,
            dest,
            cur,
            g_cur,
            expanded(systems, dest, cur, g_cur, s, gates.drop_last()),
            gates.last(),
        )
    }
}

/// One step of the search towards `dest`. An ended search stays as it is.
/// With no open entry the search ends with nothing found. Else the first
/// open entry of least estimated cost is taken out; if it is `dest` the
/// search ends there; if its system is closed nothing more happens; else
/// the system is closed and the gates of the system are followed in order.
pub open spec fn search_step(systems: Map<u32, System>, dest: u32, s: SearchState) -> SearchState {
    if !(s.status is Running) {
        s
    } else if s.open.len() == 0 {
        SearchState {
            open: s.open,
            g: s.g,
            came: s.came,
            closed: s.closed,
            status: SearchStatus::Exhausted,
        }
    } else {
        let i = first_least(s.open, s.open.len());
        let id = s.open[i].0;
        let rest = s.open.remove(i);
        if id == dest {
            SearchState {
                open: rest,
                g: s.g,
                came: s.came,
                closed: s.closed,
                status: SearchStatus::Found,
            }
        } else if s.closed.contains(id) {
            SearchState { open: rest, g: s.g, came: s.came, closed: s.closed, status: s.status }
        } else {
            expanded(
                systems,
                dest,
                id,
                s.g[id],
                SearchState {
                    open: rest,
                    g: s.g,
                    came: s.came,
                    closed: s.closed.insert(id),
                    status: s.status,
                },
                systems[id].stargates@,
            )
        }
    }
}

/// The state of the search from `origin` to `dest` after `n` steps. It
/// starts with `origin` open at cost 0 and its estimate to `dest`.
pub open spec fn search_after(systems: Map<u32, System>, origin: u32, dest: u32, n: nat) -> SearchState
    decreases n,
{
    if n == 0 {
        SearchState {
            open: seq![(origin, capped_sum(0, estimate(systems, origin, dest)))],
            g: map![origin => 0u128],
            came: Map::empty(),
            closed: Set::empty(),
            status: SearchStatus::Running,
        }
    } else {
        search_step(systems, dest, search_after(systems, origin, dest, (n - 1) as nat))
    }
}

/// Whether the search from `origin` to `dest` has ended after `n` steps.
pub open spec fn search_ended(systems: Map<u32, System>, origin: u32, dest: u32, n: nat) -> bool {
    !(search_after(systems, origin, dest, n).status is Running)
}

/// Whether `p` is the chain of predecessors that `came` records for `x`:
/// it ends at `x`, each system on it was reached from the one before, and
/// the first was reached from none.
pub open spec fn traced(came: Map<u32, u32>, x: u32, p: Seq<u32>) -> bool {
    &&& p.len() > 0
    &&& p.last() == x
    &&& !came.contains_key(p[0])
    &&& forall|i: int|
        0 <= i < p.len() - 1 ==> came.contains_key(#[trigger] p[i + 1]) && came[p[i + 1]] == p[i]
}

/// The route that A* finds from `origin` to `dest`: none when one of them
/// is not a known system; else the search runs until it ends, and when it
/// ended at `dest`, the route is the chain of predecessors that leads to
/// `dest`.
pub open spec fn astar_route(systems: Map<u32, System>, origin: u32, dest: u32) -> Option<Seq<u32>> {
    if systems.contains_key(origin) && systems.contains_key(dest) && exists|n: nat|
        search_ended(systems, origin, dest, n) {
        let s = search_after(
            systems,
            origin,
            dest,
            choose|n: nat| search_ended(systems, origin, dest, n),
        );
        if s.status is Found {
            Some(choose|p: Seq<u32>| traced(s.came, dest, p))
        } else {
            None
        }
    } else {
        None
    }
}

/// Once ended, the search stays as it is.
proof fn lemma_ended_stays(systems: Map<u32, System>, origin: u32, dest: u32, n: nat, k: nat)
    requires
        search_ended(systems, origin, dest, n),
    ensures
        search_after(systems, origin, dest, n + k) == search_after(systems, origin, dest, n),
    decreases k,
{
    if k > 0 {
        lemma_ended_stays(systems, origin, dest, n, (k - 1) as nat);
        assert(search_after(systems, origin, dest, n + k) == search_step(
            systems,
            dest,
            search_after(systems, origin, dest, (n + k - 1) as nat),
        ));
    }
}

/// Any two steps at which the search has ended show the same state.
proof fn lemma_ended_same(systems: Map<u32, System>, origin: u32, dest: u32, a: nat, b: nat)
    requires
        search_ended(systems, origin, dest, a),
        search_ended(systems, origin, dest, b),
    ensures
        search_after(systems, origin, dest, a) == search_after(systems, origin, dest, b),
{
    if a <= b {
        lemma_ended_stays(systems, origin, dest, a, (b - a) as nat);
    } else {
        lemma_ended_stays(systems, origin, dest, b, (a - b) as nat);
    }
}

/// A chain of predecessors is determined by its last system.
proof fn lemma_traced_unique(came: Map<u32, u32>, x: u32, p: Seq<u32>, q: Seq<u32>)
    requires
        traced(came, x, p),
        traced(came, x, q),
    ensures
        p == q,
    decreases p.len(),
{
    if p.len() == 1 {
        assert(p[0] == p.last());
        assert(!came.contains_key(x));
        if q.len() > 1 {
            assert(came.contains_key(q[q.len() - 2 + 1]));
            assert(q[q.len() - 2 + 1] == q.last());
            assert(false);
        }
        assert(p[0] == p.last() && q[0] == q.last());
        assert(p =~= q);
    } else {
        assert(came.contains_key(p[p.len() - 2 + 1]));
        if q.len() == 1 {
            assert(false);
        }
        assert(came.contains_key(q[q.len() - 2 + 1]));
        let y = came[x];
        let p1 = p.drop_last();
        let q1 = q.drop_last();
        assert(p1.last() == y);
        assert(q1.last() == y);
        assert forall|i: int| 0 <= i < p1.len() - 1 implies came.contains_key(#[trigger] p1[i + 1])
            && came[p1[i + 1]] == p1[i] by {
            assert(came.contains_key(p[i + 1]));
        }
        assert forall|i: int| 0 <= i < q1.len() - 1 implies came.contains_key(#[trigger] q1[i + 1])
            && came[q1[i + 1]] == q1[i] by {
            assert(came.contains_key(q[i + 1]));
        }
        lemma_traced_unique(came, y, p1, q1);
        assert(p =~= p1.push(x));
        assert(q =~= q1.push(x));
    }
}

/// When the search ends after `n` steps, `astar_route` is what that state
/// gives.
/// The gates of every closed system have been followed: each known system
/// not yet closed that a gate of a closed system `c` leads to has a
/// recorded cost no more than the cost of `c` plus the squared length of
/// that gate.
pub open spec fn gates_relaxed(systems: Map<u32, System>, s: SearchState) -> bool {
    forall|c: u32, n: u32|
        #![trigger s.closed.contains(c), is_gate(systems, c, n)]
        s.closed.contains(c) && is_gate(systems, c, n) && systems.contains_key(n) && !s.closed.contains(n)
            ==> s.g.contains_key(n) && s.g[n] <= capped_sum(s.g[c] as int, estimate(systems, c, n))
}

/// Each recorded predecessor is a closed system through which the recorded
/// cost is reached: the cost of a system is the cost of its predecessor
/// plus the squared length of the step between them.
pub open spec fn predecessors_achieve(systems: Map<u32, System>, s: SearchState) -> bool {
    forall|n: u32| #[trigger]
        s.came.contains_key(n) ==> {
            &&& s.closed.contains(s.came[n])
            &&& s.g.contains_key(n)
            &&& s.g.contains_key(s.came[n])
            &&& s.g[n] == capped_sum(s.g[s.came[n]] as int, estimate(systems, s.came[n], n))
        }
}

/// Closed and open systems all have a recorded cost, and predecessors reach
/// the recorded costs.
spec fn costs_recorded(systems: Map<u32, System>, s: SearchState) -> bool {
    &&& forall|c: u32| #[trigger] s.closed.contains(c) ==> s.g.contains_key(c)
    &&& forall|i: int| 0 <= i < s.open.len() ==> s.g.contains_key(#[trigger] s.open[i].0)
    &&& predecessors_achieve(systems, s)
}

/// `gates_relaxed` while the gates of `cur` are being followed: for the
/// other closed systems in full, for `cur` for the gates in `done`.
spec fn relaxed_but(systems: Map<u32, System>, s: SearchState, cur: u32, done: Seq<Stargate>) -> bool {
    &&& forall|c: u32, n: u32|
        #![trigger s.closed.contains(c), is_gate(systems, c, n)]
        s.closed.contains(c) && c != cur && is_gate(systems, c, n) && systems.contains_key(n)
            && !s.closed.contains(n) ==> s.g.contains_key(n) && s.g[n] <= capped_sum(
            s.g[c] as int,
            estimate(systems, c, n),
        )
    &&& forall|k: int|
        0 <= k < done.len() && (#[trigger] done[k]).origin == cur && systems.contains_key(
            done[k].destination,
        ) && !s.closed.contains(done[k].destination) ==> s.g.contains_key(done[k].destination)
            && s.g[done[k].destination] <= capped_sum(
            s.g[cur] as int,
            estimate(systems, cur, done[k].destination),
        )
}

proof fn lemma_relaxed_keeps(
    systems: Map<u32, System>,
    dest: u32,
    cur: u32,
    g_cur: u128,
    s: SearchState,
    gate: Stargate,
    done: Seq<Stargate>,
)
    requires
        s.closed.contains(cur),
        s.g.contains_key(cur),
        s.g[cur] == g_cur,
        costs_recorded(systems, s),
        relaxed_but(systems, s, cur, done),
    ensures
        ({
            let s2 = relaxed(systems, dest, cur, g_cur, s, gate);
            &&& s2.closed == s.closed
            &&& s2.status == s.status
            &&& s2.g.contains_key(cur)
            &&& s2.g[cur] == g_cur
            &&& costs_recorded(systems, s2)
            &&& relaxed_but(systems, s2, cur, done.push(gate))
        }),
{
    let s2 = relaxed(systems, dest, cur, g_cur, s, gate);
    let n = gate.destination;
    let t = capped_sum(g_cur as int, estimate(systems, cur, n));
    let d2 = done.push(gate);
    if gate.origin == cur && !s.closed.contains(n) && systems.contains_key(n) && (!s.g.contains_key(n)
        || t < s.g[n]) {
        assert(n != cur);
        assert forall|i: int| 0 <= i < s2.open.len() implies s2.g.contains_key(#[trigger] s2.open[i].0) by {
            if i < s.open.len() {
                assert(s2.open[i] == s.open[i]);
            }
        }
        assert forall|x: u32| #[trigger] s2.came.contains_key(x) implies {
            &&& s2.closed.contains(s2.came[x])
            &&& s2.g.contains_key(x)
            &&& s2.g.contains_key(s2.came[x])
            &&& s2.g[x] == capped_sum(s2.g[s2.came[x]] as int, estimate(systems, s2.came[x], x))
        } by {
            if x != n {
                assert(s.came.contains_key(x));
                assert(s.closed.contains(s.came[x]));
            }
        }
        assert forall|k: int|
            0 <= k < d2.len() && (#[trigger] d2[k]).origin == cur && systems.contains_key(
                d2[k].destination,
            ) && !s2.closed.contains(d2[k].destination) implies s2.g.contains_key(d2[k].destination)
            && s2.g[d2[k].destination] <= capped_sum(
            s2.g[cur] as int,
            estimate(systems, cur, d2[k].destination),
        ) by {
            if k < done.len() {
                assert(d2[k] == done[k]);
            }
        }
    } else {
        assert forall|k: int|
            0 <= k < d2.len() && (#[trigger] d2[k]).origin == cur && systems.contains_key(
                d2[k].destination,
            ) && !s2.closed.contains(d2[k].destination) implies s2.g.contains_key(d2[k].destination)
            && s2.g[d2[k].destination] <= capped_sum(
            s2.g[cur] as int,
            estimate(systems, cur, d2[k].destination),
        ) by {
            if k < done.len() {
                assert(d2[k] == done[k]);
            }
        }
    }
}

proof fn lemma_expanded_keeps(
    systems: Map<u32, System>,
    dest: u32,
    cur: u32,
    g_cur: u128,
    s: SearchState,
    gates: Seq<Stargate>,
)
    requires
        s.closed.contains(cur),
        s.g.contains_key(cur),
        s.g[cur] == g_cur,
        costs_recorded(systems, s),
        relaxed_but(systems, s, cur, Seq::empty()),
    ensures
        ({
            let e = expanded(systems, dest, cur, g_cur, s, gates);
            &&& e.closed == s.closed
            &&& e.status == s.status
            &&& e.g.contains_key(cur)
            &&& e.g[cur] == g_cur
            &&& costs_recorded(systems, e)
            &&& relaxed_but(systems, e, cur, gates)
        }),
    decreases gates.len(),
{
    if gates.len() == 0 {
        assert(gates =~= Seq::<Stargate>::empty());
    } else {
        lemma_expanded_keeps(systems, dest, cur, g_cur, s, gates.drop_last());
        let e1 = expanded(systems, dest, cur, g_cur, s, gates.drop_last());
        lemma_relaxed_keeps(systems, dest, cur, g_cur, e1, gates.last(), gates.drop_last());
        assert(gates.drop_last().push(gates.last()) =~= gates);
    }
}

proof fn lemma_step_keeps(systems: Map<u32, System>, dest: u32, s: SearchState)
    requires
        costs_recorded(systems, s),
        gates_relaxed(systems, s),
    ensures
        costs_recorded(systems, search_step(systems, dest, s)),
        gates_relaxed(systems, search_step(systems, dest, s)),
{
    if s.status is Running && s.open.len() > 0 {
        let i = first_least(s.open, s.open.len());
        lemma_first_least_in_range(s.open, s.open.len());
        let id = s.open[i].0;
        let rest = s.open.remove(i);
        assert forall|j: int| 0 <= j < rest.len() implies s.g.contains_key(#[trigger] rest[j].0) by {
            if j < i {
                assert(rest[j] == s.open[j]);
            } else {
                assert(rest[j] == s.open[j + 1]);
            }
        }
        if id != dest && !s.closed.contains(id) {
            let s1 = SearchState {
                open: rest,
                g: s.g,
                came: s.came,
                closed: s.closed.insert(id),
                status: s.status,
            };
            assert(s.g.contains_key(id));
            assert(costs_recorded(systems, s1));
            assert(relaxed_but(systems, s1, id, Seq::empty()));
            let gates = systems[id].stargates@;
            lemma_expanded_keeps(systems, dest, id, s.g[id], s1, gates);
            let e = expanded(systems, dest, id, s.g[id], s1, gates);
            assert(e == search_step(systems, dest, s));
            assert forall|c: u32, n: u32|
                #![trigger e.closed.contains(c), is_gate(systems, c, n)]
                e.closed.contains(c) && is_gate(systems, c, n) && systems.contains_key(n)
                    && !e.closed.contains(n) implies e.g.contains_key(n) && e.g[n] <= capped_sum(
                e.g[c] as int,
                estimate(systems, c, n),
            ) by {
                if c == id {
                    let k = choose|k: int|
                        0 <= k < systems[c].stargates@.len() && #[trigger] systems[c].stargates@[k]
                            == (Stargate { origin: c, destination: n });
                    assert(gates[k].origin == id && gates[k].destination == n);
                }
            }
        }
    }
}

proof fn lemma_first_least_in_range(open: Seq<(u32, u128)>, n: nat)
    requires
        0 < n <= open.len(),
    ensures
        0 <= first_least(open, n) < n,
    decreases n,
{
    if n > 1 {
        lemma_first_least_in_range(open, (n - 1) as nat);
    }
}

/// The search's relaxation, at every step: the gates of every closed
/// system have been followed, so each known system not yet closed that a
/// closed system leads to costs no more than going through that system;
/// and each recorded predecessor is a closed system through which the
/// recorded cost is reached.
pub proof fn law_search_relaxes_gates(systems: Map<u32, System>, origin: u32, dest: u32, k: nat)
    ensures
        gates_relaxed(systems, search_after(systems, origin, dest, k)),
        predecessors_achieve(systems, search_after(systems, origin, dest, k)),
{
    lemma_search_keeps(systems, origin, dest, k);
}

proof fn lemma_search_keeps(systems: Map<u32, System>, origin: u32, dest: u32, k: nat)
    ensures
        costs_recorded(systems, search_after(systems, origin, dest, k)),
        gates_relaxed(systems, search_after(systems, origin, dest, k)),
    decreases k,
{
    if k == 0 {
        let s = search_after(systems, origin, dest, 0);
        assert(s.open[0].0 == origin);
    } else {
        lemma_search_keeps(systems, origin, dest, (k - 1) as nat);
        lemma_step_keeps(systems, dest, search_after(systems, origin, dest, (k - 1) as nat));
    }
}

/// The cost of a route: the squared lengths of its steps added up, capped
/// at the largest `u128` as the search caps its costs.
pub open spec fn route_cost(systems: Map<u32, System>, p: Seq<u32>) -> u128
    decreases p.len(),
{
    if p.len() <= 1 {
        0
    } else {
        capped_sum(
            route_cost(systems, p.drop_last()) as int,
            estimate(systems, p[p.len() - 2], p.last()),
        )
    }
}

/// The origin has cost 0 and no predecessor, every other system with a
/// cost has one, and a search that found `dest` has a cost for it.
spec fn rooted_at(origin: u32, dest: u32, s: SearchState) -> bool {
    &&& s.g.contains_key(origin)
    &&& s.g[origin] == 0
    &&& !s.came.contains_key(origin)
    &&& forall|x: u32| #[trigger] s.g.contains_key(x) && x != origin ==> s.came.contains_key(x)
    &&& s.status is Found ==> s.g.contains_key(dest)
}

proof fn lemma_relaxed_rooted(
    systems: Map<u32, System>,
    origin: u32,
    dest: u32,
    cur: u32,
    g_cur: u128,
    s: SearchState,
    gate: Stargate,
)
    requires
        rooted_at(origin, dest, s),
    ensures
        rooted_at(origin, dest, relaxed(systems, dest, cur, g_cur, s, gate)),
        relaxed(systems, dest, cur, g_cur, s, gate).status == s.status,
        relaxed(systems, dest, cur, g_cur, s, gate).g.dom().subset_of(
            s.g.dom().insert(gate.destination),
        ),
{
}

proof fn lemma_expanded_rooted(
    systems: Map<u32, System>,
    origin: u32,
    dest: u32,
    cur: u32,
    g_cur: u128,
    s: SearchState,
    gates: Seq<Stargate>,
)
    requires
        rooted_at(origin, dest, s),
    ensures
        rooted_at(origin, dest, expanded(systems, dest, cur, g_cur, s, gates)),
        expanded(systems, dest, cur, g_cur, s, gates).status == s.status,
    decreases gates.len(),
{
    if gates.len() > 0 {
        lemma_expanded_rooted(systems, origin, dest, cur, g_cur, s, gates.drop_last());
        lemma_relaxed_rooted(
            systems,
            origin,
            dest,
            cur,
            g_cur,
            expanded(systems, dest, cur, g_cur, s, gates.drop_last()),
            gates.last(),
        );
    }
}

proof fn lemma_search_rooted(systems: Map<u32, System>, origin: u32, dest: u32, k: nat)
    ensures
        rooted_at(origin, dest, search_after(systems, origin, dest, k)),
        costs_recorded(systems, search_after(systems, origin, dest, k)),
    decreases k,
{
    lemma_search_keeps(systems, origin, dest, k);
    if k == 0 {
        assert(search_after(systems, origin, dest, 0).came =~= Map::<u32, u32>::empty());
    } else {
        lemma_search_rooted(systems, origin, dest, (k - 1) as nat);
        let s = search_after(systems, origin, dest, (k - 1) as nat);
        if s.status is Running && s.open.len() > 0 {
            let i = first_least(s.open, s.open.len());
            lemma_first_least_in_range(s.open, s.open.len());
            let id = s.open[i].0;
            assert(s.g.contains_key(id));
            if id != dest && !s.closed.contains(id) {
                let s1 = SearchState {
                    open: s.open.remove(i),
                    g: s.g,
                    came: s.came,
                    closed: s.closed.insert(id),
                    status: s.status,
                };
                lemma_expanded_rooted(systems, origin, dest, id, s.g[id], s1, systems[id].stargates@);
            }
        }
    }
}

proof fn lemma_chain_cost(
    systems: Map<u32, System>,
    origin: u32,
    dest: u32,
    s: SearchState,
    x: u32,
    p: Seq<u32>,
)
    requires
        rooted_at(origin, dest, s),
        predecessors_achieve(systems, s),
        s.g.contains_key(x),
        traced(s.came, x, p),
    ensures
        p[0] == origin,
        route_cost(systems, p) == s.g[x],
    decreases p.len(),
{
    if p.len() == 1 {
        assert(p[0] == p.last());
    } else {
        assert(s.came.contains_key(p[p.len() - 2 + 1]));
        assert(p[p.len() - 2 + 1] == x);
        let y = s.came[x];
        let p1 = p.drop_last();
        assert(p1.last() == y);
        assert forall|i: int| 0 <= i < p1.len() - 1 implies s.came.contains_key(#[trigger] p1[i + 1])
            && s.came[p1[i + 1]] == p1[i] by {
            assert(s.came.contains_key(p[i + 1]));
        }
        lemma_chain_cost(systems, origin, dest, s, y, p1);
    }
}

/// The route a search that found `dest` gives (the chain of predecessors
/// of `dest`) starts at the origin, and its cost is the cost the search
/// recorded for `dest`.
pub proof fn law_found_route_cost(systems: Map<u32, System>, origin: u32, dest: u32, k: nat, p: Seq<u32>)
    requires
        search_after(systems, origin, dest, k).status is Found,
        traced(search_after(systems, origin, dest, k).came, dest, p),
    ensures
        p[0] == origin,
        search_after(systems, origin, dest, k).g.contains_key(dest),
        route_cost(systems, p) == search_after(systems, origin, dest, k).g[dest],
{
    lemma_search_rooted(systems, origin, dest, k);
    lemma_chain_cost(systems, origin, dest, search_after(systems, origin, dest, k), dest, p);
}

proof fn lemma_first_least_is_first_least(open: Seq<(u32, u128)>, n: nat)
    requires
        0 < n <= open.len(),
    ensures
        0 <= first_least(open, n) < n,
        forall|j: int| 0 <= j < n ==> open[first_least(open, n)].1 <= #[trigger] open[j].1,
        forall|j: int| 0 <= j < first_least(open, n) ==> open[first_least(open, n)].1 < #[trigger] open[j].1,
    decreases n,
{
    if n > 1 {
        lemma_first_least_is_first_least(open, (n - 1) as nat);
    }
}

proof fn lemma_expanded_open_prefix(
    systems: Map<u32, System>,
    dest: u32,
    cur: u32,
    g_cur: u128,
    s: SearchState,
    gates: Seq<Stargate>,
)
    ensures
        expanded(systems, dest, cur, g_cur, s, gates).open.len() >= s.open.len(),
        expanded(systems, dest, cur, g_cur, s, gates).open.subrange(0, s.open.len() as int) == s.open,
        expanded(systems, dest, cur, g_cur, s, gates).status == s.status,
    decreases gates.len(),
{
    if gates.len() > 0 {
        lemma_expanded_open_prefix(systems, dest, cur, g_cur, s, gates.drop_last());
        let e1 = expanded(systems, dest, cur, g_cur, s, gates.drop_last());
        let e = expanded(systems, dest, cur, g_cur, s, gates);
        assert(e.open.subrange(0, s.open.len() as int) =~= e1.open.subrange(0, s.open.len() as int));
    } else {
        assert(s.open.subrange(0, s.open.len() as int) =~= s.open);
    }
}

/// Each step of a running search with open entries takes out the entry of
/// least estimated cost, the first of them when several tie, keeping the
/// other entries in order (new ones come after them); it ends the search
/// exactly when that entry is the destination.
pub proof fn law_step_takes_first_least(systems: Map<u32, System>, dest: u32, s: SearchState)
    requires
        s.status is Running,
        s.open.len() > 0,
    ensures
        ({
            let i = first_least(s.open, s.open.len());
            let r = search_step(systems, dest, s);
            &&& 0 <= i < s.open.len()
            &&& forall|j: int| 0 <= j < s.open.len() ==> s.open[i].1 <= #[trigger] s.open[j].1
            &&& forall|j: int| 0 <= j < i ==> s.open[i].1 < #[trigger] s.open[j].1
            &&& r.open.len() >= s.open.len() - 1
            &&& r.open.subrange(0, s.open.len() - 1) == s.open.remove(i)
            &&& (r.status is Found <==> s.open[i].0 == dest)
            &&& (r.status is Running <==> s.open[i].0 != dest)
        }),
{
    let i = first_least(s.open, s.open.len());
    lemma_first_least_is_first_least(s.open, s.open.len());
    let id = s.open[i].0;
    let rest = s.open.remove(i);
    if id != dest && !s.closed.contains(id) {
        let s1 = SearchState {
            open: rest,
            g: s.g,
            came: s.came,
            closed: s.closed.insert(id),
            status: s.status,
        };
        lemma_expanded_open_prefix(systems, dest, id, s.g[id], s1, systems[id].stargates@);
    } else {
        assert(rest.subrange(0, s.open.len() - 1) =~= rest);
    }
}

/// Every system with a recorded cost that is not closed is open, with an
/// entry whose estimated total is its cost plus its estimate to `dest`.
pub open spec fn reached_are_open(systems: Map<u32, System>, dest: u32, s: SearchState) -> bool {
    forall|n: u32|
        #![trigger s.g.contains_key(n)]
        s.g.contains_key(n) && !s.closed.contains(n) ==> exists|i: int|
            0 <= i < s.open.len() && #[trigger] s.open[i] == (
                n,
                capped_sum(s.g[n] as int, estimate(systems, n, dest)),
            )
}

proof fn lemma_relaxed_open(
    systems: Map<u32, System>,
    dest: u32,
    cur: u32,
    g_cur: u128,
    s: SearchState,
    gate: Stargate,
)
    requires
        reached_are_open(systems, dest, s),
    ensures
        reached_are_open(systems, dest, relaxed(systems, dest, cur, g_cur, s, gate)),
{
    let s2 = relaxed(systems, dest, cur, g_cur, s, gate);
    let n = gate.destination;
    if s2 != s {
        assert forall|x: u32| #![trigger s2.g.contains_key(x)] s2.g.contains_key(x) && !s2.closed.contains(x) implies exists|i: int|
            0 <= i < s2.open.len() && #[trigger] s2.open[i] == (
                x,
                capped_sum(s2.g[x] as int, estimate(systems, x, dest)),
            ) by {
            if x == n {
                assert(s2.open[s2.open.len() - 1] == (
                    x,
                    capped_sum(s2.g[x] as int, estimate(systems, x, dest)),
                ));
            } else {
                assert(s.g.contains_key(x));
                let i = choose|i: int|
                    0 <= i < s.open.len() && #[trigger] s.open[i] == (
                        x,
                        capped_sum(s.g[x] as int, estimate(systems, x, dest)),
                    );
                assert(s2.open[i] == s.open[i]);
            }
        }
    }
}

proof fn lemma_expanded_open(
    systems: Map<u32, System>,
    dest: u32,
    cur: u32,
    g_cur: u128,
    s: SearchState,
    gates: Seq<Stargate>,
)
    requires
        reached_are_open(systems, dest, s),
    ensures
        reached_are_open(systems, dest, expanded(systems, dest, cur, g_cur, s, gates)),
    decreases gates.len(),
{
    if gates.len() > 0 {
        lemma_expanded_open(systems, dest, cur, g_cur, s, gates.drop_last());
        lemma_relaxed_open(
            systems,
            dest,
            cur,
            g_cur,
            expanded(systems, dest, cur, g_cur, s, gates.drop_last()),
            gates.last(),
        );
    }
}

/// While the search runs, every system it has reached and not closed is
/// open, with an entry whose estimated total is its recorded cost plus its
/// squared distance to the destination.
pub proof fn law_reached_are_open(systems: Map<u32, System>, origin: u32, dest: u32, k: nat)
    ensures
        search_after(systems, origin, dest, k).status is Running ==> reached_are_open(
            systems,
            dest,
            search_after(systems, origin, dest, k),
        ),
    decreases k,
{
    let s = search_after(systems, origin, dest, k);
    if k == 0 {
        assert(s.g =~= map![origin => 0u128]);
        assert forall|x: u32| #![trigger s.g.contains_key(x)] s.g.contains_key(x) && !s.closed.contains(x) implies exists|i: int|
            0 <= i < s.open.len() && #[trigger] s.open[i] == (
                x,
                capped_sum(s.g[x] as int, estimate(systems, x, dest)),
            ) by {
            assert(s.open[0] == (x, capped_sum(s.g[x] as int, estimate(systems, x, dest))));
        }
    } else {
        law_reached_are_open(systems, origin, dest, (k - 1) as nat);
        lemma_search_keeps(systems, origin, dest, (k - 1) as nat);
        let p = search_after(systems, origin, dest, (k - 1) as nat);
        if p.status is Running && p.open.len() > 0 {
            let i = first_least(p.open, p.open.len());
            lemma_first_least_in_range(p.open, p.open.len());
            let id = p.open[i].0;
            let rest = p.open.remove(i);
            if id != dest {
                let closed1 = if p.closed.contains(id) {
                    p.closed
                } else {
                    p.closed.insert(id)
                };
                let s1 = SearchState {
                    open: rest,
                    g: p.g,
                    came: p.came,
                    closed: closed1,
                    status: p.status,
                };
                assert forall|x: u32| #![trigger s1.g.contains_key(x)] s1.g.contains_key(x) && !s1.closed.contains(x) implies exists|j: int|
                    0 <= j < s1.open.len() && #[trigger] s1.open[j] == (
                        x,
                        capped_sum(s1.g[x] as int, estimate(systems, x, dest)),
                    ) by {
                    assert(p.g.contains_key(x));
                    let j = choose|j: int|
                        0 <= j < p.open.len() && #[trigger] p.open[j] == (
                            x,
                            capped_sum(p.g[x] as int, estimate(systems, x, dest)),
                        );
                    assert(j != i);
                    if j < i {
                        assert(s1.open[j] == p.open[j]);
                    } else {
                        assert(s1.open[j - 1] == p.open[j]);
                    }
                }
                if !p.closed.contains(id) {
                    lemma_expanded_open(systems, dest, id, p.g[id], s1, systems[id].stargates@);
                }
            }
        }
    }
}

proof fn lemma_astar_route_at(systems: Map<u32, System>, origin: u32, dest: u32, n: nat)
    requires
        systems.contains_key(origin),
        systems.contains_key(dest),
        search_ended(systems, origin, dest, n),
    ensures
        search_after(systems, origin, dest, n).status is Found ==> forall|p: Seq<u32>|
            traced(search_after(systems, origin, dest, n).came, dest, p) ==> astar_route(
                systems,
                origin,
                dest,
            ) == Some(p),
        search_after(systems, origin, dest, n).status is Exhausted ==> astar_route(
            systems,
            origin,
            dest,
        ) is None,
{
    let c = choose|k: nat| search_ended(systems, origin, dest, k);
    lemma_ended_same(systems, origin, dest, n, c);
    let s = search_after(systems, origin, dest, n);
    if s.status is Found {
        assert forall|p: Seq<u32>| traced(s.came, dest, p) implies astar_route(
            systems,
            origin,
            dest,
        ) == Some(p) by {
            let q = choose|q: Seq<u32>| traced(s.came, dest, q);
            lemma_traced_unique(s.came, dest, p, q);
        }
    }
}

/// An entry of the open set: a system and its estimated total cost.
#[derive(Clone, Copy)]
struct Node {
    id: u32,
    f_score: u128,
}

/// Searches routes between the systems of a map; routes found are kept
/// and given again when asked for again.
pub struct Pathfinder<'a> {
    pub systems: &'a HashMap<u32, System>,
    path_cache: HashMap<u64, Vec<u32>>,
}

proof fn lemma_route_all_closed(
    systems: Map<u32, System>,
    closed: Set<u32>,
    p: Seq<u32>,
    from: u32,
    to: u32,
    i: int,
)
    requires
        is_route(systems, p, from, to),
        closed.contains(from),
        forall|c: u32, n: u32|
            closed.contains(c) && #[trigger] is_gate(systems, c, n) && systems.contains_key(n)
                ==> closed.contains(n),
        0 <= i < p.len(),
    ensures
        closed.contains(p[i]),
    decreases i,
{
    if i > 0 {
        lemma_route_all_closed(systems, closed, p, from, to, i - 1);
        let j = i - 1;
        assert(is_gate(systems, p[j], p[j + 1]));
        assert(p[j + 1] == p[i]);
    }
}


/// What the search keeps true between steps: the open set, the best
/// known costs `g`, the predecessor map `came`, the closed set and the
/// order in which systems were closed (`time`, below `counter`).
spec fn search_ok(
    m: Map<u32, System>,
    origin: u32,
    dest: u32,
    open: Seq<Node>,
    g: Map<u32, u128>,
    came: Map<u32, u32>,
    closed: Set<u32>,
    time: Map<u32, nat>,
    counter: nat,
) -> bool {
    &&& m.contains_key(origin)
    &&& m.contains_key(dest)
    &&& g.contains_key(origin)
    &&& forall|i: int|
        0 <= i < open.len() ==> m.contains_key(#[trigger] open[i].id) && g.contains_key(open[i].id)
    &&& forall|x: u32| #[trigger] g.contains_key(x) ==> m.contains_key(x)
    &&& forall|x: u32| #[trigger] g.contains_key(x) && x != origin ==> came.contains_key(x)
    &&& forall|x: u32| #[trigger]
        came.contains_key(x) ==> {
            &&& closed.contains(came[x])
            &&& is_gate(m, came[x], x)
            &&& x != origin
            &&& closed.contains(x) ==> time[came[x]] < time[x]
        }
    &&& forall|x: u32| #[trigger]
        closed.contains(x) ==> {
            &&& time.contains_key(x)
            &&& time[x] < counter
            &&& x != dest
            &&& g.contains_key(x)
            &&& m.contains_key(x)
        }
    &&& forall|x: u32|
        #![trigger g.contains_key(x), closed.contains(x)]
        g.contains_key(x) && !closed.contains(x) ==> exists|i: int|
            0 <= i < open.len() && #[trigger] open[i].id == x
    &&& !closed.contains(origin) ==> closed == Set::<u32>::empty()
    &&& !closed.contains(origin) ==> forall|i: int| 0 <= i < open.len() ==> #[trigger] open[i].id == origin
}

/// Every closed system other than `except` has had its gates followed:
/// each known system a gate leads to is closed or has a cost.
spec fn expanded_ok(
    m: Map<u32, System>,
    closed: Set<u32>,
    g: Map<u32, u128>,
    except: Option<u32>,
) -> bool {
    forall|c: u32, n: u32|
        #![trigger closed.contains(c), is_gate(m, c, n)]
        closed.contains(c) && Some(c) != except && is_gate(m, c, n) && m.contains_key(n)
            ==> closed.contains(n) || g.contains_key(n)
}

/// The open entries as the search's state sees them.
spec fn open_view(open: Seq<Node>) -> Seq<(u32, u128)> {
    open.map_values(|e: Node| (e.id, e.f_score))
}

/// The state of a running search made of its parts.
spec fn running(
    open: Seq<Node>,
    g: Map<u32, u128>,
    came: Map<u32, u32>,
    closed: Set<u32>,
) -> SearchState {
    SearchState { open: open_view(open), g, came, closed, status: SearchStatus::Running }
}

fn min_index(open: &Vec<Node>) -> (i: usize)
    requires
        open@.len() > 0,
    ensures
        i < open@.len(),
        i == first_least(open_view(open@), open@.len()),
        forall|k: int| 0 <= k < open@.len() ==> open@[i as int].f_score <= #[trigger] open@[k].f_score,
{
    let mut best: usize = 0;
    let mut k: usize = 1;
    while k < open.len()
        invariant
            best < k <= open@.len(),
            best == first_least(open_view(open@), k as nat),
            forall|j: int| 0 <= j < k ==> open@[best as int].f_score <= #[trigger] open@[j].f_score,
        decreases open@.len() - k,
    {
        assert(open_view(open@)[k as int] == (open@[k as int].id, open@[k as int].f_score));
        assert(open_view(open@)[best as int] == (open@[best as int].id, open@[best as int].f_score));
        if open[k].f_score < open[best].f_score {
            best = k;
        }
        k = k + 1;
    }
    best
}

/// `a + b`, or the largest `u128` when the sum does not fit.
fn add_capped(a: u128, b: u128) -> (r: u128)
    ensures
        a + b <= u128::MAX ==> r == a + b,
        a + b > u128::MAX ==> r == u128::MAX,
{
    match a.checked_add(b) {
        Some(s) => s,
        None => u128::MAX,
    }
}

impl<'a> Pathfinder<'a> {
    /// The map the routes are searched on.
    pub closed spec fn spec_systems(&self) -> Map<u32, System> {
        self.systems@
    }

    /// The cached routes, by `cache_key` of their endpoints.
    pub closed spec fn spec_cache(&self) -> Map<u64, Seq<u32>> {
        self.path_cache@.map_values(|v: Vec<u32>| v@)
    }

    /// Every cached route is the route that A* finds between the systems
    /// its key names, and leads from the one to the other.
    pub closed spec fn wf(&self) -> bool {
        forall|k: u64| #[trigger]
            self.path_cache@.contains_key(k) ==> {
                &&& is_route(
                    self.systems@,
                    self.path_cache@[k]@,
                    (k / 0x1_0000_0000) as u32,
                    (k % 0x1_0000_0000) as u32,
                )
                &&& visits_once(self.path_cache@[k]@)
                &&& astar_route(
                    self.systems@,
                    (k / 0x1_0000_0000) as u32,
                    (k % 0x1_0000_0000) as u32,
                ) == Some(self.path_cache@[k]@)
            }
    }

    /// A pathfinder over `systems` with nothing cached yet.
    pub fn new(systems: &'a HashMap<u32, System>) -> (p: Self)
        ensures
            p.spec_systems() == systems@,
            p.spec_cache() == Map::<u64, Seq<u32>>::empty(),
            p.wf(),
    {
        let p = Pathfinder { systems, path_cache: HashMap::new() };
        assert(p.spec_cache() =~= Map::<u64, Seq<u32>>::empty());
        p
    }

    /// Squared distance between two known systems; `None` (an infinite
    /// estimate) when one of them is not known.
    fn heuristic(&self, origin: u32, destination: u32) -> (r: Option<u128>)
        ensures
            r is Some <==> self.systems@.contains_key(origin) && self.systems@.contains_key(
                destination,
            ),
            r matches Some(h) ==> h == dist_sq(
                self.systems@[origin].position,
                self.systems@[destination].position,
            ),
    {
        match self.systems.get(&origin) {
            Some(current_system) => match self.systems.get(&destination) {
                Some(end_system) => Some(
                    current_system.position.distance_squared(&end_system.position) as u128,
                ),
                None => None,
            },
            None => None,
        }
    }

    /// The route recorded by `came_from`: from `current` back through the
    /// system each was reached from, until a system reached from none,
    /// then reversed.
    #[verifier::rlimit(40)]
    fn reconstruct_path(
        &self,
        came_from: HashMap<u32, u32>,
        current: u32,
        Ghost(origin): Ghost<u32>,
        Ghost(closed): Ghost<Set<u32>>,
        Ghost(time): Ghost<Map<u32, nat>>,
        Ghost(counter): Ghost<nat>,
    ) -> (r: Option<Vec<u32>>)
        requires
            self.systems@.contains_key(current),
            !closed.contains(current),
            current != origin ==> came_from@.contains_key(current),
            forall|x: u32| #[trigger]
                came_from@.contains_key(x) ==> {
                    &&& closed.contains(came_from@[x])
                    &&& is_gate(self.systems@, came_from@[x], x)
                    &&& closed.contains(x) ==> time[came_from@[x]] < time[x]
                },
            forall|x: u32| #[trigger]
                closed.contains(x) ==> {
                    &&& time.contains_key(x)
                    &&& time[x] < counter
                    &&& self.systems@.contains_key(x)
                    &&& x != origin ==> came_from@.contains_key(x)
                },
        ensures
            r matches Some(p) && is_route(self.systems@, p@, origin, current) && visits_once(p@)
                && traced(came_from@, current, p@),
    {
        let ghost m = self.systems@;
        let mut rev: Vec<u32> = Vec::new();
        rev.push(current);
        let mut cur = current;
        loop
            invariant
                m == self.systems@,
                rev@.len() > 0,
                rev@[0] == current,
                rev@[rev@.len() - 1] == cur,
                m.contains_key(cur),
                cur != origin ==> came_from@.contains_key(cur),
                cur != current ==> closed.contains(cur),
                rev@.len() > 1 ==> cur != current,
                !closed.contains(current),
                forall|i: int| 0 <= i < rev@.len() ==> m.contains_key(#[trigger] rev@[i]),
                forall|i: int| 1 <= i < rev@.len() ==> closed.contains(#[trigger] rev@[i]),
                forall|i: int, j: int|
                    1 <= i < j < rev@.len() ==> time[#[trigger] rev@[i]] > time[#[trigger] rev@[j]],
                forall|i: int|
                    0 <= i < rev@.len() - 1 ==> #[trigger] is_gate(m, rev@[i + 1], rev@[i]),
                forall|i: int|
                    0 <= i < rev@.len() - 1 ==> came_from@.contains_key(#[trigger] rev@[i])
                        && came_from@[rev@[i]] == rev@[i + 1],
                forall|x: u32| #[trigger]
                    came_from@.contains_key(x) ==> {
                        &&& closed.contains(came_from@[x])
                        &&& is_gate(m, came_from@[x], x)
                        &&& closed.contains(x) ==> time[came_from@[x]] < time[x]
                    },
                forall|x: u32| #[trigger]
                    closed.contains(x) ==> {
                        &&& time.contains_key(x)
                        &&& time[x] < counter
                        &&& m.contains_key(x)
                        &&& x != origin ==> came_from@.contains_key(x)
                    },
            ensures
                rev@.len() > 0,
                rev@[0] == current,
                rev@[rev@.len() - 1] == origin,
                forall|i: int| 0 <= i < rev@.len() ==> m.contains_key(#[trigger] rev@[i]),
                forall|i: int| 1 <= i < rev@.len() ==> closed.contains(#[trigger] rev@[i]),
                forall|i: int, j: int|
                    1 <= i < j < rev@.len() ==> time[#[trigger] rev@[i]] > time[#[trigger] rev@[j]],
                forall|i: int|
                    0 <= i < rev@.len() - 1 ==> #[trigger] is_gate(m, rev@[i + 1], rev@[i]),
                forall|i: int|
                    0 <= i < rev@.len() - 1 ==> came_from@.contains_key(#[trigger] rev@[i])
                        && came_from@[rev@[i]] == rev@[i + 1],
                !came_from@.contains_key(rev@[rev@.len() - 1]),
            decreases (if closed.contains(cur) {
                time[cur]
            } else {
                counter
            }),
        {
            match came_from.get(&cur) {
                Some(prev) => {
                    let p = *prev;
                    assert(came_from@.contains_key(cur));
                    let ghost rev_before = rev@;
                    rev.push(p);
                    proof {
                        assert(rev@[rev@.len() - 2] == cur);
                        assert forall|i: int| 0 <= i < rev@.len() - 1 implies came_from@.contains_key(
                            #[trigger] rev@[i],
                        ) && came_from@[rev@[i]] == rev@[i + 1] by {
                            if i < rev@.len() - 2 {
                                assert(rev@[i] == rev_before[i] && rev@[i + 1] == rev_before[i + 1]);
                            }
                        }
                        assert forall|i: int, j: int|
                            1 <= i < j < rev@.len() implies time[#[trigger] rev@[i]] > time[
                            #[trigger] rev@[j]] by {
                            if j == rev@.len() - 1 && i < j - 1 {
                                assert(time[rev@[i]] >= time[rev@[j - 1]]);
                            }
                        }
                    }
                    cur = p;
                },
                None => {
                    break ;
                },
            }
        }
        let n = rev.len();
        let mut path: Vec<u32> = Vec::new();
        let mut k: usize = n;
        while k > 0
            invariant
                n == rev@.len(),
                k <= n,
                path@.len() == n - k,
                forall|i: int| 0 <= i < n - k ==> path@[i] == rev@[n - 1 - i],
            decreases k,
        {
            k = k - 1;
            path.push(rev[k]);
        }
        proof {
            assert forall|i: int| 0 <= i < path@.len() implies m.contains_key(#[trigger] path@[i]) by {
                assert(m.contains_key(rev@[n - 1 - i]));
            }
            assert forall|i: int| 0 <= i < path@.len() - 1 implies #[trigger] is_gate(
                m,
                path@[i],
                path@[i + 1],
            ) by {
                let j = n - 2 - i;
                assert(is_gate(m, rev@[j + 1], rev@[j]));
            }
            assert forall|i: int| 0 <= i < path@.len() - 1 implies came_from@.contains_key(
                #[trigger] path@[i + 1],
            ) && came_from@[path@[i + 1]] == path@[i] by {
                let j = n - 2 - i;
                assert(path@[i + 1] == rev@[j] && path@[i] == rev@[j + 1]);
            }
            assert(path@[0] == rev@[n - 1]);
            assert(path@.last() == rev@[0]);
            assert forall|i: int, j: int| 0 <= i < j < path@.len() implies #[trigger] path@[i]
                != #[trigger] path@[j] by {
                let a = n - 1 - i;
                let b = n - 1 - j;
                assert(path@[i] == rev@[a] && path@[j] == rev@[b]);
                if b == 0 {
                    assert(closed.contains(rev@[a]));
                } else {
                    assert(time[rev@[b]] > time[rev@[a]]);
                }
            }
        }
        Some(path)
    }

    /// A* search from `origin` to `destination`: the open system of least
    /// estimated cost (cost so far plus squared distance to the
    /// destination) is taken next; reaching the destination ends the search
    /// with the route that led there; a system already closed is passed
    /// over; otherwise the system is closed and each gate from it to a
    /// known system not yet closed is followed when it lowers that system's
    /// cost, the cost of a step being the squared distance it covers. When
    /// no open system is left there is no route. Among open entries of equal
    /// estimated cost the one added first is taken; the result is
    /// `astar_route`.
    fn a_star(&self, origin: u32, destination: u32) -> (r: Option<Vec<u32>>)
        ensures
            r matches Some(p) ==> is_route(self.systems@, p@, origin, destination) && visits_once(
                p@,
            ),
            r is None <==> !reachable(self.systems@, origin, destination),
            match r {
                Some(p) => astar_route(self.systems@, origin, destination) == Some(p@),
                None => astar_route(self.systems@, origin, destination) is None,
            },
    {
        let ghost m = self.systems@;
        if !self.systems.contains_key(&origin) || !self.systems.contains_key(&destination) {
            proof {
                if reachable(m, origin, destination) {
                    let p = choose|p: Seq<u32>| is_route(m, p, origin, destination);
                    assert(m.contains_key(p[0]));
                    assert(m.contains_key(p[p.len() - 1]));
                }
            }
            return None;
        }
        let mut open_set: Vec<Node> = Vec::new();
        let mut came_from: HashMap<u32, u32> = HashMap::new();
        let mut g_scores: HashMap<u32, u128> = HashMap::new();
        let mut closed_set: HashSet<u32> = HashSet::new();
        let ghost mut time: Map<u32, nat> = Map::empty();
        let ghost mut counter: nat = 0;
        let ghost mut steps: nat = 0;
        g_scores.insert(origin, 0);
        let h0 = match self.heuristic(origin, destination) {
            Some(h) => h,
            None => 0,
        };
        open_set.push(Node { id: origin, f_score: h0 });
        proof {
            assert(open_set@[0].id == origin);
            assert(closed_set@ =~= Set::<u32>::empty());
            assert(open_view(open_set@) =~= seq![(origin, capped_sum(0, estimate(m, origin, destination)))]);
            assert(g_scores@ =~= map![origin => 0u128]);
            assert(came_from@ =~= Map::<u32, u32>::empty());
            assert(search_after(m, origin, destination, 0) == running(
                open_set@,
                g_scores@,
                came_from@,
                closed_set@,
            ));
        }
        loop
            invariant
                m == self.systems@,
                search_ok(
                    m,
                    origin,
                    destination,
                    open_set@,
                    g_scores@,
                    came_from@,
                    closed_set@,
                    time,
                    counter,
                ),
                expanded_ok(m, closed_set@, g_scores@, None),
                search_after(m, origin, destination, steps) == running(
                    open_set@,
                    g_scores@,
                    came_from@,
                    closed_set@,
                ),
            decreases m.dom().difference(closed_set@).len(), open_set@.len(),
        {
            if open_set.len() == 0 {
                proof {
                    assert(g_scores@.contains_key(origin));
                    assert(closed_set@.contains(origin));
                    let closed = closed_set@;
                    assert forall|c: u32, n: u32|
                        closed.contains(c) && #[trigger] is_gate(m, c, n) && m.contains_key(
                            n,
                        ) implies closed.contains(n) by {
                        if !closed.contains(n) {
                            assert(g_scores@.contains_key(n));
                        }
                    }
                    if reachable(m, origin, destination) {
                        let p = choose|p: Seq<u32>| is_route(m, p, origin, destination);
                        lemma_route_all_closed(m, closed, p, origin, destination, p.len() - 1);
                    }
                    assert(search_after(m, origin, destination, steps + 1).status is Exhausted);
                    lemma_astar_route_at(m, origin, destination, steps + 1);
                }
                return None;
            }
            let idx = min_index(&open_set);
            let ghost before = open_set@;
            let current = open_set.remove(idx);
            let current_id = current.id;
            proof {
                assert(before[idx as int].id == current_id);
                assert forall|x: u32|
                    g_scores@.contains_key(x) && !closed_set@.contains(x) && x != current_id
                        implies exists|i: int|
                    0 <= i < open_set@.len() && #[trigger] open_set@[i].id == x by {
                    let i = choose|i: int| 0 <= i < before.len() && #[trigger] before[i].id == x;
                    if i < idx {
                        assert(open_set@[i].id == x);
                    } else {
                        assert(open_set@[i - 1].id == x);
                    }
                }
                assert forall|i: int| 0 <= i < open_set@.len() implies #[trigger] open_set@[i]
                    == before[i] || open_set@[i] == before[i + 1] by {}
                assert(open_view(open_set@) =~= open_view(before).remove(idx as int));
                assert(open_view(before)[idx as int].0 == current_id);
            }
            if current_id == destination {
                proof {
                    assert(g_scores@.contains_key(current_id));
                    assert(search_after(m, origin, destination, steps + 1).status is Found);
                    assert(search_after(m, origin, destination, steps + 1).came == came_from@);
                    lemma_astar_route_at(m, origin, destination, steps + 1);
                }
                return self.reconstruct_path(
                    came_from,
                    current_id,
                    Ghost(origin),
                    Ghost(closed_set@),
                    Ghost(time),
                    Ghost(counter),
                );
            }
            if closed_set.contains(&current_id) {
                proof {
                    assert(search_after(m, origin, destination, steps + 1) == running(
                        open_set@,
                        g_scores@,
                        came_from@,
                        closed_set@,
                    ));
                    steps = steps + 1;
                    assert(m.dom().difference(closed_set@).len() == m.dom().difference(
                        closed_set@,
                    ).len());
                }
            } else {
                let ghost old_closed = closed_set@;
                let ghost was_origin_closed = closed_set@.contains(origin);
                closed_set.insert(current_id);
                proof {
                    if !was_origin_closed {
                        assert(before[idx as int].id == origin);
                    }
                    time = time.insert(current_id, counter);
                    counter = counter + 1;
                    assert(m.dom().finite());
                    assert(m.dom().difference(closed_set@) =~= m.dom().difference(
                        old_closed,
                    ).remove(current_id));
                    assert(m.dom().difference(old_closed).contains(current_id));
                }
                let system = self.systems.get(&current_id).unwrap();
                let g_cur: u128 = *g_scores.get(&current_id).unwrap();
                let ghost s_mid = running(open_set@, g_scores@, came_from@, closed_set@);
                proof {
                    assert(search_step(m, destination, search_after(m, origin, destination, steps))
                        == expanded(m, destination, current_id, g_cur, s_mid, m[current_id].stargates@));
                    assert(system.stargates@.take(0) =~= Seq::<Stargate>::empty());
                }
                let mut j: usize = 0;
                while j < system.stargates.len()
                    invariant
                        m == self.systems@,
                        m.contains_key(current_id),
                        *system == m[current_id],
                        g_scores@.contains_key(current_id),
                        g_cur == g_scores@[current_id],
                        closed_set@.contains(current_id),
                        closed_set@.contains(origin),
                        current_id != destination,
                        search_ok(
                            m,
                            origin,
                            destination,
                            open_set@,
                            g_scores@,
                            came_from@,
                            closed_set@,
                            time,
                            counter,
                        ),
                        time[current_id] == counter - 1,
                        expanded_ok(m, closed_set@, g_scores@, Some(current_id)),
                        j <= system.stargates@.len(),
                        forall|k: int|
                            0 <= k < j ==> (#[trigger] system.stargates@[k]).origin == current_id
                                && m.contains_key(system.stargates@[k].destination) ==> (
                            closed_set@.contains(system.stargates@[k].destination)
                                || g_scores@.contains_key(system.stargates@[k].destination)),
                        m.dom().difference(closed_set@).len() < m.dom().difference(
                            old_closed,
                        ).len(),
                        running(open_set@, g_scores@, came_from@, closed_set@) == expanded(
                            m,
                            destination,
                            current_id,
                            g_cur,
                            s_mid,
                            system.stargates@.take(j as int),
                        ),
                    decreases system.stargates@.len() - j,
                {
                    let ghost pre = running(open_set@, g_scores@, came_from@, closed_set@);
                    let stargate = system.stargates[j];
                    if stargate.origin == current_id {
                        let neighbor_id = stargate.destination;
                        if !closed_set.contains(&neighbor_id) {
                            match self.heuristic(current_id, neighbor_id) {
                                Some(g_heuristic) => {
                                    let tentative_g_score = add_capped(g_cur, g_heuristic);
                                    let better = match g_scores.get(&neighbor_id) {
                                        Some(old_score) => tentative_g_score < *old_score,
                                        None => true,
                                    };
                                    if better {
                                        let ghost open_before = open_set@;
                                        proof {
                                            assert(system.stargates@[j as int] == Stargate {
                                                origin: current_id,
                                                destination: neighbor_id,
                                            });
                                            assert(is_gate(m, current_id, neighbor_id));
                                        }
                                        came_from.insert(neighbor_id, current_id);
                                        g_scores.insert(neighbor_id, tentative_g_score);
                                        let h_dest = match self.heuristic(neighbor_id, destination) {
                                            Some(h) => h,
                                            None => 0,
                                        };
                                        open_set.push(
                                            Node {
                                                id: neighbor_id,
                                                f_score: add_capped(tentative_g_score, h_dest),
                                            },
                                        );
                                        proof {
                                            assert(open_view(open_set@) =~= open_view(open_before).push(
                                                (neighbor_id, open_set@[open_set@.len() - 1].f_score),
                                            ));
                                            assert(open_set@[open_set@.len() - 1].id == neighbor_id);
                                            assert forall|x: u32|
                                                g_scores@.contains_key(x) && !closed_set@.contains(
                                                    x,
                                                ) implies exists|i: int|
                                                0 <= i < open_set@.len() && #[trigger] open_set@[i].id
                                                    == x by {
                                                if x != neighbor_id {
                                                    let i = choose|i: int|
                                                        0 <= i < open_before.len()
                                                            && #[trigger] open_before[i].id == x;
                                                    assert(open_set@[i].id == x);
                                                }
                                            }
                                        }
                                    }
                                },
                                None => {},
                            }
                        }
                    }
                    proof {
                        assert(running(open_set@, g_scores@, came_from@, closed_set@) == relaxed(
                            m,
                            destination,
                            current_id,
                            g_cur,
                            pre,
                            system.stargates@[j as int],
                        ));
                        assert(system.stargates@.take(j + 1).drop_last() =~= system.stargates@.take(
                            j as int,
                        ));
                    }
                    j = j + 1;
                }
                proof {
                    assert(system.stargates@.take(j as int) =~= system.stargates@);
                    steps = steps + 1;
                }
                proof {
                    assert forall|c: u32, n: u32|
                        #![trigger closed_set@.contains(c), is_gate(m, c, n)]
                        closed_set@.contains(c) && is_gate(m, c, n) && m.contains_key(n)
                            implies closed_set@.contains(n) || g_scores@.contains_key(n) by {
                        if c == current_id {
                            let k = choose|k: int|
                                0 <= k < m[c].stargates@.len() && #[trigger] m[c].stargates@[k]
                                    == (Stargate { origin: c, destination: n });
                            assert(system.stargates@[k].origin == current_id);
                        }
                    }
                }
            }
        }
    }

    /// The route that A* finds from `start_id` to `end_id`: the cached one
    /// if this pair was asked for before and a route was found, else the
    /// one `a_star` finds, which is then cached. Either way it is
    /// `astar_route` of the map, so the cache never changes a result.
    /// `None` exactly when no route exists.
    pub fn compute_path(&mut self, start_id: u32, end_id: u32) -> (r: Option<Vec<u32>>)
        requires
            old(self).wf(),
        ensures
            final(self).wf(),
            final(self).spec_systems() == old(self).spec_systems(),
            r matches Some(p) ==> is_route(old(self).spec_systems(), p@, start_id, end_id)
                && visits_once(p@),
            r is None <==> !reachable(old(self).spec_systems(), start_id, end_id),
            match r {
                Some(p) => astar_route(old(self).spec_systems(), start_id, end_id) == Some(p@),
                None => astar_route(old(self).spec_systems(), start_id, end_id) is None,
            },
            old(self).spec_cache().contains_key(cache_key(start_id, end_id)) ==> {
                &&& r matches Some(p) && p@ == old(self).spec_cache()[cache_key(start_id, end_id)]
                &&& final(self).spec_cache() == old(self).spec_cache()
            },
            !old(self).spec_cache().contains_key(cache_key(start_id, end_id)) ==> match r {
                Some(p) => final(self).spec_cache() == old(self).spec_cache().insert(
                    cache_key(start_id, end_id),
                    p@,
                ),
                None => final(self).spec_cache() == old(self).spec_cache(),
            },
    {
        let key: u64 = (start_id as u64) * 4294967296 + end_id as u64;
        proof {
            assert(key / 0x1_0000_0000 == start_id && key % 0x1_0000_0000 == end_id) by (
            nonlinear_arith)
                requires
                    key == start_id * 0x1_0000_0000 + end_id,
                    0 <= end_id < 0x1_0000_0000,
            ;
        }
        match self.path_cache.get(&key) {
            Some(cached_path) => {
                let p = cached_path.clone();
                proof {
                    assert(p@ =~= cached_path@);
                    assert(is_route(self.systems@, p@, start_id, end_id));
                    assert(visits_once(p@));
                    assert(astar_route(self.systems@, start_id, end_id) == Some(p@));
                }
                return Some(p);
            },
            None => {},
        }
        let path = self.a_star(start_id, end_id);
        match path {
            Some(p) => {
                let kept = p.clone();
                proof {
                    assert(kept@ =~= p@);
                }
                let ghost before = self.spec_cache();
                self.path_cache.insert(key, kept);
                assert(self.spec_cache() =~= before.insert(key, p@));
                Some(p)
            },
            None => None,
        }
    }
}

/// A cached route is the route a fresh search finds: for every pair whose
/// route a pathfinder holds, `astar_route` of its map gives that route, so
/// a pathfinder that has answered many queries and a new one over the same
/// map answer alike.
pub proof fn law_cached_route_is_searched_route(p: Pathfinder, a: u32, b: u32)
    requires
        p.wf(),
        p.spec_cache().contains_key(cache_key(a, b)),
    ensures
        astar_route(p.spec_systems(), a, b) == Some(p.spec_cache()[cache_key(a, b)]),
{
    let k = cache_key(a, b);
    assert(k == a * 0x1_0000_0000 + b);
    assert(k / 0x1_0000_0000 == a && k % 0x1_0000_0000 == b) by (nonlinear_arith)
        requires
            k == a * 0x1_0000_0000 + b,
            0 <= b < 0x1_0000_0000,
    ;
    assert(p.path_cache@.contains_key(k));
}

} // verus!
