//! Greedy search of one layer of the index.

use vstd::multiset::Multiset;
use vstd::prelude::*;
use crate::graph::{links, HnswGraph, HnswNodeV};
use crate::ieee::Real;
use crate::kernels::{gives_distance, Kernels};
use crate::lists::lemma_prefix_grows;
use crate::order::{law_lead_unique, leads, lemma_full, rank_in_last, ranked, RankQueue, Ranked};
use crate::visited::VisitedSet;

verus! {

/// Whether the distance to a node was taken.
pub open spec fn has_seen(seen: Seq<(usize, Real)>, node: usize) -> bool {
    exists|q: int| 0 <= q < seen.len() && (#[trigger] seen[q]).0 == node
}

/// Whether node `node` is linked from one of the first `count` nodes of `seen`.
pub open spec fn linked_from(nodes: Seq<HnswNodeV>, layer: int, seen: Seq<(usize, Real)>, count: int, node: usize) -> bool {
    exists|i: int| 0 <= i < count && links(nodes, (#[trigger] seen[i]).0 as int, layer).contains(node)
}

/// `seen` is a walk over a layer: it starts at `entry`, each further node is linked from an
/// earlier one, none comes twice, and with each stands the distance to the query.
pub open spec fn walks<K: Kernels>(
    k: &K,
    nodes: Seq<HnswNodeV>,
    query: Seq<Real>,
    entry: usize,
    layer: int,
    seen: Seq<(usize, Real)>,
) -> bool {
    &&& seen.len() > 0
    &&& seen[0].0 == entry
    &&& forall|j: int|
        0 <= j < seen.len() ==> (#[trigger] seen[j]).0 < nodes.len() && gives_distance(
            k,
            query,
            nodes[seen[j].0 as int].point.vector,
            seen[j].1,
        )
    &&& forall|i: int, j: int| 0 <= i < j < seen.len() ==> (#[trigger] seen[i]).0 != (#[trigger] seen[j]).0
    &&& forall|j: int| 0 < j < seen.len() ==> linked_from(nodes, layer, seen, j, (#[trigger] seen[j]).0)
}

/// The ranks of the distances that were taken.
pub open spec fn near_ranks(seen: Seq<(usize, Real)>) -> Seq<i64> {
    Seq::new(seen.len(), |i: int| seen[i].1.near_rank() as i64)
}

/// Every node that `node` is linked to on the layer was seen.
pub open spec fn expanded(nodes: Seq<HnswNodeV>, layer: int, seen: Seq<(usize, Real)>, node: usize) -> bool {
    forall|l: usize|
        l < nodes.len() && #[trigger] links(nodes, node as int, layer).contains(l) ==> has_seen(seen, l)
}

/// The nodes at the places `order`.
pub open spec fn picked(seen: Seq<(usize, Real)>, order: Seq<usize>) -> Seq<(usize, Real)> {
    Seq::new(order.len(), |j: int| seen[order[j] as int])
}

/// How many nodes a search keeps: at least the one it starts from.
pub open spec fn kept(ef: usize) -> nat {
    if ef == 0 {
        1
    } else {
        ef as nat
    }
}

/// Whether `cap` of the items lead and each of these has a rank below `rank`.
pub open spec fn crowded_out(ranks: Seq<i64>, cap: nat, rank: int) -> bool {
    exists|order: Seq<usize>| #[trigger]
        leads(ranks, cap, order) && order.len() == cap && ranks[order.last() as int] < rank
}

/// Whether the `p`-th node, one of the first `len` of a walk, waits to be opened: when it was
/// met no `cap` others were as near, and it is not open yet.
pub open spec fn waits(ranks: Seq<i64>, cap: nat, opened: Seq<int>, len: int, p: int) -> bool {
    0 <= p < len && !crowded_out(ranks.take(p), cap, ranks[p] + 1) && !opened.contains(p)
}

/// The nodes of a walk.
pub open spec fn nodes_met(seen: Seq<(usize, Real)>) -> Seq<usize> {
    Seq::new(seen.len(), |i: int| seen[i].0)
}

/// The nodes of a walk after it went through links: those of the first `n` nodes that were not
/// met before are met in turn.
pub open spec fn met_through(met: Seq<usize>, n: nat, through: Seq<usize>) -> Seq<usize>
    decreases through.len(),
{
    if through.len() == 0 {
        met
    } else {
        let earlier = met_through(met, n, through.drop_last());
        let next = through.last();
        if next < n && !earlier.contains(next) {
            earlier.push(next)
        } else {
            earlier
        }
    }
}

/// The `t`-th step of a walk, from its first `lens[t]` nodes to its first `lens[t + 1]`. It opens
/// the nearest of the nodes that wait, the one met first where several are as near, and goes
/// through its links. It does so only while not all of the kept nodes are nearer.
pub open spec fn opens_next(
    nodes: Seq<HnswNodeV>,
    layer: int,
    cap: nat,
    seen: Seq<(usize, Real)>,
    opened: Seq<int>,
    lens: Seq<int>,
    t: int,
) -> bool {
    let ranks = near_ranks(seen);
    let place = opened[t];
    let before = opened.take(t);
    &&& 1 <= lens[t] <= lens[t + 1] <= seen.len()
    &&& waits(ranks, cap, before, lens[t], place)
    &&& forall|p: int| #[trigger]
        waits(ranks, cap, before, lens[t], p) ==> p == place || ranked(ranks, place).precedes(ranked(ranks, p))
    &&& !crowded_out(ranks.take(lens[t]), cap, ranks[place] as int)
    &&& nodes_met(seen).take(lens[t + 1]) == met_through(
        nodes_met(seen).take(lens[t]),
        nodes.len(),
        links(nodes, seen[place].0 as int, layer),
    )
}

/// The walk starts with one node and takes one step after the other.
pub open spec fn opens_so_far(
    nodes: Seq<HnswNodeV>,
    layer: int,
    cap: nat,
    seen: Seq<(usize, Real)>,
    opened: Seq<int>,
    lens: Seq<int>,
) -> bool {
    &&& lens.len() == opened.len() + 1
    &&& lens[0] == 1
    &&& lens.last() == seen.len()
    &&& forall|t: int| 0 <= t < opened.len() ==> #[trigger] opens_next(nodes, layer, cap, seen, opened, lens, t)
}

/// The walk ends: the kept nodes are nearer than each node that still waits.
pub open spec fn walked_out(cap: nat, seen: Seq<(usize, Real)>, opened: Seq<int>) -> bool {
    forall|p: int| #[trigger]
        waits(near_ranks(seen), cap, opened, seen.len() as int, p) ==> crowded_out(
            near_ranks(seen),
            cap,
            near_ranks(seen)[p] as int,
        )
}

/// `seen` is a greedy walk, which keeps the `cap` nearest nodes in sight: step by step it opens
/// the nearest node that waits, until those it keeps are nearer than all that wait.
pub open spec fn goes_greedily(nodes: Seq<HnswNodeV>, layer: int, cap: nat, seen: Seq<(usize, Real)>) -> bool {
    exists|opened: Seq<int>, lens: Seq<int>| #[trigger]
        opens_so_far(nodes, layer, cap, seen, opened, lens) && walked_out(cap, seen, opened)
}

/// `seen` is the walk of a greedy search of a layer, and `r` are the nearest nodes of it, those at
/// the places `order`.
pub open spec fn found_by<K: Kernels>(
    k: &K,
    nodes: Seq<HnswNodeV>,
    query: Seq<Real>,
    entry: usize,
    ef: usize,
    layer: int,
    r: Seq<(usize, Real)>,
    seen: Seq<(usize, Real)>,
    order: Seq<usize>,
) -> bool {
    &&& walks(k, nodes, query, entry, layer, seen)
    &&& goes_greedily(nodes, layer, kept(ef), seen)
    &&& leads(near_ranks(seen), kept(ef), order)
    &&& r == picked(seen, order)
    &&& forall|j: int| 0 <= j < r.len() ==> expanded(nodes, layer, seen, (#[trigger] r[j]).0)
}

/// What a greedy search of a layer comes to. The search walks greedily from `entry`; `r` are the
/// nearest nodes of the walk, nearest first, as many as are kept; and the walk went on from each
/// of them, so that none of their links leads to a node that was not looked at.
pub open spec fn finds<K: Kernels>(
    k: &K,
    nodes: Seq<HnswNodeV>,
    query: Seq<Real>,
    entry: usize,
    ef: usize,
    layer: int,
    r: Seq<(usize, Real)>,
) -> bool {
    exists|seen: Seq<(usize, Real)>, order: Seq<usize>| #[trigger]
        found_by(k, nodes, query, entry, ef, layer, r, seen, order)
}

/// The nodes of a walk, as a set.
pub open spec fn met_set(seen: Seq<(usize, Real)>) -> Set<usize> {
    Set::new(|v: usize| has_seen(seen, v))
}

/// What a greedy search of a layer comes to, and what it leaves behind: `marked` are the nodes
/// that its walk met.
pub open spec fn finds_and_marks<K: Kernels>(
    k: &K,
    nodes: Seq<HnswNodeV>,
    query: Seq<Real>,
    entry: usize,
    ef: usize,
    layer: int,
    r: Seq<(usize, Real)>,
    marked: Set<usize>,
) -> bool {
    exists|seen: Seq<(usize, Real)>, order: Seq<usize>| #[trigger]
        found_by(k, nodes, query, entry, ef, layer, r, seen, order) && marked == met_set(seen)
}

/// Whether as many lead as may is settled by any order that leads.
proof fn lemma_crowded_out(ranks: Seq<i64>, cap: nat, order: Seq<usize>, rank: int)
    requires
        leads(ranks, cap, order),
    ensures
        crowded_out(ranks, cap, rank) == (order.len() == cap && ranks[order.last() as int] < rank),
{
    if crowded_out(ranks, cap, rank) {
        let other = choose|other: Seq<usize>| #[trigger]
            leads(ranks, cap, other) && other.len() == cap && ranks[other.last() as int] < rank;
        law_lead_unique(ranks, cap, order, other);
    }
}

/// Whether a node waits does not depend on what is met later.
proof fn lemma_waits_same(a: Seq<i64>, b: Seq<i64>, cap: nat, opened: Seq<int>, len: int, p: int)
    requires
        len <= a.len() <= b.len(),
        b.take(a.len() as int) == a,
    ensures
        waits(a, cap, opened, len, p) == waits(b, cap, opened, len, p),
{
    if 0 <= p < len {
        assert(a.take(p) =~= b.take(p));
        assert(a[p] == b.take(a.len() as int)[p]);
    }
}

/// `queue` holds the nodes that wait, but for one.
spec fn awaits(queue: Multiset<Ranked>, ranks: Seq<i64>, cap: nat, opened: Seq<int>, but: int) -> bool {
    &&& forall|x: Ranked| #[trigger]
        queue.contains(x) ==> x == ranked(ranks, x.idx as int) && x.idx != but && waits(
            ranks,
            cap,
            opened,
            ranks.len() as int,
            x.idx as int,
        )
    &&& forall|p: int| #[trigger]
        waits(ranks, cap, opened, ranks.len() as int, p) && p != but ==> queue.contains(ranked(ranks, p))
    &&& forall|x: Ranked| #[trigger] queue.count(x) <= 1
    &&& forall|p: int| #[trigger] opened.contains(p) ==> 0 <= p < ranks.len()
}

/// The first node of the queue is the nearest that waits; without it the queue holds the others.
proof fn lemma_awaits_pop(queue: Multiset<Ranked>, ranks: Seq<i64>, cap: nat, opened: Seq<int>, first: Ranked)
    requires
        awaits(queue, ranks, cap, opened, -1),
        ranks.len() <= usize::MAX,
        queue.contains(first),
        forall|y: Ranked| #[trigger] queue.contains(y) ==> !y.precedes(first),
    ensures
        awaits(queue.remove(first), ranks, cap, opened, first.idx as int),
        first == ranked(ranks, first.idx as int),
        waits(ranks, cap, opened, ranks.len() as int, first.idx as int),
        forall|p: int| #[trigger]
            waits(ranks, cap, opened, ranks.len() as int, p) ==> p == first.idx || first.precedes(ranked(ranks, p)),
{
    broadcast use vstd::multiset::group_multiset_axioms;

    let rest = queue.remove(first);
    assert forall|x: Ranked| #[trigger] rest.contains(x) implies x == ranked(ranks, x.idx as int) && x.idx
        != first.idx && waits(ranks, cap, opened, ranks.len() as int, x.idx as int) by {
        assert(rest.count(x) <= queue.count(x));
        assert(queue.contains(x));
        assert(queue.count(first) <= 1);
    }
    assert forall|p: int| #[trigger] waits(ranks, cap, opened, ranks.len() as int, p) && p
        != first.idx implies rest.contains(ranked(ranks, p)) by {
        assert(queue.contains(ranked(ranks, p)));
    }
    assert forall|x: Ranked| #[trigger] rest.count(x) <= 1 by {
        assert(queue.count(x) <= 1);
    }
    assert forall|p: int| #[trigger] waits(ranks, cap, opened, ranks.len() as int, p) implies p == first.idx
        || first.precedes(ranked(ranks, p)) by {
        assert(queue.contains(ranked(ranks, p)));
    }
}

/// One more node is met; it waits if it goes into the queue.
proof fn lemma_awaits_push(
    queue: Multiset<Ranked>,
    ranks: Seq<i64>,
    cap: nat,
    opened: Seq<int>,
    but: int,
    order: Seq<usize>,
    rank: i64,
    taken: bool,
)
    requires
        awaits(queue, ranks, cap, opened, but),
        ranks.len() < usize::MAX,
        but < ranks.len(),
        cap >= 1,
        leads(ranks, cap, order),
        taken == (order.len() < cap || rank < ranks[order.last() as int]),
    ensures
        awaits(
            if taken {
                queue.insert(ranked(ranks.push(rank), ranks.len() as int))
            } else {
                queue
            },
            ranks.push(rank),
            cap,
            opened,
            but,
        ),
{
    broadcast use vstd::multiset::group_multiset_axioms;

    let more = ranks.push(rank);
    let last = ranks.len() as int;
    let now = if taken {
        queue.insert(ranked(more, last))
    } else {
        queue
    };
    assert(more.take(last) =~= ranks);
    lemma_crowded_out(ranks, cap, order, rank + 1);
    assert(waits(more, cap, opened, last + 1, last) == taken) by {
        assert(!opened.contains(last));
    }
    assert forall|x: Ranked| #[trigger] now.contains(x) implies x == ranked(more, x.idx as int) && x.idx != but
        && waits(more, cap, opened, last + 1, x.idx as int) by {
        if x != ranked(more, last) || !taken {
            assert(queue.count(x) == now.count(x));
            assert(queue.contains(x));
            lemma_waits_same(ranks, more, cap, opened, last, x.idx as int);
        }
    }
    assert forall|p: int| #[trigger] waits(more, cap, opened, last + 1, p) && p != but implies now.contains(
        ranked(more, p),
    ) by {
        if p < last {
            lemma_waits_same(ranks, more, cap, opened, last, p);
            assert(queue.contains(ranked(ranks, p)));
            assert(ranked(more, p) == ranked(ranks, p));
        }
    }
    assert forall|x: Ranked| #[trigger] now.count(x) <= 1 by {
        assert(queue.count(x) <= 1);
        if x == ranked(more, last) {
            assert(!queue.contains(x));
        }
    }
}

/// The node that was left out is opened.
proof fn lemma_awaits_opened(queue: Multiset<Ranked>, ranks: Seq<i64>, cap: nat, opened: Seq<int>, but: int)
    requires
        awaits(queue, ranks, cap, opened, but),
        0 <= but < ranks.len(),
    ensures
        awaits(queue, ranks, cap, opened.push(but), -1),
{
    let more = opened.push(but);
    assert(more[opened.len() as int] == but);
    assert forall|p: int| #[trigger] more.contains(p) == (p == but || opened.contains(p)) by {
        if opened.contains(p) {
            let m = choose|m: int| 0 <= m < opened.len() && opened[m] == p;
            assert(more[m] == p);
        }
        if more.contains(p) {
            let m = choose|m: int| 0 <= m < more.len() && more[m] == p;
            if m < opened.len() {
                assert(opened[m] == p);
            }
        }
    }
    assert forall|p: int| #[trigger] waits(ranks, cap, more, ranks.len() as int, p) implies queue.contains(
        ranked(ranks, p),
    ) by {
        assert(!more.contains(p));
        assert(waits(ranks, cap, opened, ranks.len() as int, p));
    }
    assert forall|x: Ranked| #[trigger] queue.contains(x) implies x == ranked(ranks, x.idx as int) && x.idx != -1
        && waits(ranks, cap, more, ranks.len() as int, x.idx as int) by {
        assert(!more.contains(x.idx as int));
    }
}

/// The steps so far are steps of the longer walk too, and opening the nearest node that waits is
/// the next one.
proof fn lemma_opens_one_more(
    nodes: Seq<HnswNodeV>,
    layer: int,
    cap: nat,
    started: Seq<(usize, Real)>,
    seen: Seq<(usize, Real)>,
    opened: Seq<int>,
    lens: Seq<int>,
    place: int,
)
    requires
        opens_so_far(nodes, layer, cap, started, opened, lens),
        1 <= started.len() <= seen.len(),
        seen.take(started.len() as int) == started,
        waits(near_ranks(started), cap, opened, started.len() as int, place),
        forall|p: int| #[trigger]
            waits(near_ranks(started), cap, opened, started.len() as int, p) ==> p == place || ranked(
                near_ranks(started),
                place,
            ).precedes(ranked(near_ranks(started), p)),
        !crowded_out(near_ranks(started), cap, near_ranks(started)[place] as int),
        nodes_met(seen) == met_through(
            nodes_met(started),
            nodes.len(),
            links(nodes, started[place].0 as int, layer),
        ),
    ensures
        opens_so_far(nodes, layer, cap, seen, opened.push(place), lens.push(seen.len() as int)),
{
    let a = near_ranks(started);
    let b = near_ranks(seen);
    let n = started.len() as int;
    let opened2 = opened.push(place);
    let lens2 = lens.push(seen.len() as int);
    assert forall|i: int| 0 <= i < n implies #[trigger] started[i] == seen[i] by {
        assert(seen.take(n)[i] == seen[i]);
    }
    assert(b.take(n) =~= a);
    assert(nodes_met(seen).take(n) =~= nodes_met(started));
    assert(nodes_met(seen).take(seen.len() as int) =~= nodes_met(seen));
    assert forall|t: int| 0 <= t < opened2.len() implies #[trigger] opens_next(
        nodes,
        layer,
        cap,
        seen,
        opened2,
        lens2,
        t,
    ) by {
        let before = opened2.take(t);
        assert(before =~= opened.take(t));
        if t < opened.len() {
            assert(opens_next(nodes, layer, cap, started, opened, lens, t));
            let len = lens[t];
            assert(b.take(len) =~= a.take(len));
            assert(nodes_met(seen).take(len) =~= nodes_met(started).take(len));
            assert(nodes_met(seen).take(lens[t + 1]) =~= nodes_met(started).take(lens[t + 1]));
            lemma_waits_same(a, b, cap, before, len, opened[t]);
            assert forall|p: int| #[trigger] waits(b, cap, before, len, p) implies p == opened[t] || ranked(
                b,
                opened[t],
            ).precedes(ranked(b, p)) by {
                lemma_waits_same(a, b, cap, before, len, p);
                assert(waits(a, cap, before, len, p));
            }
        } else {
            assert(before =~= opened);
            lemma_waits_same(a, b, cap, opened, n, place);
            assert forall|p: int| #[trigger] waits(b, cap, before, n, p) implies p == place || ranked(
                b,
                place,
            ).precedes(ranked(b, p)) by {
                lemma_waits_same(a, b, cap, opened, n, p);
                assert(waits(a, cap, opened, n, p));
            }
        }
    }
}

/// At first the entry waits.
proof fn lemma_awaits_entry(queue: Multiset<Ranked>, ranks: Seq<i64>, cap: nat)
    requires
        cap >= 1,
        ranks.len() == 1,
        queue == Multiset::<Ranked>::empty().insert(ranked(ranks, 0)),
    ensures
        awaits(queue, ranks, cap, Seq::empty(), -1),
{
    broadcast use vstd::multiset::group_multiset_axioms;

    let first = ranked(ranks, 0);
    assert(ranks.take(0).len() == 0);
    assert(!crowded_out(ranks.take(0), cap, ranks[0] + 1));
    assert(waits(ranks, cap, Seq::empty(), 1, 0));
    assert forall|x: Ranked| #[trigger] queue.contains(x) implies x == first by {
        if x != first {
            assert(queue.count(x) == Multiset::<Ranked>::empty().count(x));
        }
    }
    assert forall|x: Ranked| #[trigger] queue.count(x) <= 1 by {
        if x != first {
            assert(queue.count(x) == Multiset::<Ranked>::empty().count(x));
        }
    }
}

/// The next link leads to a new node, or the walk stays as it is.
proof fn lemma_met_next(seen: Seq<(usize, Real)>, started: Seq<(usize, Real)>, n: nat, through: Seq<usize>, i: int)
    requires
        0 <= i < through.len(),
        nodes_met(seen) == met_through(nodes_met(started), n, through.take(i)),
    ensures
        met_through(nodes_met(started), n, through.take(i + 1)) == if through[i] < n && !has_seen(seen, through[i]) {
            nodes_met(seen).push(through[i])
        } else {
            nodes_met(seen)
        },
{
    lemma_prefix_grows(through, i);
    let met = nodes_met(seen);
    assert(met.contains(through[i]) == has_seen(seen, through[i])) by {
        if met.contains(through[i]) {
            let m = choose|m: int| 0 <= m < met.len() && met[m] == through[i];
            assert(seen[m].0 == through[i]);
        }
        if has_seen(seen, through[i]) {
            let q = choose|q: int| 0 <= q < seen.len() && (#[trigger] seen[q]).0 == through[i];
            assert(met[q] == through[i]);
        }
    }
}

/// Where the nearest node that waits is farther than all kept ones, or none waits, the walk ends.
proof fn lemma_walked_out(queue: Multiset<Ranked>, seen: Seq<(usize, Real)>, cap: nat, opened: Seq<int>, order: Seq<usize>)
    requires
        awaits(queue, near_ranks(seen), cap, opened, -1),
        leads(near_ranks(seen), cap, order),
        forall|x: Ranked| #[trigger]
            queue.contains(x) ==> order.len() == cap && near_ranks(seen)[order.last() as int] < x.rank,
    ensures
        walked_out(cap, seen, opened),
{
    let ranks = near_ranks(seen);
    assert forall|p: int| #[trigger] waits(ranks, cap, opened, seen.len() as int, p) implies crowded_out(
        ranks,
        cap,
        ranks[p] as int,
    ) by {
        assert(queue.contains(ranked(ranks, p)));
        lemma_crowded_out(ranks, cap, order, ranks[p] as int);
    }
}

proof fn lemma_seen_bounded(seen: Seq<(usize, Real)>, n: nat)
    requires
        forall|j: int| 0 <= j < seen.len() ==> (#[trigger] seen[j]).0 < n,
        forall|i: int, j: int| 0 <= i < j < seen.len() ==> (#[trigger] seen[i]).0 != (#[trigger] seen[j]).0,
    ensures
        seen.len() <= n,
{
    let numbers = Seq::new(seen.len(), |j: int| seen[j].0 as int);
    assert(numbers.no_duplicates());
    numbers.unique_seq_to_set();
    let all = vstd::set_lib::set_int_range(0, n as int);
    vstd::set_lib::lemma_int_range(0, n as int);
    assert(numbers.to_set().subset_of(all)) by {
        assert forall|x: int| numbers.to_set().contains(x) implies all.contains(x) by {
            let m = choose|m: int| 0 <= m < numbers.len() && numbers[m] == x;
            assert(seen[m].0 < n);
        }
    }
    vstd::set_lib::lemma_len_subset(numbers.to_set(), all);
}

impl HnswGraph {
    /// Find nearest neighbors using greedy search
    pub fn search_layer<K: Kernels>(
        &self,
        k: &K,
        visited: &mut VisitedSet,
        query: &[Real],
        entry_point: usize,
        ef: usize,
        layer: usize,
    ) -> (r: Vec<(usize, Real)>)
        requires
            self.wf(),
            old(visited).wf(),
            entry_point < self@.len(),
        ensures
            final(visited).wf(),
            finds(k, self@, query@, entry_point, ef, layer as int, r@),
            finds_and_marks(k, self@, query@, entry_point, ef, layer as int, r@, final(visited)@),
    {
        let n: usize = self.len();
        let ghost nodes = self@;
        visited.clear();
        visited.ensure_capacity(n);
        let cap: usize = if ef == 0 {
            1
        } else {
            ef
        };
        let entry_dist = self.distance_to_node(k, query, entry_point);
        let mut seen: Vec<(usize, Real)> = Vec::new();
        let mut ranks: Vec<i64> = Vec::new();
        let mut best: Vec<usize> = Vec::new();
        let mut candidates = RankQueue::new();
        seen.push((entry_point, entry_dist));
        ranks.push(entry_dist.rank_near());
        best.push(0);
        candidates.push(Ranked { rank: ranks[0], idx: 0 });
        visited.insert(entry_point);
        let ghost mut done: Set<int> = Set::empty();
        let ghost mut opened: Seq<int> = Seq::empty();
        let ghost mut lens: Seq<int> = seq![1int];
        proof {
            assert(ranks@ =~= near_ranks(seen@));
            lemma_awaits_entry(candidates@, ranks@, kept(ef));
            assert forall|v: usize| v < 1 implies #[trigger] best@.contains(v) by {
                assert(best@[0] == v);
            }
        }
        loop
            invariant_except_break
                self.wf(),
                visited.wf(),
                nodes == self@,
                n == nodes.len(),
                cap == kept(ef),
                walks(k, nodes, query@, entry_point, layer as int, seen@),
                ranks@ == near_ranks(seen@),
                leads(ranks@, kept(ef), best@),
                candidates.wf(),
                forall|v: usize| #[trigger] visited@.contains(v) <==> has_seen(seen@, v),
                forall|x: Ranked| #[trigger]
                    candidates@.contains(x) ==> x.idx < seen@.len() && x.rank == ranks@[x.idx as int],
                forall|p: int| #[trigger]
                    done.contains(p) ==> 0 <= p < seen@.len() && expanded(nodes, layer as int, seen@, seen@[p].0),
                forall|v: usize| #[trigger]
                    best@.contains(v) ==> done.contains(v as int) || candidates@.contains(
                        ranked(ranks@, v as int),
                    ),
                opens_so_far(nodes, layer as int, kept(ef), seen@, opened, lens),
                awaits(candidates@, ranks@, kept(ef), opened, -1),
            ensures
                visited.wf(),
                forall|v: usize| #[trigger] visited@.contains(v) <==> has_seen(seen@, v),
                goes_greedily(nodes, layer as int, kept(ef), seen@),
                walks(k, nodes, query@, entry_point, layer as int, seen@),
                ranks@ == near_ranks(seen@),
                leads(ranks@, kept(ef), best@),
                forall|v: usize| #[trigger]
                    best@.contains(v) ==> expanded(nodes, layer as int, seen@, seen@[v as int].0),
            decreases n - seen@.len(), candidates@.len(),
        {
            broadcast use vstd::multiset::group_multiset_axioms;

            let ghost waiting = candidates@;
            let ghost started = seen@;
            let next = candidates.pop();
            let current: Ranked = match next {
                Some(c) => c,
                None => {
                    proof {
                        assert forall|x: Ranked| #[trigger] waiting.contains(x) implies false by {
                            assert(waiting.count(x) <= waiting.len());
                        }
                        lemma_walked_out(waiting, seen@, kept(ef), opened, best@);
                    }
                    break;
                },
            };
            let size: usize = best.len();
            if size >= ef && current.rank > ranks[best[size - 1]] {
                proof {
                    assert forall|v: usize| #[trigger] best@.contains(v) implies done.contains(v as int) by {
                        let m = choose|m: int| 0 <= m < best@.len() && best@[m] == v;
                        if m < size - 1 {
                            assert(ranked(ranks@, best@[m] as int).precedes(
                                ranked(ranks@, best@[size - 1] as int),
                            ));
                        }
                        if waiting.contains(ranked(ranks@, v as int)) {
                            assert(!ranked(ranks@, v as int).precedes(current));
                        }
                    }
                    assert forall|x: Ranked| #[trigger] waiting.contains(x) implies best@.len() == kept(ef)
                        && near_ranks(seen@)[best@.last() as int] < x.rank by {
                        assert(!x.precedes(current));
                    }
                    lemma_walked_out(waiting, seen@, kept(ef), opened, best@);
                }
                break;
            }
            proof {
                assert(waiting.contains(current));
                lemma_seen_bounded(seen@, n as nat);
                lemma_awaits_pop(waiting, ranks@, kept(ef), opened, current);
                lemma_crowded_out(ranks@, kept(ef), best@, current.rank as int);
                assert(seen@.take(started.len() as int) =~= started);
                assert forall|x: Ranked| #[trigger] candidates@.contains(x) implies waiting.contains(x) by {
                    assert(candidates@.count(x) <= waiting.count(x));
                }
            }
            let nbrs = self.neighbors(seen[current.idx].0, layer);
            let ghost here = seen@[current.idx as int].0;
            assert(nbrs@.take(0) =~= Seq::<usize>::empty());
            let mut i: usize = 0;
            while i < nbrs.len()
                invariant
                    self.wf(),
                    visited.wf(),
                    nodes == self@,
                    n == nodes.len(),
                    cap == kept(ef),
                    i <= nbrs@.len(),
                    nbrs@ == links(nodes, here as int, layer as int),
                    current.idx < started.len() <= seen@.len(),
                    seen@[current.idx as int].0 == here,
                    seen@.len() > started.len() || candidates@.len() < waiting.len(),
                    walks(k, nodes, query@, entry_point, layer as int, seen@),
                    ranks@ == near_ranks(seen@),
                    leads(ranks@, kept(ef), best@),
                    candidates.wf(),
                    forall|v: usize| #[trigger] visited@.contains(v) <==> has_seen(seen@, v),
                    forall|x: Ranked| #[trigger]
                        candidates@.contains(x) ==> x.idx < seen@.len() && x.rank == ranks@[x.idx as int],
                    forall|p: int| #[trigger]
                        done.contains(p) ==> 0 <= p < seen@.len() && expanded(
                            nodes,
                            layer as int,
                            seen@,
                            seen@[p].0,
                        ),
                    forall|v: usize| #[trigger]
                        best@.contains(v) ==> done.contains(v as int) || v == current.idx || candidates@.contains(
                            ranked(ranks@, v as int),
                        ),
                    forall|j: int| 0 <= j < i && nbrs@[j] < n ==> has_seen(seen@, #[trigger] nbrs@[j]),
                    seen@.take(started.len() as int) == started,
                    nodes_met(seen@) == met_through(nodes_met(started), n as nat, nbrs@.take(i as int)),
                    awaits(candidates@, ranks@, kept(ef), opened, current.idx as int),
                decreases nbrs@.len() - i,
            {
                let neighbor_idx: usize = nbrs[i];
                proof {
                    lemma_met_next(seen@, started, n as nat, nbrs@, i as int);
                }
                if neighbor_idx < n {
                    if visited.insert(neighbor_idx) {
                        let dist = self.distance_to_node(k, query, neighbor_idx);
                        let rank: i64 = dist.rank_near();
                        let ghost seen0 = seen@;
                        let ghost ranks0 = ranks@;
                        let ghost best0 = best@;
                        let ghost candidates0 = candidates@;
                        seen.push((neighbor_idx, dist));
                        ranks.push(rank);
                        proof {
                            assert(links(nodes, seen0[current.idx as int].0 as int, layer as int).contains(
                                neighbor_idx,
                            ));
                            lemma_walk_on(k, nodes, query@, entry_point, layer as int, seen0, (neighbor_idx, dist));
                            lemma_seen_bounded(seen@, n as nat);
                            lemma_awaits_push(
                                candidates0,
                                ranks0,
                                kept(ef),
                                opened,
                                current.idx as int,
                                best0,
                                rank,
                                best0.len() < kept(ef) || rank < ranks0[best0.last() as int],
                            );
                            assert(ranks@ =~= ranks0.push(rank));
                            assert(nodes_met(seen@) =~= nodes_met(seen0).push(neighbor_idx));
                            assert(seen@.take(started.len() as int) =~= seen0.take(started.len() as int));
                            assert(ranks@ =~= near_ranks(seen@));
                            assert(ranks@.drop_last() =~= ranks0);
                        }
                        if rank_in_last(&ranks, cap, &mut best) {
                            candidates.push(Ranked { rank, idx: seen.len() - 1 });
                        }
                        proof {
                            assert forall|x: Ranked| #[trigger] candidates@.contains(x) implies x.idx < seen@.len()
                                && x.rank == ranks@[x.idx as int] by {
                                if x.idx != seen@.len() - 1 || x.rank != rank {
                                    assert(candidates0.count(x) == candidates@.count(x));
                                    assert(candidates0.contains(x));
                                }
                            }
                            assert forall|p: int| #[trigger] done.contains(p) implies 0 <= p < seen@.len() && expanded(
                                nodes,
                                layer as int,
                                seen@,
                                seen@[p].0,
                            ) by {
                                lemma_still_expanded(nodes, layer as int, seen0, (neighbor_idx, dist), seen0[p].0);
                            }
                            assert forall|v: usize| #[trigger] visited@.contains(v) <==> has_seen(seen@, v) by {
                                lemma_has_seen_push(seen0, (neighbor_idx, dist), v);
                            }
                            assert forall|v: usize| #[trigger] best@.contains(v) implies done.contains(v as int) || v
                                == current.idx || candidates@.contains(ranked(ranks@, v as int)) by {
                                if v != seen@.len() - 1 {
                                    assert(best0.contains(v));
                                    let m = choose|m: int| 0 <= m < best0.len() && best0[m] == v;
                                    assert(ranked(ranks@, v as int) == ranked(ranks0, v as int));
                                }
                            }
                            assert forall|j: int| 0 <= j < i && nbrs@[j] < n implies has_seen(
                                seen@,
                                #[trigger] nbrs@[j],
                            ) by {
                                lemma_has_seen_push(seen0, (neighbor_idx, dist), nbrs@[j]);
                            }
                            lemma_has_seen_push(seen0, (neighbor_idx, dist), neighbor_idx);
                        }
                    }
                }
                i += 1;
            }
            proof {
                assert(expanded(nodes, layer as int, seen@, here)) by {
                    assert forall|l: usize|
                        l < nodes.len() && #[trigger] links(nodes, here as int, layer as int).contains(
                            l,
                        ) implies has_seen(seen@, l) by {
                        let j = choose|j: int| 0 <= j < nbrs@.len() && nbrs@[j] == l;
                        assert(has_seen(seen@, nbrs@[j]));
                    }
                }
                done = done.insert(current.idx as int);
                lemma_seen_bounded(seen@, n as nat);
                assert(nbrs@.take(i as int) =~= nbrs@);
                lemma_opens_one_more(
                    nodes,
                    layer as int,
                    kept(ef),
                    started,
                    seen@,
                    opened,
                    lens,
                    current.idx as int,
                );
                lemma_awaits_opened(candidates@, ranks@, kept(ef), opened, current.idx as int);
                opened = opened.push(current.idx as int);
                lens = lens.push(seen@.len() as int);
            }
        }
        let mut r: Vec<(usize, Real)> = Vec::new();
        let mut j: usize = 0;
        while j < best.len()
            invariant
                j <= best@.len(),
                r@.len() == j,
                leads(ranks@, kept(ef), best@),
                ranks@ == near_ranks(seen@),
                forall|m: int| 0 <= m < j ==> #[trigger] r@[m] == seen@[best@[m] as int],
            decreases best@.len() - j,
        {
            r.push(seen[best[j]]);
            j += 1;
        }
        proof {
            assert(r@ =~= picked(seen@, best@));
            assert(near_ranks(seen@) == ranks@);
            assert forall|m: int| 0 <= m < r@.len() implies expanded(
                nodes,
                layer as int,
                seen@,
                (#[trigger] r@[m]).0,
            ) by {
                assert(best@.contains(best@[m]));
            }
            assert(found_by(k, nodes, query@, entry_point, ef, layer as int, r@, seen@, best@));
            assert(visited@ =~= met_set(seen@));
        }
        r
    }
}

proof fn lemma_has_seen_push(seen: Seq<(usize, Real)>, item: (usize, Real), v: usize)
    ensures
        has_seen(seen.push(item), v) == (v == item.0 || has_seen(seen, v)),
{
    let more = seen.push(item);
    assert(more[seen.len() as int] == item);
    if has_seen(seen, v) {
        let q = choose|q: int| 0 <= q < seen.len() && (#[trigger] seen[q]).0 == v;
        assert(more[q].0 == v);
    }
    if has_seen(more, v) {
        let q = choose|q: int| 0 <= q < more.len() && (#[trigger] more[q]).0 == v;
        if q < seen.len() {
            assert(seen[q].0 == v);
        }
    }
}

proof fn lemma_still_expanded(
    nodes: Seq<HnswNodeV>,
    layer: int,
    seen: Seq<(usize, Real)>,
    item: (usize, Real),
    node: usize,
)
    requires
        expanded(nodes, layer, seen, node),
    ensures
        expanded(nodes, layer, seen.push(item), node),
{
    assert forall|l: usize|
        l < nodes.len() && #[trigger] links(nodes, node as int, layer).contains(l) implies has_seen(
        seen.push(item),
        l,
    ) by {
        lemma_has_seen_push(seen, item, l);
    }
}

/// A walk goes on to a node that is linked from it and was not met yet.
proof fn lemma_walk_on<K: Kernels>(
    k: &K,
    nodes: Seq<HnswNodeV>,
    query: Seq<Real>,
    entry: usize,
    layer: int,
    seen: Seq<(usize, Real)>,
    item: (usize, Real),
)
    requires
        walks(k, nodes, query, entry, layer, seen),
        item.0 < nodes.len(),
        !has_seen(seen, item.0),
        linked_from(nodes, layer, seen, seen.len() as int, item.0),
        gives_distance(k, query, nodes[item.0 as int].point.vector, item.1),
    ensures
        walks(k, nodes, query, entry, layer, seen.push(item)),
{
    let more = seen.push(item);
    assert forall|i: int, j: int| 0 <= i < j < more.len() implies (#[trigger] more[i]).0 != (#[trigger] more[j]).0 by {
        if j == seen.len() {
            assert(seen[i].0 != item.0);
        }
    }
    assert forall|j: int| 0 < j < more.len() implies linked_from(nodes, layer, more, j, (#[trigger] more[j]).0) by {
        if j < seen.len() {
            assert(linked_from(nodes, layer, seen, j, seen[j].0));
            let i = choose|i: int|
                0 <= i < j && links(nodes, (#[trigger] seen[i]).0 as int, layer).contains(seen[j].0);
            assert(more[i] == seen[i]);
        } else {
            let i = choose|i: int|
                0 <= i < seen.len() && links(nodes, (#[trigger] seen[i]).0 as int, layer).contains(item.0);
            assert(more[i] == seen[i]);
        }
    }
}

/// What a search finds are different nodes of the index, nearest first.
pub proof fn law_found_sorted<K: Kernels>(
    k: &K,
    nodes: Seq<HnswNodeV>,
    query: Seq<Real>,
    entry: usize,
    ef: usize,
    layer: int,
    r: Seq<(usize, Real)>,
)
    requires
        finds(k, nodes, query, entry, ef, layer, r),
    ensures
        1 <= r.len() <= kept(ef),
        forall|j: int|
            0 <= j < r.len() ==> (#[trigger] r[j]).0 < nodes.len() && gives_distance(
                k,
                query,
                nodes[r[j].0 as int].point.vector,
                r[j].1,
            ),
        forall|i: int, j: int|
            0 <= i < j < r.len() ==> (#[trigger] r[i]).0 != (#[trigger] r[j]).0 && r[i].1.near_rank()
                <= r[j].1.near_rank(),
{
    let (seen, order) = choose|seen: Seq<(usize, Real)>, order: Seq<usize>| #[trigger]
        found_by(k, nodes, query, entry, ef, layer, r, seen, order);
    let ranks = near_ranks(seen);
    assert forall|j: int| 0 <= j < r.len() implies (#[trigger] r[j]).0 < nodes.len() && gives_distance(
        k,
        query,
        nodes[r[j].0 as int].point.vector,
        r[j].1,
    ) by {
        assert(r[j] == seen[order[j] as int]);
    }
    assert forall|i: int, j: int| 0 <= i < j < r.len() implies (#[trigger] r[i]).0 != (#[trigger] r[j]).0
        && r[i].1.near_rank() <= r[j].1.near_rank() by {
        assert(ranked(ranks, order[i] as int).precedes(ranked(ranks, order[j] as int)));
        assert(r[i] == seen[order[i] as int] && r[j] == seen[order[j] as int]);
        assert(order[i] != order[j]);
    }
}

/// A path along the links of a layer.
pub open spec fn path(nodes: Seq<HnswNodeV>, layer: int, p: Seq<usize>) -> bool {
    &&& p.len() > 0
    &&& forall|i: int| 0 <= i < p.len() ==> #[trigger] p[i] < nodes.len()
    &&& forall|i: int| 0 <= i < p.len() - 1 ==> links(nodes, #[trigger] p[i] as int, layer).contains(p[i + 1])
}

/// Whether the links of a layer lead from one node to another.
pub open spec fn reachable(nodes: Seq<HnswNodeV>, layer: int, from: usize, to: usize) -> bool {
    exists|p: Seq<usize>| #[trigger] path(nodes, layer, p) && p[0] == from && p.last() == to
}

proof fn lemma_walk_reachable<K: Kernels>(
    k: &K,
    nodes: Seq<HnswNodeV>,
    query: Seq<Real>,
    entry: usize,
    layer: int,
    seen: Seq<(usize, Real)>,
    j: int,
)
    requires
        walks(k, nodes, query, entry, layer, seen),
        0 <= j < seen.len(),
    ensures
        reachable(nodes, layer, entry, seen[j].0),
    decreases j,
{
    if j == 0 {
        let p = seq![entry];
        assert(seen[0].0 == entry);
        assert(path(nodes, layer, p));
        assert(p.last() == entry);
    } else {
        assert(linked_from(nodes, layer, seen, j, seen[j].0));
        let i = choose|i: int| 0 <= i < j && links(nodes, (#[trigger] seen[i]).0 as int, layer).contains(seen[j].0);
        lemma_walk_reachable(k, nodes, query, entry, layer, seen, i);
        let p = choose|p: Seq<usize>| #[trigger]
            path(nodes, layer, p) && p[0] == entry && p.last() == seen[i].0;
        let q = p.push(seen[j].0);
        assert forall|m: int| 0 <= m < q.len() - 1 implies links(nodes, #[trigger] q[m] as int, layer).contains(
            q[m + 1],
        ) by {
            if m < p.len() - 1 {
                assert(q[m] == p[m] && q[m + 1] == p[m + 1]);
            } else {
                assert(q[m] == p.last());
            }
        }
        assert forall|m: int| 0 <= m < q.len() implies #[trigger] q[m] < nodes.len() by {
            if m < p.len() {
                assert(q[m] == p[m]);
            }
        }
        assert(path(nodes, layer, q));
        assert(q[0] == entry && q.last() == seen[j].0);
    }
}

proof fn lemma_closed_holds_path(nodes: Seq<HnswNodeV>, layer: int, seen: Seq<(usize, Real)>, p: Seq<usize>, m: int)
    requires
        path(nodes, layer, p),
        has_seen(seen, p[0]),
        forall|j: int| 0 <= j < seen.len() ==> expanded(nodes, layer, seen, (#[trigger] seen[j]).0),
        0 <= m < p.len(),
    ensures
        has_seen(seen, p[m]),
    decreases m,
{
    if m > 0 {
        lemma_closed_holds_path(nodes, layer, seen, p, m - 1);
        let q = choose|q: int| 0 <= q < seen.len() && (#[trigger] seen[q]).0 == p[m - 1];
        assert(expanded(nodes, layer, seen, seen[q].0));
        assert(links(nodes, p[m - 1] as int, layer).contains(p[m - 1 + 1]));
        assert(p[m] < nodes.len());
    }
}

/// Everything found can be reached from the entry. A search that had room left has found
/// everything that can be reached: it is then exact.
pub proof fn law_search_exact_with_room<K: Kernels>(
    k: &K,
    nodes: Seq<HnswNodeV>,
    query: Seq<Real>,
    entry: usize,
    ef: usize,
    layer: int,
    r: Seq<(usize, Real)>,
    node: usize,
)
    requires
        finds(k, nodes, query, entry, ef, layer, r),
    ensures
        has_seen(r, node) ==> reachable(nodes, layer, entry, node),
        r.len() < kept(ef) && reachable(nodes, layer, entry, node) ==> has_seen(r, node),
{
    let (seen, order) = choose|seen: Seq<(usize, Real)>, order: Seq<usize>| #[trigger]
        found_by(k, nodes, query, entry, ef, layer, r, seen, order);
    if has_seen(r, node) {
        let q = choose|q: int| 0 <= q < r.len() && (#[trigger] r[q]).0 == node;
        assert(r[q] == seen[order[q] as int]);
        lemma_walk_reachable(k, nodes, query, entry, layer, seen, order[q] as int);
    }
    if r.len() < kept(ef) {
        lemma_seen_bounded(seen, (usize::MAX + 1) as nat);
        assert forall|j: int| 0 <= j < seen.len() implies has_seen(r, (#[trigger] seen[j]).0) && expanded(
            nodes,
            layer,
            seen,
            seen[j].0,
        ) by {
            lemma_full(near_ranks(seen), order, j as usize);
            let m = choose|m: int| 0 <= m < order.len() && order[m] == j as usize;
            assert(r[m] == seen[j]);
            assert(expanded(nodes, layer, seen, r[m].0));
        }
        if reachable(nodes, layer, entry, node) {
            let p = choose|p: Seq<usize>| #[trigger]
                path(nodes, layer, p) && p[0] == entry && p.last() == node;
            assert(seen[0].0 == p[0]);
            lemma_closed_holds_path(nodes, layer, seen, p, p.len() - 1);
            let q = choose|q: int| 0 <= q < seen.len() && (#[trigger] seen[q]).0 == node;
            assert(has_seen(r, seen[q].0));
        }
    }
}

/// Whether the distance of two vectors is always the same.
pub open spec fn steady_distance<K: Kernels>(k: &K) -> bool {
    forall|a: Seq<Real>, b: Seq<Real>, x: Real, y: Real|
        #![trigger gives_distance(k, a, b, x), gives_distance(k, a, b, y)]
        gives_distance(k, a, b, x) && gives_distance(k, a, b, y) ==> x == y
}

/// Two greedy walks from one node agree step by step.
proof fn lemma_walks_agree<K: Kernels>(
    k: &K,
    nodes: Seq<HnswNodeV>,
    query: Seq<Real>,
    entry: usize,
    layer: int,
    cap: nat,
    a: Seq<(usize, Real)>,
    opened_a: Seq<int>,
    lens_a: Seq<int>,
    b: Seq<(usize, Real)>,
    opened_b: Seq<int>,
    lens_b: Seq<int>,
    t: int,
)
    requires
        steady_distance(k),
        walks(k, nodes, query, entry, layer, a),
        walks(k, nodes, query, entry, layer, b),
        opens_so_far(nodes, layer, cap, a, opened_a, lens_a),
        opens_so_far(nodes, layer, cap, b, opened_b, lens_b),
        0 <= t <= opened_a.len(),
        t <= opened_b.len(),
    ensures
        1 <= lens_a[t] <= a.len(),
        lens_a[t] == lens_b[t],
        lens_b[t] <= b.len(),
        opened_a.take(t) == opened_b.take(t),
        a.take(lens_a[t]) == b.take(lens_b[t]),
    decreases t,
{
    if t == 0 {
        assert(a[0].1 == b[0].1);
        assert(a.take(1) =~= b.take(1));
        assert(opened_a.take(0) =~= opened_b.take(0));
    } else {
        let s = t - 1;
        lemma_walks_agree(k, nodes, query, entry, layer, cap, a, opened_a, lens_a, b, opened_b, lens_b, s);
        assert(opens_next(nodes, layer, cap, a, opened_a, lens_a, s));
        assert(opens_next(nodes, layer, cap, b, opened_b, lens_b, s));
        let len = lens_a[s];
        let before = opened_a.take(s);
        let place_a = opened_a[s];
        let place_b = opened_b[s];
        lemma_shared_start(a, b, len);
        let shared = near_ranks(a).take(len);
        lemma_waits_same(shared, near_ranks(a), cap, before, len, place_a);
        lemma_waits_same(shared, near_ranks(a), cap, before, len, place_b);
        lemma_waits_same(shared, near_ranks(b), cap, before, len, place_a);
        lemma_waits_same(shared, near_ranks(b), cap, before, len, place_b);
        assert(waits(near_ranks(a), cap, before, len, place_b));
        assert(waits(near_ranks(b), cap, before, len, place_a));
        assert(shared[place_a] == near_ranks(b)[place_a] && shared[place_b] == near_ranks(b)[place_b]) by {
            assert(near_ranks(b).take(len)[place_a] == near_ranks(b)[place_a]);
            assert(near_ranks(b).take(len)[place_b] == near_ranks(b)[place_b]);
        }
        assert(place_a == place_b);
        assert(opened_a.take(t) =~= before.push(place_a));
        assert(opened_b.take(t) =~= before.push(place_b));
        assert(a[place_a] == a.take(len)[place_a] && b[place_a] == b.take(len)[place_a]);
        let met_a = nodes_met(a).take(lens_a[t]);
        let met_b = nodes_met(b).take(lens_b[t]);
        assert(met_a == met_b);
        assert(met_a.len() == lens_a[t] && met_b.len() == lens_b[t]);
        assert forall|i: int| 0 <= i < lens_a[t] implies a[i] == b[i] by {
            assert(met_a[i] == a[i].0 && met_b[i] == b[i].0);
            assert(gives_distance(k, query, nodes[a[i].0 as int].point.vector, a[i].1));
            assert(gives_distance(k, query, nodes[b[i].0 as int].point.vector, b[i].1));
        }
        assert(a.take(lens_a[t]) =~= b.take(lens_b[t]));
    }
}

/// Walks that start alike have met the same nodes with the same ranks.
proof fn lemma_shared_start(a: Seq<(usize, Real)>, b: Seq<(usize, Real)>, len: int)
    requires
        0 <= len <= a.len(),
        len <= b.len(),
        a.take(len) == b.take(len),
    ensures
        near_ranks(a).take(len) == near_ranks(b).take(len),
        nodes_met(a).take(len) == nodes_met(b).take(len),
{
    assert forall|i: int| 0 <= i < len implies a[i] == b[i] by {
        assert(a.take(len)[i] == b.take(len)[i]);
    }
    assert(near_ranks(a).take(len) =~= near_ranks(b).take(len));
    assert(nodes_met(a).take(len) =~= nodes_met(b).take(len));
}

/// A greedy walk that has ended does not go on in another one.
proof fn lemma_walk_ends<K: Kernels>(
    k: &K,
    nodes: Seq<HnswNodeV>,
    query: Seq<Real>,
    entry: usize,
    layer: int,
    cap: nat,
    a: Seq<(usize, Real)>,
    opened_a: Seq<int>,
    lens_a: Seq<int>,
    b: Seq<(usize, Real)>,
    opened_b: Seq<int>,
    lens_b: Seq<int>,
)
    requires
        steady_distance(k),
        walks(k, nodes, query, entry, layer, a),
        walks(k, nodes, query, entry, layer, b),
        opens_so_far(nodes, layer, cap, a, opened_a, lens_a),
        walked_out(cap, a, opened_a),
        opens_so_far(nodes, layer, cap, b, opened_b, lens_b),
    ensures
        opened_b.len() <= opened_a.len(),
{
    let t = opened_a.len() as int;
    if t < opened_b.len() {
        lemma_walks_agree(k, nodes, query, entry, layer, cap, a, opened_a, lens_a, b, opened_b, lens_b, t);
        assert(opens_next(nodes, layer, cap, b, opened_b, lens_b, t));
        let len = a.len() as int;
        let place = opened_b[t];
        lemma_shared_start(a, b, len);
        assert(near_ranks(a).take(len) =~= near_ranks(a));
        assert(opened_a.take(t) =~= opened_a);
        lemma_waits_same(near_ranks(a), near_ranks(b), cap, opened_a, len, place);
        assert(waits(near_ranks(a), cap, opened_a, len, place));
        assert(near_ranks(b).take(len)[place] == near_ranks(b)[place]);
    }
}

/// Where the distance of two vectors is always the same, a greedy search of a layer has one
/// result.
pub proof fn law_search_determined<K: Kernels>(
    k: &K,
    nodes: Seq<HnswNodeV>,
    query: Seq<Real>,
    entry: usize,
    ef: usize,
    layer: int,
    r1: Seq<(usize, Real)>,
    r2: Seq<(usize, Real)>,
)
    requires
        steady_distance(k),
        finds(k, nodes, query, entry, ef, layer, r1),
        finds(k, nodes, query, entry, ef, layer, r2),
    ensures
        r1 == r2,
{
    let cap = kept(ef);
    let (a, order_a) = choose|seen: Seq<(usize, Real)>, order: Seq<usize>| #[trigger]
        found_by(k, nodes, query, entry, ef, layer, r1, seen, order);
    let (b, order_b) = choose|seen: Seq<(usize, Real)>, order: Seq<usize>| #[trigger]
        found_by(k, nodes, query, entry, ef, layer, r2, seen, order);
    let (opened_a, lens_a) = choose|opened: Seq<int>, lens: Seq<int>| #[trigger]
        opens_so_far(nodes, layer, cap, a, opened, lens) && walked_out(cap, a, opened);
    let (opened_b, lens_b) = choose|opened: Seq<int>, lens: Seq<int>| #[trigger]
        opens_so_far(nodes, layer, cap, b, opened, lens) && walked_out(cap, b, opened);
    lemma_walk_ends(k, nodes, query, entry, layer, cap, a, opened_a, lens_a, b, opened_b, lens_b);
    lemma_walk_ends(k, nodes, query, entry, layer, cap, b, opened_b, lens_b, a, opened_a, lens_a);
    let t = opened_a.len() as int;
    lemma_walks_agree(k, nodes, query, entry, layer, cap, a, opened_a, lens_a, b, opened_b, lens_b, t);
    assert(a.take(a.len() as int) =~= a);
    assert(b.take(b.len() as int) =~= b);
    law_lead_unique(near_ranks(a), cap, order_a, order_b);
}

} // verus!
