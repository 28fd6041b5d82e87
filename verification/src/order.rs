//! Ranking: a priority queue of ranked items, and sorting by rank.

use vstd::multiset::Multiset;
use vstd::prelude::*;
use vstd::seq_lib::*;

verus! {

/// An item, known by its number, and the rank it is ordered by.
#[derive(Clone, Copy, Debug, PartialEq, Eq, Structural)]
pub struct Ranked {
    pub rank: i64,
    pub idx: usize,
}

impl Ranked {
    /// Lower ranks come first, and of equal ranks the lower number.
    pub open spec fn precedes(self, other: Ranked) -> bool {
        self.rank < other.rank || (self.rank == other.rank && self.idx < other.idx)
    }

    pub fn before(&self, other: &Ranked) -> (r: bool)
        ensures
            r == self.precedes(*other),
    {
        self.rank < other.rank || (self.rank == other.rank && self.idx < other.idx)
    }
}

/// The items in a binary heap, the first to come out at the root.
pub struct RankQueue {
    items: Vec<Ranked>,
}

spec fn parent(i: int) -> int {
    (i - 1) / 2
}

/// Item `i` does not precede its parent.
spec fn ordered_at(s: Seq<Ranked>, i: int) -> bool {
    !s[i].precedes(s[parent(i)])
}

spec fn heap(s: Seq<Ranked>) -> bool {
    forall|i: int| 1 <= i < s.len() ==> #[trigger] ordered_at(s, i)
}

proof fn lemma_swap_multiset(s: Seq<Ranked>, i: int, j: int)
    requires
        0 <= i < s.len(),
        0 <= j < s.len(),
    ensures
        s.update(i, s[j]).update(j, s[i]).to_multiset() == s.to_multiset(),
{
    broadcast use vstd::multiset::group_multiset_axioms;

    to_multiset_update(s, i, s[j]);
    to_multiset_update(s.update(i, s[j]), j, s[i]);
    to_multiset_contains(s, s[i]);
    to_multiset_contains(s, s[j]);
    assert(s.contains(s[i]) && s.contains(s[j]));
    assert(s.update(i, s[j]).update(j, s[i]).to_multiset() =~= s.to_multiset());
}

proof fn lemma_root_first(s: Seq<Ranked>, i: int)
    requires
        heap(s),
        0 <= i < s.len(),
    ensures
        !s[i].precedes(s[0]),
    decreases i,
{
    if i > 0 {
        assert(ordered_at(s, i));
        lemma_root_first(s, parent(i));
    }
}

impl RankQueue {
    pub closed spec fn wf(&self) -> bool {
        heap(self.items@)
    }

    /// The items in the queue.
    pub closed spec fn view(&self) -> Multiset<Ranked> {
        self.items@.to_multiset()
    }

    /// An empty queue.
    pub fn new() -> (r: RankQueue)
        ensures
            r.wf(),
            r@ == Multiset::<Ranked>::empty(),
    {
        let r = RankQueue { items: Vec::new() };
        proof {
            to_multiset_len(r.items@);
            assert(r@ =~= Multiset::<Ranked>::empty());
        }
        r
    }

    /// Number of items.
    pub fn len(&self) -> (r: usize)
        ensures
            r == self@.len(),
    {
        proof {
            to_multiset_len(self.items@);
        }
        self.items.len()
    }

    fn swap(&mut self, i: usize, j: usize)
        requires
            i < old(self).items@.len(),
            j < old(self).items@.len(),
        ensures
            final(self).items@ == old(self).items@.update(i as int, old(self).items@[j as int]).update(
                j as int,
                old(self).items@[i as int],
            ),
            final(self)@ == old(self)@,
    {
        proof {
            lemma_swap_multiset(self.items@, i as int, j as int);
        }
        let a: Ranked = self.items[i];
        let b: Ranked = self.items[j];
        self.items[i] = b;
        self.items[j] = a;
    }

    /// Adds an item.
    pub fn push(&mut self, item: Ranked)
        requires
            old(self).wf(),
        ensures
            final(self).wf(),
            final(self)@ == old(self)@.insert(item),
    {
        proof {
            to_multiset_build(self.items@, item);
        }
        let mut i: usize = self.items.len();
        self.items.push(item);
        let ghost all = self@;
        assert(self.items@.drop_last() =~= old(self).items@);
        assert forall|j: int| 1 <= j < self.items@.len() && j != i implies #[trigger] ordered_at(self.items@, j) by {
            assert(ordered_at(old(self).items@, j));
        }
        while i > 0
            invariant
                i < self.items@.len(),
                self@ == all,
                all == old(self)@.insert(item),
                forall|j: int| 1 <= j < self.items@.len() && j != i ==> #[trigger] ordered_at(self.items@, j),
                forall|c: int|
                    #![trigger self.items@[c]]
                    1 <= c < self.items@.len() && parent(c) == i && i > 0 ==> !self.items@[c].precedes(
                        self.items@[parent(i as int)],
                    ),
            decreases i,
        {
            let p: usize = (i - 1) / 2;
            if !self.items[i].before(&self.items[p]) {
                assert(ordered_at(self.items@, i as int));
                return ;
            }
            let ghost before = self.items@;
            self.swap(i, p);
            proof {
                let s = self.items@;
                assert forall|j: int| 1 <= j < s.len() && j != p implies #[trigger] ordered_at(s, j) by {
                    if j != i {
                        assert(ordered_at(before, j));
                    }
                    if parent(j) == i {
                        assert(!before[j].precedes(before[parent(i as int)]));
                    }
                }
                assert forall|c: int|
                    #![trigger s[c]]
                    1 <= c < s.len() && parent(c) == p && p > 0 implies !s[c].precedes(s[parent(p as int)]) by {
                    assert(ordered_at(before, p as int));
                    if c != i {
                        assert(ordered_at(before, c));
                    }
                }
            }
            i = p;
        }
    }

    /// Takes out the item that precedes all others.
    pub fn pop(&mut self) -> (r: Option<Ranked>)
        requires
            old(self).wf(),
        ensures
            final(self).wf(),
            match r {
                None => old(self)@.len() == 0 && final(self)@ == old(self)@,
                Some(x) => {
                    &&& old(self)@.contains(x)
                    &&& final(self)@ == old(self)@.remove(x)
                    &&& forall|y: Ranked| #[trigger] old(self)@.contains(y) ==> !y.precedes(x)
                },
            },
    {
        broadcast use vstd::multiset::group_multiset_axioms;

        let ghost start = self.items@;
        proof {
            to_multiset_len(start);
        }
        let n: usize = self.items.len();
        if n == 0 {
            return None;
        }
        let top: Ranked = self.items[0];
        proof {
            assert(start.contains(top));
            to_multiset_contains(start, top);
            assert forall|y: Ranked| #[trigger] start.to_multiset().contains(y) implies !y.precedes(top) by {
                to_multiset_contains(start, y);
                let k = choose|k: int| 0 <= k < start.len() && start[k] == y;
                lemma_root_first(start, k);
            }
        }
        let last: Ranked = self.items[n - 1];
        self.items.pop();
        if n == 1 {
            proof {
                assert(self.items@ =~= start.remove(0));
                to_multiset_remove(start, 0);
            }
            return Some(top);
        }
        self.items[0] = last;
        proof {
            let s = self.items@;
            assert(s =~= start.update(0, last).remove(n - 1));
            to_multiset_update(start, 0, last);
            to_multiset_remove(start.update(0, last), n - 1);
            assert(start.contains(last));
            to_multiset_contains(start, last);
            assert(s.to_multiset() =~= start.to_multiset().remove(top));
            assert forall|j: int| 1 <= j < s.len() && parent(j) != 0 implies #[trigger] ordered_at(s, j) by {
                assert(ordered_at(start, j));
            }
        }
        self.sift_down();
        Some(top)
    }

    fn sift_down(&mut self)
        requires
            old(self).items@.len() > 0,
            forall|j: int|
                1 <= j < old(self).items@.len() && parent(j) != 0 ==> #[trigger] ordered_at(old(self).items@, j),
        ensures
            final(self).wf(),
            final(self)@ == old(self)@,
    {
        let n: usize = self.items.len();
        let mut i: usize = 0;
        while i < n / 2
            invariant
                i < n,
                n == self.items@.len(),
                self@ == old(self)@,
                forall|j: int| 1 <= j < n && parent(j) != i ==> #[trigger] ordered_at(self.items@, j),
                forall|c: int|
                    #![trigger self.items@[c]]
                    1 <= c < n && parent(c) == i && i > 0 ==> !self.items@[c].precedes(
                        self.items@[parent(i as int)],
                    ),
            decreases n - i,
        {
            let left: usize = 2 * i + 1;
            let right: usize = left + 1;
            let child: usize = if right < n && self.items[right].before(&self.items[left]) {
                right
            } else {
                left
            };
            if !self.items[child].before(&self.items[i]) {
                proof {
                    let s = self.items@;
                    assert forall|j: int| 1 <= j < n implies #[trigger] ordered_at(s, j) by {
                        if parent(j) == i {
                            assert(j == left || j == right);
                        }
                    }
                }
                return ;
            }
            let ghost before = self.items@;
            self.swap(i, child);
            proof {
                let s = self.items@;
                assert forall|j: int| 1 <= j < n && parent(j) != child implies #[trigger] ordered_at(s, j) by {
                    if parent(j) == i {
                        assert(j == left || j == right);
                    } else if j == i {
                        assert(ordered_at(before, j));
                        assert(!before[child as int].precedes(before[parent(i as int)]));
                    } else {
                        assert(ordered_at(before, j));
                    }
                }
                assert forall|c: int|
                    #![trigger s[c]]
                    1 <= c < n && parent(c) == child && child > 0 implies !s[c].precedes(
                    s[parent(child as int)],
                ) by {
                    assert(ordered_at(before, c));
                }
            }
            i = child;
        }
        assert forall|j: int| 1 <= j < n implies #[trigger] ordered_at(self.items@, j) by {}
    }
}

/// The items `0..ranks.len()` with their ranks.
pub open spec fn ranked(ranks: Seq<i64>, i: int) -> Ranked {
    Ranked { rank: ranks[i], idx: i as usize }
}

/// `order` lists the items `0..ranks.len()`, each once, by rank and, where ranks are equal, by
/// number.
pub open spec fn orders(ranks: Seq<i64>, order: Seq<usize>) -> bool {
    &&& order.len() == ranks.len()
    &&& forall|j: int| 0 <= j < order.len() ==> 0 <= #[trigger] order[j] < ranks.len()
    &&& forall|i: int, j: int|
        0 <= i < j < order.len() ==> ranked(ranks, #[trigger] order[i] as int).precedes(
            ranked(ranks, #[trigger] order[j] as int),
        )
    &&& forall|v: usize| v < ranks.len() ==> #[trigger] order.contains(v)
}

spec fn all_ranked(ranks: Seq<i64>) -> Seq<Ranked> {
    Seq::new(ranks.len(), |i: int| ranked(ranks, i))
}

/// Sorts by rank, keeping the given order among equal ranks.
pub fn sort_order(ranks: &Vec<i64>) -> (order: Vec<usize>)
    ensures
        orders(ranks@, order@),
{
    broadcast use vstd::multiset::group_multiset_axioms;

    let n: usize = ranks.len();
    let mut queue = RankQueue::new();
    let ghost all = all_ranked(ranks@);
    let mut i: usize = 0;
    proof {
        to_multiset_len(all.take(0));
        assert(queue@ =~= all.take(0).to_multiset());
    }
    while i < n
        invariant
            i <= n,
            n == ranks@.len(),
            all == all_ranked(ranks@),
            queue.wf(),
            queue@ == all.take(i as int).to_multiset(),
        decreases n - i,
    {
        queue.push(Ranked { rank: ranks[i], idx: i });
        proof {
            assert(all.take(i + 1) =~= all.take(i as int).push(ranked(ranks@, i as int)));
            to_multiset_build(all.take(i as int), ranked(ranks@, i as int));
        }
        i += 1;
    }
    proof {
        assert(all.take(n as int) =~= all);
        assert(all.no_duplicates());
        all.lemma_multiset_has_no_duplicates();
        to_multiset_len(all);
        to_multiset_len(Seq::<Ranked>::empty());
    }
    let mut order: Vec<usize> = Vec::new();
    let ghost mut out: Seq<Ranked> = Seq::empty();
    assert(out.to_multiset().add(queue@) =~= all.to_multiset());
    while queue.len() > 0
        invariant
            n == ranks@.len(),
            all == all_ranked(ranks@),
            all.no_duplicates(),
            forall|x: Ranked| all.to_multiset().contains(x) ==> #[trigger] all.to_multiset().count(x) == 1,
            queue.wf(),
            out.to_multiset().add(queue@) == all.to_multiset(),
            out.len() == order@.len(),
            forall|j: int|
                0 <= j < out.len() ==> #[trigger] out[j] == ranked(ranks@, order@[j] as int) && order@[j] < n,
            forall|j: int, k: int| 0 <= j < k < out.len() ==> (#[trigger] out[j]).precedes(#[trigger] out[k]),
            forall|j: int, y: Ranked|
                0 <= j < out.len() && #[trigger] queue@.contains(y) ==> (#[trigger] out[j]).precedes(y),
        decreases queue@.len(),
    {
        let ghost rest = queue@;
        let next = queue.pop();
        if let Some(x) = next {
            proof {
                assert(all.to_multiset().count(x) > 0);
                to_multiset_contains(all, x);
                let k = choose|k: int| 0 <= k < all.len() && all[k] == x;
                assert(x == ranked(ranks@, k));
                to_multiset_build(out, x);
                assert(out.push(x).to_multiset().add(queue@) =~= all.to_multiset());
                assert forall|y: Ranked| #[trigger] queue@.contains(y) implies x.precedes(y) && rest.contains(y) by {
                    assert(rest.contains(y));
                    assert(all.to_multiset().contains(x));
                    assert(all.to_multiset().count(x) == 1);
                    assert(!y.precedes(x));
                    assert(y != x);
                    to_multiset_contains(all, y);
                    let m = choose|m: int| 0 <= m < all.len() && all[m] == y;
                    assert(y == ranked(ranks@, m));
                }
                out = out.push(x);
            }
            order.push(x.idx);
        }
    }
    proof {
        assert(queue@ =~= Multiset::<Ranked>::empty());
        assert(out.to_multiset() =~= all.to_multiset());
        to_multiset_len(out);
        to_multiset_len(all);
        assert forall|j: int| 0 <= j < order@.len() implies 0 <= #[trigger] order@[j] < ranks@.len() by {
            assert(out[j] == ranked(ranks@, order@[j] as int));
        }
        assert forall|v: usize| v < ranks@.len() implies #[trigger] order@.contains(v) by {
            let x = ranked(ranks@, v as int);
            assert(all[v as int] == x);
            to_multiset_contains(all, x);
            to_multiset_contains(out, x);
            let j = choose|j: int| 0 <= j < out.len() && out[j] == x;
            assert(order@[j] == v);
        }
        assert forall|i: int, j: int| 0 <= i < j < order@.len() implies ranked(
            ranks@,
            #[trigger] order@[i] as int,
        ).precedes(ranked(ranks@, #[trigger] order@[j] as int)) by {
            assert(out[i].precedes(out[j]));
        }
    }
    order
}

/// Only one order is right: sorting by rank leaves nothing open.
pub proof fn law_order_unique(ranks: Seq<i64>, a: Seq<usize>, b: Seq<usize>)
    requires
        orders(ranks, a),
        orders(ranks, b),
        ranks.len() <= usize::MAX,
    ensures
        a == b,
{
    assert forall|j: int| 0 <= j < a.len() implies a[j] == b[j] by {
        lemma_order_unique_at(ranks, a, b, j);
    }
    assert(a =~= b);
}

proof fn lemma_order_unique_at(ranks: Seq<i64>, a: Seq<usize>, b: Seq<usize>, j: int)
    requires
        orders(ranks, a),
        orders(ranks, b),
        ranks.len() <= usize::MAX,
        0 <= j < a.len(),
    ensures
        a[j] == b[j],
    decreases j,
{
    assert forall|i: int| 0 <= i < j implies a[i] == b[i] by {
        lemma_order_unique_at(ranks, a, b, i);
    }
    assert(b.contains(a[j]));
    assert(a.contains(b[j]));
    let k = choose|k: int| 0 <= k < b.len() && b[k] == a[j];
    let m = choose|m: int| 0 <= m < a.len() && a[m] == b[j];
    if k < j {
        assert(ranked(ranks, a[k] as int).precedes(ranked(ranks, a[j] as int)));
    }
    if m < j {
        assert(ranked(ranks, b[m] as int).precedes(ranked(ranks, b[j] as int)));
    }
    if k > j {
        assert(ranked(ranks, b[j] as int).precedes(ranked(ranks, b[k] as int)));
        if m > j {
            assert(ranked(ranks, a[j] as int).precedes(ranked(ranks, a[m] as int)));
        }
    }
}

/// `order` lists the first `count` of the items `0..ranks.len()`, or all of them if there are
/// fewer, by rank and, where ranks are equal, by number.
pub open spec fn leads(ranks: Seq<i64>, count: nat, order: Seq<usize>) -> bool {
    &&& order.len() == if count <= ranks.len() {
        count
    } else {
        ranks.len()
    }
    &&& forall|j: int| 0 <= j < order.len() ==> 0 <= #[trigger] order[j] < ranks.len()
    &&& forall|i: int, j: int|
        0 <= i < j < order.len() ==> ranked(ranks, #[trigger] order[i] as int).precedes(
            ranked(ranks, #[trigger] order[j] as int),
        )
    &&& forall|j: int, v: usize|
        #![trigger order[j], order.contains(v)]
        0 <= j < order.len() && v < ranks.len() && !order.contains(v) ==> ranked(ranks, order[j] as int).precedes(
            ranked(ranks, v as int),
        )
}

/// The beginning of the whole order leads it.
pub proof fn lemma_take_leads(ranks: Seq<i64>, order: Seq<usize>, count: nat)
    requires
        orders(ranks, order),
    ensures
        leads(ranks, count, order.take(if count <= order.len() { count as int } else { order.len() as int })),
{
    let n = if count <= order.len() {
        count as int
    } else {
        order.len() as int
    };
    let lead = order.take(n);
    assert forall|j: int, v: usize|
        #![trigger lead[j], lead.contains(v)]
        0 <= j < lead.len() && v < ranks.len() && !lead.contains(v) implies ranked(ranks, lead[j] as int).precedes(
        ranked(ranks, v as int),
    ) by {
        assert(order.contains(v));
        let m = choose|m: int| 0 <= m < order.len() && order[m] == v;
        if m < n {
            assert(lead[m] == v);
            assert(lead.contains(v));
        }
        assert(ranked(ranks, order[j] as int).precedes(ranked(ranks, order[m] as int)));
    }
}

/// Only one list leads: taking the first items by rank leaves nothing open.
pub proof fn law_lead_unique(ranks: Seq<i64>, count: nat, a: Seq<usize>, b: Seq<usize>)
    requires
        leads(ranks, count, a),
        leads(ranks, count, b),
    ensures
        a == b,
{
    assert forall|j: int| 0 <= j < a.len() implies a[j] == b[j] by {
        lemma_lead_unique_at(ranks, count, a, b, j);
    }
    assert(a =~= b);
}

proof fn lemma_lead_unique_at(ranks: Seq<i64>, count: nat, a: Seq<usize>, b: Seq<usize>, j: int)
    requires
        leads(ranks, count, a),
        leads(ranks, count, b),
        0 <= j < a.len(),
    ensures
        a[j] == b[j],
    decreases j,
{
    assert forall|i: int| 0 <= i < j implies a[i] == b[i] by {
        lemma_lead_unique_at(ranks, count, a, b, i);
    }
    let x = ranked(ranks, a[j] as int);
    let y = ranked(ranks, b[j] as int);
    if b.contains(a[j]) {
        let k = choose|k: int| 0 <= k < b.len() && b[k] == a[j];
        if k < j {
            assert(ranked(ranks, a[k] as int).precedes(x));
        } else if k > j {
            assert(y.precedes(ranked(ranks, b[k] as int)));
        }
    } else {
        assert(ranked(ranks, b[j] as int).precedes(x));
    }
    if a.contains(b[j]) {
        let m = choose|m: int| 0 <= m < a.len() && a[m] == b[j];
        if m < j {
            assert(ranked(ranks, b[m] as int).precedes(y));
        } else if m > j {
            assert(x.precedes(ranked(ranks, a[m] as int)));
        }
    } else {
        assert(ranked(ranks, a[j] as int).precedes(y));
    }
}

/// Takes account of one more item, the last one in `ranks`: it moves into the lead, or it does
/// not. The result says which.
pub fn rank_in_last(ranks: &Vec<i64>, count: usize, order: &mut Vec<usize>) -> (r: bool)
    requires
        count >= 1,
        ranks@.len() >= 1,
        leads(ranks@.drop_last(), count as nat, old(order)@),
    ensures
        leads(ranks@, count as nat, final(order)@),
        r == (old(order)@.len() < count || ranks@.last() < ranks@[old(order)@.last() as int]),
        r ==> forall|v: usize|
            final(order)@.contains(v) ==> v == ranks@.len() - 1 || #[trigger] old(order)@.contains(v),
        !r ==> final(order)@ == old(order)@,
{
    let pos: usize = ranks.len() - 1;
    let rank: i64 = ranks[pos];
    let size: usize = order.len();
    let ghost before = order@;
    let ghost earlier = ranks@.drop_last();
    assert forall|j: int| 0 <= j < before.len() implies ranked(earlier, #[trigger] before[j] as int) == ranked(
        ranks@,
        before[j] as int,
    ) by {}
    if size >= count && rank >= ranks[order[size - 1]] {
        proof {
            assert forall|j: int, v: usize|
                #![trigger before[j], before.contains(v)]
                0 <= j < before.len() && v < ranks@.len() && !before.contains(v) implies ranked(
                ranks@,
                before[j] as int,
            ).precedes(ranked(ranks@, v as int)) by {
                if v < pos {
                    assert(ranked(earlier, before[j] as int).precedes(ranked(earlier, v as int)));
                } else if j < size - 1 {
                    assert(ranked(earlier, before[j] as int).precedes(ranked(earlier, before[size - 1] as int)));
                }
            }
            assert forall|i: int, j: int| 0 <= i < j < before.len() implies ranked(
                ranks@,
                #[trigger] before[i] as int,
            ).precedes(ranked(ranks@, #[trigger] before[j] as int)) by {
                assert(ranked(earlier, before[i] as int).precedes(ranked(earlier, before[j] as int)));
            }
        }
        return false;
    }
    let mut low: usize = 0;
    let mut high: usize = size;
    while low < high
        invariant
            low <= high <= size,
            size == order@.len(),
            order@ == before,
            pos == ranks@.len() - 1,
            rank == ranks@[pos as int],
            earlier == ranks@.drop_last(),
            leads(earlier, count as nat, before),
            forall|j: int| 0 <= j < low ==> ranks@[#[trigger] before[j] as int] <= rank,
            forall|j: int| high <= j < size ==> rank < ranks@[#[trigger] before[j] as int],
        decreases high - low,
    {
        let mid: usize = low + (high - low) / 2;
        if rank < ranks[order[mid]] {
            proof {
                assert forall|j: int| mid <= j < size implies rank < ranks@[#[trigger] before[j] as int] by {
                    if mid < j {
                        assert(ranked(earlier, before[mid as int] as int).precedes(
                            ranked(earlier, before[j] as int),
                        ));
                    }
                }
            }
            high = mid;
        } else {
            proof {
                assert forall|j: int| 0 <= j < mid + 1 implies ranks@[#[trigger] before[j] as int] <= rank by {
                    if j < mid {
                        assert(ranked(earlier, before[j] as int).precedes(
                            ranked(earlier, before[mid as int] as int),
                        ));
                    }
                }
            }
            low = mid + 1;
        }
    }
    order.insert(low, pos);
    let ghost longer = order@;
    proof {
        assert forall|i: int, j: int| 0 <= i < j < longer.len() implies ranked(
            ranks@,
            #[trigger] longer[i] as int,
        ).precedes(ranked(ranks@, #[trigger] longer[j] as int)) by {
            let bi = if i < low {
                i
            } else {
                i - 1
            };
            let bj = if j < low {
                j
            } else {
                j - 1
            };
            if i == low {
                assert(longer[j] == before[bj]);
            } else if j == low {
                assert(longer[i] == before[bi]);
            } else {
                assert(longer[i] == before[bi] && longer[j] == before[bj]);
                assert(ranked(earlier, before[bi] as int).precedes(ranked(earlier, before[bj] as int)));
            }
        }
        assert forall|v: usize| longer.contains(v) implies v == pos || #[trigger] before.contains(v) by {
            let m = choose|m: int| 0 <= m < longer.len() && longer[m] == v;
            if m < low {
                assert(before[m] == v);
            } else if m > low {
                assert(before[m - 1] == v);
            }
        }
        assert(longer[low as int] == pos);
        assert forall|v: usize| #[trigger] before.contains(v) implies longer.contains(v) by {
            let m = choose|m: int| 0 <= m < before.len() && before[m] == v;
            if m < low {
                assert(longer[m] == v);
            } else {
                assert(longer[m + 1] == v);
            }
        }
    }
    if order.len() > count {
        order.pop();
    }
    proof {
        let now = order@;
        assert(now == longer || now == longer.drop_last());
        assert forall|j: int, v: usize|
            #![trigger now[j], now.contains(v)]
            0 <= j < now.len() && v < ranks@.len() && !now.contains(v) implies ranked(
            ranks@,
            now[j] as int,
        ).precedes(ranked(ranks@, v as int)) by {
            assert(now[j] == longer[j]);
            if longer.contains(v) {
                let m = choose|m: int| 0 <= m < longer.len() && longer[m] == v;
                if m < now.len() {
                    assert(now[m] == v);
                }
                assert(ranked(ranks@, longer[j] as int).precedes(ranked(ranks@, longer[m] as int)));
            } else {
                assert(!before.contains(v));
                assert(v != pos);
                let last = longer[longer.len() - 1];
                if j == low {
                    // The new item is in the lead, so some old item comes after it or there is room.
                    if size < count {
                        assert(before.len() == earlier.len());
                        lemma_full(earlier, before, v);
                    } else {
                        assert(ranked(earlier, before[size - 1] as int).precedes(ranked(earlier, v as int)));
                        assert(rank < ranks@[before[size - 1] as int]);
                    }
                } else {
                    let b = if j < low {
                        j
                    } else {
                        j - 1
                    };
                    assert(longer[j] == before[b]);
                    assert(ranked(earlier, before[b] as int).precedes(ranked(earlier, v as int)));
                }
            }
        }
        assert forall|v: usize| now.contains(v) implies v == ranks@.len() - 1 || #[trigger] before.contains(v) by {
            let m = choose|m: int| 0 <= m < now.len() && now[m] == v;
            assert(longer[m] == v);
            assert(longer.contains(v));
        }
    }
    true
}

/// A lead as long as the whole list leaves no item out.
pub proof fn lemma_full(ranks: Seq<i64>, order: Seq<usize>, v: usize)
    requires
        forall|j: int| 0 <= j < order.len() ==> 0 <= #[trigger] order[j] < ranks.len(),
        forall|i: int, j: int|
            0 <= i < j < order.len() ==> ranked(ranks, #[trigger] order[i] as int).precedes(
                ranked(ranks, #[trigger] order[j] as int),
            ),
        order.len() == ranks.len(),
        v < ranks.len(),
    ensures
        order.contains(v),
{
    assert(order.no_duplicates());
    let numbers = order.to_set();
    order.unique_seq_to_set();
    let all = vstd::set_lib::set_int_range(0, ranks.len() as int);
    vstd::set_lib::lemma_int_range(0, ranks.len() as int);
    let wide = numbers.map(|x: usize| x as int);
    vstd::set_lib::lemma_map_size(numbers, wide, |x: usize| x as int);
    assert(wide.subset_of(all)) by {
        assert forall|x: int| wide.contains(x) implies all.contains(x) by {
            let y = choose|y: usize| numbers.contains(y) && x == y as int;
            assert(order.contains(y));
            let m = choose|m: int| 0 <= m < order.len() && order[m] == y;
        }
    }
    vstd::set_lib::lemma_subset_equality(wide, all);
    assert(all.contains(v as int));
    let y = choose|y: usize| numbers.contains(y) && v as int == y as int;
    assert(numbers.contains(v));
}

} // verus!
