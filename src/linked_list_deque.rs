use vstd::prelude::*;

use crate::render::{append_item, chars_of, displays_as, finish, joined, renders_as, start};

verus! {

/// One slot of the pool: an item (none for the sentinel) and the pool
/// positions of its neighbours in the ring.
struct Node<T> {
    item: Option<T>,
    prev: usize,
    next: usize,
}

/// The pool position that logical position `j` occupies, where the positions
/// just before the front and just after the back are the sentinel's, 0.
#[verifier::opaque]
pub open spec fn link(order: Seq<nat>, j: int) -> nat {
    if 0 <= j < order.len() {
        order[j]
    } else {
        0
    }
}

/// `link` at `j` and at its two neighbours.
proof fn lemma_link(order: Seq<nat>, j: int)
    ensures
        link(order, j - 1) == if 0 <= j - 1 < order.len() { order[j - 1] } else { 0 },
        link(order, j) == if 0 <= j < order.len() { order[j] } else { 0 },
        link(order, j + 1) == if 0 <= j + 1 < order.len() { order[j + 1] } else { 0 },
{
    reveal(link);
}

/// The links of `nodes` run from the sentinel through the positions in
/// `order`, in that order, and back to the sentinel; every listed node holds
/// an item.
spec fn links_follow<T>(nodes: Seq<Node<T>>, order: Seq<nat>) -> bool {
    &&& nodes[0].next == link(order, 0)
    &&& nodes[0].prev == link(order, order.len() - 1)
    &&& forall|j: int|
        0 <= j < order.len() ==> {
            &&& nodes[#[trigger] order[j] as int].item is Some
            &&& nodes[order[j] as int].prev == link(order, j - 1)
            &&& nodes[order[j] as int].next == link(order, j + 1)
        }
}

/// `order` lists the positions `1..n` once each, and `rank` is its inverse.
spec fn ranks(order: Seq<nat>, rank: Seq<nat>, n: int) -> bool {
    &&& rank.len() == n
    &&& forall|j: int| 0 <= j < order.len() ==> 1 <= #[trigger] order[j] < n && rank[order[j] as int] == j
    &&& forall|p: int| 1 <= p < n ==> #[trigger] rank[p] < order.len() && order[rank[p] as int] == p
}

/// No position occurs twice in `order`.
spec fn distinct(order: Seq<nat>) -> bool {
    forall|i: int, j: int|
        0 <= i < order.len() && 0 <= j < order.len() && i != j ==> #[trigger] order[i] != #[trigger] order[j]
}

/// `order` with position `from` renamed `to`.
spec fn renamed(order: Seq<nat>, from: nat, to: nat) -> Seq<nat> {
    order.map_values(|x: nat| if x == from { to } else { x })
}

/// The ranks once the item of rank `r0` has left, and the node at `last` has
/// moved to position `t`.
spec fn reranked(rank: Seq<nat>, r0: int, t: int, last: int) -> Seq<nat> {
    Seq::new(
        last as nat,
        |p: int|
            if p == 0 {
                0nat
            } else {
                let q = if p == t {
                    last
                } else {
                    p
                };
                if rank[q] > r0 {
                    (rank[q] - 1) as nat
                } else {
                    rank[q]
                }
            },
    )
}

/// `nodes` once the neighbours of the node at `t` point at each other.
spec fn unlinked<T>(nodes: Seq<Node<T>>, t: int) -> Seq<Node<T>> {
    let a = nodes[t].prev as int;
    let b = nodes[t].next as int;
    let n0 = nodes.update(a, Node { next: b as usize, ..nodes[a] });
    n0.update(b, Node { prev: a as usize, ..n0[b] })
}

/// `nodes` once the node at the end has moved into position `t`, the pool
/// has lost its last position, and the moved node's neighbours point at `t`.
spec fn relocated<T>(nodes: Seq<Node<T>>, t: int) -> Seq<Node<T>> {
    let last = nodes.len() - 1;
    if t == last {
        nodes.drop_last()
    } else {
        let moved = nodes[last];
        let pp = moved.prev as int;
        let nn = moved.next as int;
        let n2 = nodes.update(t, moved).drop_last();
        let n3 = n2.update(pp, Node { next: t as usize, ..n2[pp] });
        n3.update(nn, Node { prev: t as usize, ..n3[nn] })
    }
}

/// Unlinking the node of rank `r0` (pointing its two neighbours at each
/// other) leaves a ring through the other positions.
proof fn lemma_unlink<T>(nodes: Seq<Node<T>>, nodes1: Seq<Node<T>>, order: Seq<nat>, rank: Seq<nat>, r0: int)
    requires
        nodes.len() == order.len() + 1,
        links_follow(nodes, order),
        ranks(order, rank, nodes.len() as int),
        0 <= r0 < order.len(),
        nodes1 == unlinked(nodes, order[r0] as int),
    ensures
        links_follow(nodes1, order.remove(r0)),
        forall|x: int| 0 <= x < nodes.len() ==> #[trigger] nodes1[x].item == nodes[x].item,
        distinct(order.remove(r0)),
        forall|i: int|
            0 <= i < order.len() - 1 ==> 1 <= #[trigger] order.remove(r0)[i] < nodes.len() && order.remove(
                r0,
            )[i] != order[r0],
{
    let order1 = order.remove(r0);
    let m = order.len() as int;
    let t = order[r0] as int;
    let a = nodes[t].prev as int;
    let b = nodes[t].next as int;
    lemma_link(order, r0);
    lemma_link(order1, 0);
    lemma_link(order1, m - 2);
    lemma_link(order, 0);
    lemma_link(order, m - 1);
    assert(rank[t] == r0);
    if r0 > 0 {
        assert(rank[order[r0 - 1] as int] == r0 - 1);
    }
    if r0 + 1 < m {
        assert(rank[order[r0 + 1] as int] == r0 + 1);
    }
    assert forall|i: int| 0 <= i < m - 1 implies {
        &&& nodes1[#[trigger] order1[i] as int].item is Some
        &&& nodes1[order1[i] as int].prev == link(order1, i - 1)
        &&& nodes1[order1[i] as int].next == link(order1, i + 1)
        &&& 1 <= order1[i] < nodes.len()
        &&& order1[i] != t
        &&& rank[order1[i] as int] == if i < r0 { i } else { i + 1 }
    } by {
        let k = if i < r0 {
            i
        } else {
            i + 1
        };
        assert(order1[i] == order[k]);
        assert(rank[order[k] as int] == k);
        lemma_link(order1, i);
        lemma_link(order, k);
        if k - 1 >= 0 {
            assert(rank[order[k - 1] as int] == k - 1);
        }
        if k + 1 < m {
            assert(rank[order[k + 1] as int] == k + 1);
        }
    }
    assert forall|i: int, j: int|
        0 <= i < order1.len() && 0 <= j < order1.len() && i != j implies #[trigger] order1[i]
        != #[trigger] order1[j] by {
        assert(rank[order1[i] as int] == if i < r0 { i } else { i + 1 });
        assert(rank[order1[j] as int] == if j < r0 { j } else { j + 1 });
    }
}

/// The neighbours of the node at the end of the pool lie before it, and
/// neither is the free position `t`.
proof fn lemma_last_neighbours<T>(nodes1: Seq<Node<T>>, order1: Seq<nat>, t: int, jl: int)
    requires
        links_follow(nodes1, order1),
        distinct(order1),
        1 <= t < nodes1.len() - 1,
        forall|i: int| 0 <= i < order1.len() ==> 1 <= #[trigger] order1[i] < nodes1.len() && order1[i] != t,
        0 <= jl < order1.len(),
        order1[jl] == nodes1.len() - 1,
    ensures
        nodes1[nodes1.len() - 1].prev < nodes1.len() - 1,
        nodes1[nodes1.len() - 1].next < nodes1.len() - 1,
        nodes1[nodes1.len() - 1].prev != t,
        nodes1[nodes1.len() - 1].next != t,
        nodes1[nodes1.len() - 1].prev == nodes1[nodes1.len() - 1].next ==> nodes1[nodes1.len() - 1].prev == 0,
{
    let m = order1.len() as int;
    lemma_link(order1, jl);
    if jl > 0 {
        assert(order1[jl - 1] != order1[jl]);
    }
    if jl + 1 < m {
        assert(order1[jl + 1] != order1[jl]);
    }
    if jl > 0 && jl + 1 < m {
        assert(order1[jl - 1] != order1[jl + 1]);
    }
}

/// After the removal of the item of rank `r0`, and the move of the node at
/// the end of the pool into its position, the renamed order and the new ranks
/// are again inverse to each other.
proof fn lemma_rerank<T>(order: Seq<nat>, rank: Seq<nat>, r0: int, n: int)
    requires
        ranks(order, rank, n),
        n == order.len() + 1,
        0 <= r0 < order.len(),
    ensures
        ranks(
            renamed(order.remove(r0), (n - 1) as nat, order[r0]),
            reranked(rank, r0, order[r0] as int, n - 1),
            n - 1,
        ),
{
    let t = order[r0] as int;
    let last = n - 1;
    let order1 = order.remove(r0);
    let order2 = renamed(order1, last as nat, t as nat);
    let rank2 = reranked(rank, r0, t, last);
    assert(rank[t] == r0);
    assert forall|j: int| 0 <= j < order2.len() implies 1 <= #[trigger] order2[j] < last && rank2[order2[j] as int] == j by {
        let k = if j < r0 {
            j
        } else {
            j + 1
        };
        assert(order1[j] == order[k]);
        assert(rank[order[k] as int] == k);
    }
    assert forall|p: int| 1 <= p < last implies #[trigger] rank2[p] < order2.len() && order2[rank2[p] as int] == p by {
        let q = if p == t {
            last
        } else {
            p
        };
        assert(rank[q] < order.len() && order[rank[q] as int] == q);
        assert(rank[q] != r0);
        let k = rank[q] as int;
        let j = if k > r0 {
            k - 1
        } else {
            k
        };
        assert(order1[j] == order[k]);
    }
}

/// Moving the node at the end of the pool into the free position `t`, and
/// pointing its neighbours at `t`, keeps the ring, with `last` renamed `t`.
proof fn lemma_relocate<T>(nodes1: Seq<Node<T>>, nodes3: Seq<Node<T>>, order1: Seq<nat>, t: int, jl: int)
    requires
        links_follow(nodes1, order1),
        distinct(order1),
        1 <= t < nodes1.len(),
        forall|i: int| 0 <= i < order1.len() ==> 1 <= #[trigger] order1[i] < nodes1.len() && order1[i] != t,
        t != nodes1.len() - 1 ==> 0 <= jl < order1.len() && order1[jl] == nodes1.len() - 1,
        nodes3 == relocated(nodes1, t),
    ensures
        links_follow(nodes3, renamed(order1, (nodes1.len() - 1) as nat, t as nat)),
        forall|j: int|
            0 <= j < order1.len() ==> #[trigger] nodes3[renamed(
                order1,
                (nodes1.len() - 1) as nat,
                t as nat,
            )[j] as int].item == nodes1[order1[j] as int].item,
{
    let last = nodes1.len() - 1;
    let order3 = renamed(order1, last as nat, t as nat);
    let m = order1.len() as int;
    lemma_link(order1, 0);
    lemma_link(order1, m - 1);
    lemma_link(order3, 0);
    lemma_link(order3, m - 1);
    assert forall|j: int| -1 <= j <= m implies link(order3, j) == if link(order1, j) == last {
        t
    } else {
        link(order1, j) as int
    } by {
        lemma_link(order3, j);
        lemma_link(order1, j);
        if 0 <= j < m {
            assert(order3[j] == if order1[j] == last { t as nat } else { order1[j] });
        }
    }
    if t != last {
        lemma_last_neighbours(nodes1, order1, t, jl);
        lemma_link(order1, jl);
        assert(nodes1[last].prev == link(order1, jl - 1));
        assert(nodes1[last].next == link(order1, jl + 1));
        assert(nodes3[0].next == link(order3, 0)) by {
            if jl != 0 {
                assert(order1[0] != order1[jl]);
            }
        }
        assert(nodes3[0].prev == link(order3, m - 1)) by {
            if jl != m - 1 {
                assert(order1[m - 1] != order1[jl]);
            }
        }
        assert forall|j: int| 0 <= j < m implies {
            &&& nodes3[#[trigger] order3[j] as int].item is Some
            &&& nodes3[order3[j] as int].prev == link(order3, j - 1)
            &&& nodes3[order3[j] as int].next == link(order3, j + 1)
            &&& nodes3[order3[j] as int].item == nodes1[order1[j] as int].item
        } by {
            assert(order3[j] == if order1[j] == last { t as nat } else { order1[j] });
            lemma_link(order1, j);
            lemma_link(order3, j);
            if order1[j] == last {
                assert(j == jl);
            } else {
                if j + 1 == jl {
                    assert(nodes1[order1[j] as int].next == last);
                } else if jl > 0 {
                    assert(order1[j] != order1[jl - 1]);
                }
                if j == jl + 1 {
                    assert(nodes1[order1[j] as int].prev == last);
                } else if jl + 1 < m {
                    assert(order1[j] != order1[jl + 1]);
                }
            }
            if j > 0 {
                assert(order1[j - 1] != order1[j]);
            }
            if j + 1 < m {
                assert(order1[j + 1] != order1[j]);
            }
        }
    } else {
        assert forall|j: int| 0 <= j < m implies {
            &&& nodes3[#[trigger] order3[j] as int].item is Some
            &&& nodes3[order3[j] as int].prev == link(order3, j - 1)
            &&& nodes3[order3[j] as int].next == link(order3, j + 1)
            &&& nodes3[order3[j] as int].item == nodes1[order1[j] as int].item
        } by {
            assert(order3[j] == order1[j]);
        }
    }
}

/// A double-ended queue kept as a circular doubly linked list inside one
/// dense pool of nodes addressed by position.
///
/// Position 0 holds the sentinel, whose `next` and `prev` are the front and
/// the back. Every other position holds one item, so the pool is always one
/// longer than the deque. A removal moves the node at the end of the pool into
/// the freed position, so positions are not stable across removals.
pub struct LinkedListDeque<T> {
    nodes: Vec<Node<T>>,
    /// The pool positions of the items, front to back.
    order: Ghost<Seq<nat>>,
    /// For each pool position but the sentinel's, its place in `order`.
    rank: Ghost<Seq<nat>>,
}

impl<T> View for LinkedListDeque<T> {
    type V = Seq<T>;

    /// The items from front to back.
    closed spec fn view(&self) -> Seq<T> {
        Seq::new(self.order@.len(), |j: int| self.nodes@[self.order@[j] as int].item->Some_0)
    }
}

impl<T> LinkedListDeque<T> {
    /// The number of positions in the pool, the sentinel's included.
    pub closed spec fn pool_len(&self) -> nat {
        self.nodes@.len()
    }

    /// The `next` link of the node at pool position `p`.
    pub closed spec fn next_of(&self, p: int) -> int {
        self.nodes@[p].next as int
    }

    /// The `prev` link of the node at pool position `p`.
    pub closed spec fn prev_of(&self, p: int) -> int {
        self.nodes@[p].prev as int
    }

    /// The pool position reached from the sentinel by following `next` `k` times.
    pub open spec fn walk(&self, k: nat) -> int
        decreases k,
    {
        if k == 0 {
            0
        } else {
            self.next_of(self.walk((k - 1) as nat))
        }
    }

    /// The ring invariant: `order` lists every item position exactly once,
    /// `rank` is its inverse, and the links follow `order` around the sentinel.
    pub closed spec fn wf(&self) -> bool {
        &&& self.nodes@.len() == self.order@.len() + 1
        &&& self.nodes@[0].item is None
        &&& links_follow(self.nodes@, self.order@)
        &&& ranks(self.order@, self.rank@, self.nodes@.len() as int)
    }

    /// An empty deque: the pool holds the sentinel alone, linked to itself.
    pub fn new() -> (r: Self)
        ensures
            r.wf(),
            r@ == Seq::<T>::empty(),
    {
        let mut nodes: Vec<Node<T>> = Vec::new();
        nodes.push(Node { item: None, prev: 0, next: 0 });
        proof {
            lemma_link(Seq::<nat>::empty(), 0);
        }
        LinkedListDeque { nodes, order: Ghost(Seq::empty()), rank: Ghost(Seq::<nat>::empty().push(0)) }
    }

    /// The number of items.
    pub fn len(&self) -> (r: usize)
        requires
            self.wf(),
        ensures
            r == self@.len(),
    {
        self.nodes.len() - 1
    }

    /// Whether the deque holds no item.
    pub fn is_empty(&self) -> (r: bool)
        requires
            self.wf(),
        ensures
            r == (self@.len() == 0),
    {
        self.nodes.len() == 1
    }

    /// Puts `item` in front of the first item.
    pub fn add_first(&mut self, item: T)
        requires
            old(self).wf(),
            old(self)@.len() < usize::MAX / 2,
        ensures
            final(self).wf(),
            final(self)@ == seq![item] + old(self)@,
            final(self).pool_len() == old(self).pool_len() + 1,
            final(self).next_of(0) == old(self).pool_len(),
    {
        let ghost v = self@;
        let ghost order = self.order@;
        let ghost rank = self.rank@;
        let ghost m = order.len() as int;
        proof {
            lemma_link(order, 0);
        }
        let first = self.nodes[0].next;
        let p = self.nodes.len();
        self.nodes.push(Node { item: Some(item), prev: 0, next: first });
        self.nodes[first].prev = p;
        self.nodes[0].next = p;
        let ghost order2 = seq![p as nat] + order;
        let ghost rank2 = Seq::new(
            (p + 1) as nat,
            |k: int|
                if k == p {
                    0nat
                } else if k == 0 {
                    0nat
                } else {
                    rank[k] + 1
                },
        );
        self.order = Ghost(order2);
        self.rank = Ghost(rank2);
        proof {
            lemma_link(order2, 0);
            lemma_link(order2, m);
            lemma_link(order, m - 1);
            assert forall|j: int| 0 <= j < m + 1 implies {
                &&& self.nodes@[#[trigger] order2[j] as int].item is Some
                &&& self.nodes@[order2[j] as int].prev == link(order2, j - 1)
                &&& self.nodes@[order2[j] as int].next == link(order2, j + 1)
            } by {
                lemma_link(order2, j);
                if j > 0 {
                    lemma_link(order, j - 1);
                    assert(order2[j] == order[j - 1]);
                    assert(1 <= order[j - 1] < p);
                    assert(rank[order[j - 1] as int] == j - 1);
                }
            }
            assert forall|j: int| 0 <= j < m + 1 implies 1 <= #[trigger] order2[j] < p + 1
                && rank2[order2[j] as int] == j by {
                if j > 0 {
                    assert(order2[j] == order[j - 1]);
                }
            }
            assert forall|q: int| 1 <= q < p + 1 implies #[trigger] rank2[q] < order2.len()
                && order2[rank2[q] as int] == q by {
                if q < p {
                    assert(rank[q] < m && order[rank[q] as int] == q);
                }
            }
        }
        assert(self@ =~= seq![item] + v);
    }

    /// Puts `item` behind the last item.
    pub fn add_last(&mut self, item: T)
        requires
            old(self).wf(),
            old(self)@.len() < usize::MAX / 2,
        ensures
            final(self).wf(),
            final(self)@ == old(self)@.push(item),
            final(self).pool_len() == old(self).pool_len() + 1,
            final(self).prev_of(0) == old(self).pool_len(),
    {
        let ghost v = self@;
        let ghost order = self.order@;
        let ghost rank = self.rank@;
        let ghost m = order.len() as int;
        proof {
            lemma_link(order, m - 1);
        }
        let last = self.nodes[0].prev;
        let p = self.nodes.len();
        self.nodes.push(Node { item: Some(item), prev: last, next: 0 });
        self.nodes[last].next = p;
        self.nodes[0].prev = p;
        let ghost order2 = order.push(p as nat);
        let ghost rank2 = rank.push(m as nat);
        self.order = Ghost(order2);
        self.rank = Ghost(rank2);
        proof {
            lemma_link(order2, 0);
            lemma_link(order2, m);
            lemma_link(order, 0);
            assert forall|j: int| 0 <= j < m + 1 implies {
                &&& self.nodes@[#[trigger] order2[j] as int].item is Some
                &&& self.nodes@[order2[j] as int].prev == link(order2, j - 1)
                &&& self.nodes@[order2[j] as int].next == link(order2, j + 1)
            } by {
                lemma_link(order2, j);
                if j < m {
                    lemma_link(order, j);
                    assert(order2[j] == order[j]);
                    assert(1 <= order[j] < p);
                    assert(rank[order[j] as int] == j);
                }
            }
            assert forall|j: int| 0 <= j < m + 1 implies 1 <= #[trigger] order2[j] < p + 1
                && rank2[order2[j] as int] == j by {
                if j < m {
                    assert(order2[j] == order[j]);
                }
            }
            assert forall|q: int| 1 <= q < p + 1 implies #[trigger] rank2[q] < order2.len()
                && order2[rank2[q] as int] == q by {
                if q < p {
                    assert(rank[q] < m && order[rank[q] as int] == q);
                }
            }
        }
        assert(self@ =~= v.push(item));
    }

    /// Unlinks the node at pool position `t` and keeps the pool dense: the
    /// node at the end of the pool moves into position `t`, its neighbours are
    /// re-pointed to it, and the pool is truncated by one.
    #[verifier::rlimit(60)]
    fn detach(&mut self, t: usize) -> (r: T)
        requires
            old(self).wf(),
            1 <= t < old(self).nodes@.len(),
        ensures
            final(self).wf(),
            r == old(self)@[old(self).rank@[t as int] as int],
            final(self)@ == old(self)@.remove(old(self).rank@[t as int] as int),
    {
        let ghost v = self@;
        let ghost order = self.order@;
        let ghost rank = self.rank@;
        let ghost nodes0 = self.nodes@;
        let ghost r0 = rank[t as int] as int;
        let ghost n = nodes0.len() as int;
        let ghost order1 = order.remove(r0);
        assert(order[r0] == t);
        assert(links_follow(nodes0, order) && ranks(order, rank, n));
        proof {
            lemma_link(order, r0);
            if r0 > 0 {
                assert(rank[order[r0 - 1] as int] == r0 - 1);
            }
            if r0 + 1 < order.len() {
                assert(rank[order[r0 + 1] as int] == r0 + 1);
            }
        }
        let a = self.nodes[t].prev;
        let b = self.nodes[t].next;
        self.nodes[a].next = b;
        self.nodes[b].prev = a;
        assert(self.nodes@ =~= unlinked(nodes0, t as int));
        proof {
            lemma_unlink(nodes0, self.nodes@, order, rank, r0);
        }
        let ghost nodes1 = self.nodes@;
        let last = self.nodes.len() - 1;
        let ghost jl: int = if t == last {
            0
        } else if rank[last as int] > r0 {
            rank[last as int] - 1
        } else {
            rank[last as int] as int
        };
        if t != last {
            assert(order1[jl] == order[rank[last as int] as int]);
            proof {
                lemma_last_neighbours(nodes1, order1, t as int, jl);
            }
        }
        let node = self.nodes.swap_remove(t);
        if t != last {
            let pp = self.nodes[t].prev;
            let nn = self.nodes[t].next;
            self.nodes[pp].next = t;
            self.nodes[nn].prev = t;
        }
        assert(self.nodes@ =~= relocated(nodes1, t as int));
        proof {
            lemma_relocate(nodes1, self.nodes@, order1, t as int, jl);
            lemma_rerank::<T>(order, rank, r0, n);
        }
        self.order = Ghost(renamed(order1, last as nat, t as nat));
        self.rank = Ghost(reranked(rank, r0, t as int, last as int));
        assert(self@ =~= v.remove(r0));
        node.item.unwrap()
    }

    /// Takes the first item out, or gives `None` when the deque is empty.
    pub fn remove_first(&mut self) -> (r: Option<T>)
        requires
            old(self).wf(),
        ensures
            final(self).wf(),
            old(self)@.len() == 0 ==> r is None && final(self)@ == old(self)@,
            old(self)@.len() > 0 ==> r == Some(old(self)@[0]) && final(self)@
                == old(self)@.drop_first(),
    {
        if self.nodes.len() == 1 {
            return None;
        }
        proof {
            lemma_link(self.order@, 0);
        }
        let first = self.nodes[0].next;
        assert(self.rank@[first as int] == 0);
        let item = self.detach(first);
        assert(old(self)@.remove(0) =~= old(self)@.drop_first());
        Some(item)
    }

    /// Takes the last item out, or gives `None` when the deque is empty.
    pub fn remove_last(&mut self) -> (r: Option<T>)
        requires
            old(self).wf(),
        ensures
            final(self).wf(),
            old(self)@.len() == 0 ==> r is None && final(self)@ == old(self)@,
            old(self)@.len() > 0 ==> r == Some(old(self)@.last()) && final(self)@
                == old(self)@.drop_last(),
    {
        if self.nodes.len() == 1 {
            return None;
        }
        proof {
            lemma_link(self.order@, self.order@.len() - 1);
        }
        let last = self.nodes[0].prev;
        assert(self.rank@[last as int] == self.order@.len() - 1);
        let item = self.detach(last);
        assert(old(self)@.remove(old(self)@.len() - 1) =~= old(self)@.drop_last());
        Some(item)
    }
    /// The first item, or `None` when the deque is empty.
    pub fn get_first(&self) -> (r: Option<&T>)
        requires
            self.wf(),
        ensures
            self@.len() == 0 ==> r is None,
            self@.len() > 0 ==> r == Some(&self@[0]),
    {
        if self.nodes.len() == 1 {
            return None;
        }
        proof {
            lemma_link(self.order@, 0);
        }
        let first = self.nodes[0].next;
        self.nodes[first].item.as_ref()
    }

    /// The last item, or `None` when the deque is empty.
    pub fn get_last(&self) -> (r: Option<&T>)
        requires
            self.wf(),
        ensures
            self@.len() == 0 ==> r is None,
            self@.len() > 0 ==> r == Some(&self@.last()),
    {
        if self.nodes.len() == 1 {
            return None;
        }
        proof {
            lemma_link(self.order@, self.order@.len() - 1);
        }
        let last = self.nodes[0].prev;
        self.nodes[last].item.as_ref()
    }

    /// The first item, to change in place, or `None` when the deque is empty.
    pub fn get_first_mut(&mut self) -> (r: Option<&mut T>)
        requires
            old(self).wf(),
        ensures
            final(self).wf(),
            old(self)@.len() == 0 ==> r is None && *final(self) == *old(self),
            old(self)@.len() > 0 ==> r is Some,
            old(self)@.len() > 0 ==> *r->Some_0 == old(self)@[0],
            old(self)@.len() > 0 ==> final(self)@ =~= old(self)@.update(0, *final(r->Some_0)),
    {
        if self.nodes.len() == 1 {
            return None;
        }
        proof {
            lemma_link(self.order@, 0);
        }
        let first = self.nodes[0].next;
        assert(self.rank@[first as int] == 0);
        self.nodes[first].item.as_mut()
    }

    /// The last item, to change in place, or `None` when the deque is empty.
    pub fn get_last_mut(&mut self) -> (r: Option<&mut T>)
        requires
            old(self).wf(),
        ensures
            final(self).wf(),
            old(self)@.len() == 0 ==> r is None && *final(self) == *old(self),
            old(self)@.len() > 0 ==> r is Some,
            old(self)@.len() > 0 ==> *r->Some_0 == old(self)@.last(),
            old(self)@.len() > 0 ==> final(self)@ =~= old(self)@.update(
                old(self)@.len() - 1,
                *final(r->Some_0),
            ),
    {
        if self.nodes.len() == 1 {
            return None;
        }
        proof {
            lemma_link(self.order@, self.order@.len() - 1);
        }
        let last = self.nodes[0].prev;
        assert(self.rank@[last as int] == self.order@.len() - 1);
        self.nodes[last].item.as_mut()
    }

    /// Following `next` `k` times from the sentinel, for `k <= len + 1`,
    /// reaches the position just after logical position `k - 1`.
    proof fn lemma_walk(&self, k: nat)
        requires
            self.wf(),
            k <= self@.len() + 1,
        ensures
            self.walk(k) == link(self.order@, k - 1),
        decreases k,
    {
        if k == 0 {
            lemma_link(self.order@, 0);
        } else {
            self.lemma_walk((k - 1) as nat);
            lemma_link(self.order@, k - 1);
            lemma_link(self.order@, k - 2);
        }
    }

    /// The pool holds exactly the sentinel and one node per item, and the
    /// links form one cycle through all of them: following `next` from the
    /// sentinel visits `len + 1` distinct positions of the pool, each `prev`
    /// leads back one step, and the step after the last item is the sentinel.
    pub proof fn lemma_one_ring(&self)
        requires
            self.wf(),
        ensures
            self.pool_len() == self@.len() + 1,
            self.walk(self@.len() + 1) == 0,
            forall|k: nat| k <= self@.len() ==> 0 <= #[trigger] self.walk(k) < self.pool_len(),
            forall|a: nat, b: nat|
                a < b <= self@.len() ==> #[trigger] self.walk(a) != #[trigger] self.walk(b),
            forall|k: nat| k <= self@.len() ==> self.prev_of(#[trigger] self.walk(k + 1)) == self.walk(k),
    {
        let m = self@.len();
        self.lemma_walk(m + 1);
        lemma_link(self.order@, m as int);
        assert forall|k: nat| k <= m implies 0 <= #[trigger] self.walk(k) < self.pool_len() by {
            self.lemma_walk(k);
            lemma_link(self.order@, k as int);
        }
        assert forall|a: nat, b: nat| a < b <= m implies #[trigger] self.walk(a) != #[trigger] self.walk(b) by {
            self.lemma_walk(a);
            self.lemma_walk(b);
            lemma_link(self.order@, a as int);
            lemma_link(self.order@, b as int);
            if a > 0 {
                assert(self.rank@[self.order@[a - 1] as int] == a - 1);
                assert(self.rank@[self.order@[b - 1] as int] == b - 1);
            }
        }
        assert forall|k: nat| k <= m implies self.prev_of(#[trigger] self.walk(k + 1)) == self.walk(k) by {
            self.lemma_walk(k);
            self.lemma_walk(k + 1);
            lemma_link(self.order@, k as int);
        }
    }
}

impl<T: std::fmt::Display> LinkedListDeque<T> {
    /// The items front to back as `[a, b, c]`, each as `Display` writes it;
    /// `[]` when the deque is empty.
    pub fn to_string(&self) -> (r: String)
        requires
            self.wf(),
        ensures
            renders_as(self@, r@),
    {
        let mut out = start();
        let mut texts: Ghost<Seq<String>> = Ghost(Seq::empty());
        proof {
            lemma_link(self.order@, 0);
        }
        let mut cur = self.nodes[0].next;
        let mut first = true;
        let ghost mut j: int = 0;
        while cur != 0
            invariant
                self.wf(),
                0 <= j <= self@.len(),
                cur == link(self.order@, j),
                first == (j == 0),
                displays_as(self@.take(j), texts@),
                out@ == seq!['['] + joined(chars_of(texts@)),
            decreases self@.len() - j,
        {
            proof {
                lemma_link(self.order@, j);
            }
            let x = self.nodes[cur].item.as_ref().unwrap();
            assert(self@.take(j).push(*x) =~= self@.take(j + 1));
            texts = append_item(&mut out, texts, Ghost(self@.take(j)), x, first);
            cur = self.nodes[cur].next;
            first = false;
            proof {
                j = j + 1;
            }
        }
        proof {
            lemma_link(self.order@, j);
        }
        assert(self@.take(j) =~= self@);
        finish(&mut out, texts);
        out
    }
}

} // verus!
