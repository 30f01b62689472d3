use vstd::prelude::*;
use vstd::arithmetic::power2::{pow2, lemma2_to64, lemma_pow2_strictly_increases};
use crate::level_generator::GeometricalLevelGenerator;
use crate::skipnode::SkipNode;

verus! {

// ---------------------------------------------------------------------
// The rank model.
//
// Ranks count positions along the level-0 chain: the sentinel head is at
// rank 0 and the element at index `i` is the node at rank `i + 1`. The
// ghost sequence `order` lists the arena slot of each rank `1..=len`, and
// every structural fact below is phrased over `(nodes, order, len)` so
// that it survives changes to the other fields of the list.
// ---------------------------------------------------------------------

/// Arena slot of the node at rank `r`; the head always sits in slot 0.
pub open spec fn rank_index(order: Seq<usize>, r: int) -> usize {
    if r == 0 {
        0
    } else {
        order[r - 1]
    }
}

/// The node at rank `r`.
pub open spec fn node_at<V>(nodes: Seq<SkipNode<V>>, order: Seq<usize>, r: int) -> SkipNode<V> {
    nodes[rank_index(order, r) as int]
}

/// The level of the node at rank `r`.
pub open spec fn level_at<V>(nodes: Seq<SkipNode<V>>, order: Seq<usize>, r: int) -> int {
    node_at(nodes, order, r).level as int
}

/// Rank of the nearest node after rank `r` whose level is at least `k`,
/// or `len + 1` when no such node exists. This is where a correct
/// level-`k` forward link out of rank `r` must land.
pub open spec fn next_rank<V>(
    nodes: Seq<SkipNode<V>>,
    order: Seq<usize>,
    len: int,
    r: int,
    k: int,
) -> int
    decreases len - r,
{
    if r >= len {
        len + 1
    } else if level_at(nodes, order, r + 1) >= k {
        r + 1
    } else {
        next_rank(nodes, order, len, r + 1, k)
    }
}

/// The level-`k` link out of rank `r` is sound: it lands on the nearest
/// following node of level at least `k` (absent when there is none), and
/// its span counts exactly the level-0 steps to that landing point.
pub open spec fn link_ok<V>(
    nodes: Seq<SkipNode<V>>,
    order: Seq<usize>,
    len: int,
    r: int,
    k: int,
) -> bool {
    let n = next_rank(nodes, order, len, r, k);
    let node = node_at(nodes, order, r);
    &&& node.links_len[k] as int == n - r
    &&& node.links[k] == (if n <= len {
        Some(rank_index(order, n))
    } else {
        None::<usize>
    })
}

/// The node at rank `r` is sound: its link vectors match its level, the
/// head and only the head lacks a value and a predecessor, no node
/// outgrows the head, `prev` points one rank back, and every link obeys
/// `link_ok`.
pub open spec fn node_ok<V>(
    nodes: Seq<SkipNode<V>>,
    order: Seq<usize>,
    len: int,
    max: int,
    r: int,
) -> bool {
    let node = node_at(nodes, order, r);
    &&& node.links@.len() == node.level + 1
    &&& node.links_len@.len() == node.level + 1
    &&& (if r == 0 {
        node.item is None && node.level as int == max && node.prev is None
    } else {
        node.item is Some && node.level as int <= max && node.prev == Some(
            rank_index(order, r - 1),
        )
    })
    &&& forall|k: int| 0 <= k <= node.level ==> link_ok(nodes, order, len, r, k)
}

/// The whole arena is sound: the head sits in slot 0, the ranks name
/// distinct live slots, there are fewer live ranks than slots, and every
/// ranked node is sound.
pub open spec fn arena_ok<V>(
    nodes: Seq<SkipNode<V>>,
    order: Seq<usize>,
    len: int,
    max: int,
) -> bool {
    &&& nodes.len() >= 1
    &&& 0 <= len < nodes.len()
    &&& order.len() == len
    &&& forall|j: int| 0 <= j < len ==> 1 <= #[trigger] order[j] < nodes.len()
    &&& forall|j1: int, j2: int|
        0 <= j1 < j2 < len ==> order[j1] != order[j2]
    &&& forall|r: int| 0 <= r <= len ==> #[trigger] node_ok(nodes, order, len, max, r)
}

/// An indexed skip list: a sequence container whose view is the sequence
/// of held values in insertion order.
///
/// Nodes live in `nodes`, an arena indexed by the links; slot 0 is the
/// sentinel head and a removed node's slot is simply retired. The ghost
/// `order` lists the live slots by rank and ties the arena to the
/// abstract sequence.
pub struct SkipList<V> {
    nodes: Vec<SkipNode<V>>,
    len: usize,
    level_generator: GeometricalLevelGenerator,
    order: Ghost<Seq<usize>>,
}

impl<V> View for SkipList<V> {
    type V = Seq<V>;

    closed spec fn view(&self) -> Seq<V> {
        Seq::new(self.len as nat, |i: int| node_at(self.nodes@, self.order@, i + 1).item->0)
    }
}

impl<V> SkipList<V> {
    /// The structural invariant: the arena, ghost order and length form a
    /// sound skip list whose head has the generator's height.
    pub closed spec fn wf(self) -> bool {
        &&& arena_ok(self.nodes@, self.order@, self.len as int, self.level_generator.total as int)
        &&& 1 <= self.level_generator.total <= 64
    }

    /// The arena, for stating white-box facts about the node graph.
    pub closed spec fn nodes_seq(self) -> Seq<SkipNode<V>> {
        self.nodes@
    }

    /// The arena slots of the live nodes, by rank.
    pub closed spec fn order_seq(self) -> Seq<usize> {
        self.order@
    }

    /// The number of elements, as a mathematical integer.
    pub closed spec fn spec_len(self) -> int {
        self.len as int
    }

    /// A new empty list with the default sixteen levels.
    pub fn new() -> (r: SkipList<V>)
        ensures
            r.wf(),
            r@ == Seq::<V>::empty(),
    {
        let lg = GeometricalLevelGenerator::new(16);
        let total = lg.total();
        let head: SkipNode<V> = SkipNode::head(total);
        let mut nodes: Vec<SkipNode<V>> = Vec::new();
        nodes.push(head);
        let r = SkipList { nodes, len: 0, level_generator: lg, order: Ghost(Seq::empty()) };
        proof {
            lemma_empty_arena_ok(r.nodes@, r.order@, total as int);
            assert(r@ =~= Seq::<V>::empty());
        }
        r
    }

    /// A new empty list sized for the given expected capacity: the height
    /// is `floor(log2(capacity))`, bounded below by 1, so that only a few
    /// nodes of a list that grows to about `capacity` reach the top
    /// level.
    pub fn with_capacity(capacity: usize) -> (r: SkipList<V>)
        ensures
            r.wf(),
            r@ == Seq::<V>::empty(),
    {
        let mut levels: usize = floor_log2(capacity);
        if levels < 1 {
            levels = 1;
        }
        let lg = GeometricalLevelGenerator::new(levels);
        let total = lg.total();
        let head: SkipNode<V> = SkipNode::head(total);
        let mut nodes: Vec<SkipNode<V>> = Vec::new();
        nodes.push(head);
        let r = SkipList { nodes, len: 0, level_generator: lg, order: Ghost(Seq::empty()) };
        proof {
            lemma_empty_arena_ok(r.nodes@, r.order@, total as int);
            assert(r@ =~= Seq::<V>::empty());
        }
        r
    }

    /// The number of elements in the list.
    pub fn len(&self) -> (r: usize)
        ensures
            r == self@.len(),
    {
        self.len
    }

    /// Whether the list holds no element.
    pub fn is_empty(&self) -> (r: bool)
        ensures
            r == (self@.len() == 0),
    {
        self.len == 0
    }

    /// Empties the list in place: the head is reset to a fresh sentinel
    /// of the same height and every node is dropped.
    pub fn clear(&mut self)
        requires
            old(self).wf(),
        ensures
            final(self).wf(),
            final(self)@ == Seq::<V>::empty(),
    {
        let total = self.level_generator.total();
        let head: SkipNode<V> = SkipNode::head(total);
        let mut nodes: Vec<SkipNode<V>> = Vec::new();
        nodes.push(head);
        self.nodes = nodes;
        self.len = 0;
        self.order = Ghost(Seq::empty());
        proof {
            lemma_empty_arena_ok(self.nodes@, self.order@, total as int);
            assert(self@ =~= Seq::<V>::empty());
        }
    }
}

impl<V> SkipList<V> {
    /// Indexed lookup, the advance-by-rank search: the arena slot of the
    /// node at rank `target`, found by walking forward links from the
    /// head, top level first, never overshooting `target`, and dropping
    /// one level when the next link would.
    fn advance(&self, target: usize) -> (slot: usize)
        requires
            self.wf(),
            1 <= target <= self.spec_len(),
        ensures
            slot == rank_index(self.order_seq(), target as int),
    {
        let ghost ns = self.nodes@;
        let ghost os = self.order@;
        let ghost ln = self.len as int;
        let ghost mx = self.level_generator.total as int;
        let mut cur: usize = 0;
        let mut traveled: usize = 0;
        let mut k: usize = self.level_generator.total();
        proof {
            assert(node_ok(ns, os, ln, mx, 0));
        }
        loop
            invariant
                self.wf(),
                ns == self.nodes@,
                os == self.order@,
                ln == self.len as int,
                mx == self.level_generator.total as int,
                1 <= target <= self.len,
                traveled <= target,
                cur == rank_index(os, traveled as int),
                k <= level_at(ns, os, traveled as int),
            decreases target - traveled, k,
        {
            if traveled == target {
                return cur;
            }
            proof {
                assert(node_ok(ns, os, ln, mx, traveled as int));
                lemma_next_rank_bounds(ns, os, ln, traveled as int, k as int);
                lemma_rank_index_in_arena(ns, os, ln, mx, traveled as int);
                assert(link_ok(ns, os, ln, traveled as int, k as int));
                assert(self.nodes@.len() == self.nodes.len());
            }
            let node = &self.nodes[cur];
            let span = node.links_len[k];
            if traveled + span <= target {
                let nxt = node.links[k];
                proof {
                    let n = next_rank(ns, os, ln, traveled as int, k as int);
                    assert(link_ok(ns, os, ln, traveled as int, k as int));
                    assert(n == traveled + span);
                    assert(n <= ln);
                }
                match nxt {
                    Some(s) => {
                        cur = s;
                        traveled = traveled + span;
                    },
                    None => {
                        proof {
                            assert(false);
                        }
                    },
                }
            } else {
                proof {
                    assert(link_ok(ns, os, ln, traveled as int, k as int));
                    if k == 0 {
                        assert(next_rank(ns, os, ln, traveled as int, 0) == traveled + 1);
                        assert(false);
                    }
                }
                k = k - 1;
            }
        }
    }

    /// The node at the given index, or `None` when the index is out of
    /// bounds.
    fn get_index(&self, index: usize) -> (r: Option<&SkipNode<V>>)
        requires
            self.wf(),
        ensures
            index < self.spec_len() ==> (r matches Some(node) && *node == node_at(
                self.nodes_seq(),
                self.order_seq(),
                index + 1,
            )),
            index >= self.spec_len() ==> r is None,
    {
        if index >= self.len {
            None
        } else {
            let slot = self.advance(index + 1);
            proof {
                lemma_rank_index_in_arena(
                    self.nodes@,
                    self.order@,
                    self.len as int,
                    self.level_generator.total as int,
                    index + 1,
                );
            }
            Some(&self.nodes[slot])
        }
    }

    /// A mutable view of the node at the given index, or `None` when the
    /// index is out of bounds. The final arena differs from the old one
    /// in that node's slot alone; the caller answers for what it writes
    /// there.
    fn get_index_mut(&mut self, index: usize) -> (r: Option<&mut SkipNode<V>>)
        requires
            old(self).wf(),
        ensures
            index < old(self).spec_len() ==> r is Some && *r.unwrap() == node_at(
                old(self).nodes_seq(),
                old(self).order_seq(),
                index + 1,
            ) && final(self).nodes@ == old(self).nodes@.update(
                rank_index(old(self).order_seq(), index + 1) as int,
                *final(r.unwrap()),
            ) && final(self).len == old(self).len && final(self).order == old(self).order
                && final(self).level_generator == old(self).level_generator,
            index >= old(self).spec_len() ==> r is None && *final(self) == *old(self),
    {
        if index >= self.len {
            None
        } else {
            let slot = self.advance(index + 1);
            proof {
                lemma_rank_index_in_arena(
                    self.nodes@,
                    self.order@,
                    self.len as int,
                    self.level_generator.total as int,
                    index + 1,
                );
                assert(self.nodes@.len() == self.nodes.len());
            }
            Some(&mut self.nodes[slot])
        }
    }

    /// A reference to the element at the given index, or `None` when the
    /// index is out of bounds: an out-of-range read is an expected
    /// outcome, not a fault.
    pub fn get(&self, index: usize) -> (r: Option<&V>)
        requires
            self.wf(),
        ensures
            index < self@.len() ==> (r matches Some(v) && *v == self@[index as int]),
            index >= self@.len() ==> r is None,
    {
        match self.get_index(index) {
            Some(node) => {
                proof {
                    let ghost ns = self.nodes@;
                    let ghost os = self.order@;
                    assert(node_ok(
                        ns,
                        os,
                        self.len as int,
                        self.level_generator.total as int,
                        index + 1,
                    ));
                }
                node.item.as_ref()
            },
            None => None,
        }
    }
}

/// Rank `r` is the splice predecessor at level `k` for a mutation at
/// element index `index`: the last rank at or before `index` whose node
/// reaches level `k`. Its level-`k` link is the one that crosses the
/// splice point, since `next_rank` lands past `index`.
pub open spec fn pred_at<V>(
    nodes: Seq<SkipNode<V>>,
    order: Seq<usize>,
    len: int,
    index: int,
    r: int,
    k: int,
) -> bool {
    &&& 0 <= r <= index
    &&& level_at(nodes, order, r) >= k
    &&& next_rank(nodes, order, len, r, k) > index
}

impl<V> SkipList<V> {
    /// One level-descending search recording, per level from the head's
    /// height down to 0, the arena slot (`out.0`) and the rank (`out.1`)
    /// of the splice predecessor for a mutation at element index
    /// `index`.
    fn collect_preds(&self, index: usize) -> (out: (Vec<usize>, Vec<usize>))
        requires
            self.wf(),
            index <= self.spec_len(),
        ensures
            out.0@.len() == self.level_generator.total + 1,
            out.1@.len() == self.level_generator.total + 1,
            forall|k: int|
                0 <= k <= self.level_generator.total ==> pred_at(
                    self.nodes@,
                    self.order@,
                    self.len as int,
                    index as int,
                    #[trigger] out.1@[k] as int,
                    k,
                ) && out.0@[k] == rank_index(self.order@, out.1@[k] as int),
    {
        let ghost ns = self.nodes@;
        let ghost os = self.order@;
        let ghost ln = self.len as int;
        let ghost mx = self.level_generator.total as int;
        let ml = self.level_generator.total();
        let mut preds: Vec<usize> = Vec::new();
        let mut ranks: Vec<usize> = Vec::new();
        let mut i: usize = 0;
        while i < ml + 1
            invariant
                preds@.len() == i,
                ranks@.len() == i,
                i <= ml + 1,
                ml <= 64,
            decreases ml + 1 - i,
        {
            preds.push(0);
            ranks.push(0);
            i = i + 1;
        }
        let mut cur: usize = 0;
        let mut traveled: usize = 0;
        let mut kp: usize = ml + 1;
        proof {
            assert(node_ok(ns, os, ln, mx, 0));
        }
        while kp > 0
            invariant
                self.wf(),
                ns == self.nodes@,
                os == self.order@,
                ln == self.len as int,
                mx == self.level_generator.total as int,
                ml == self.level_generator.total,
                index <= ln,
                kp <= ml + 1,
                traveled <= index,
                cur == rank_index(os, traveled as int),
                kp >= 1 ==> level_at(ns, os, traveled as int) >= kp - 1,
                preds@.len() == ml + 1,
                ranks@.len() == ml + 1,
                forall|j: int|
                    kp <= j <= ml ==> pred_at(ns, os, ln, index as int, #[trigger] ranks@[j] as int, j)
                        && preds@[j] == rank_index(os, ranks@[j] as int),
            decreases kp, index - traveled,
        {
            let k = kp - 1;
            proof {
                assert(node_ok(ns, os, ln, mx, traveled as int));
                lemma_next_rank_bounds(ns, os, ln, traveled as int, k as int);
                lemma_rank_index_in_arena(ns, os, ln, mx, traveled as int);
                assert(link_ok(ns, os, ln, traveled as int, k as int));
                assert(self.nodes@.len() == self.nodes.len());
            }
            let node = &self.nodes[cur];
            let span = node.links_len[k];
            if traveled + span <= index {
                let nxt = node.links[k];
                proof {
                    assert(next_rank(ns, os, ln, traveled as int, k as int) == traveled + span);
                }
                match nxt {
                    Some(s) => {
                        cur = s;
                        traveled = traveled + span;
                    },
                    None => {
                        proof {
                            assert(false);
                        }
                    },
                }
            } else {
                preds[k] = cur;
                ranks[k] = traveled;
                kp = k;
            }
        }
        (preds, ranks)
    }
}

impl<V> SkipList<V> {
    /// Inserts `value` at `index`, shifting every element at `index` or
    /// after one position to the right. `index` may equal the length, in
    /// which case the value is appended.
    ///
    /// One search records the splice predecessor of every level; the new
    /// node, with a height drawn from the level generator, then takes
    /// over the tail of each crossing link at the levels it reaches,
    /// while every crossing link above it merely grows by one.
    pub fn insert(&mut self, value: V, index: usize)
        requires
            old(self).wf(),
            index <= old(self)@.len(),
        ensures
            final(self).wf(),
            final(self)@ == old(self)@.insert(index as int, value),
            final(self)@.len() == old(self)@.len() + 1,
    {
        let ghost gvalue = value;
        let ghost ns0 = self.nodes@;
        let ghost os0 = self.order@;
        let ghost ln0 = self.len as int;
        let ghost mx = self.level_generator.total as int;
        let ml = self.level_generator.total();
        let node_level = self.level_generator.random();
        let (preds, ranks) = self.collect_preds(index);
        // Build the new node's links: each level it reaches takes over
        // the predecessor's old link, keeping the part of the old span
        // that lies past the splice point, plus the new element itself.
        let mut nlinks: Vec<Option<usize>> = Vec::new();
        let mut nspans: Vec<usize> = Vec::new();
        let mut k: usize = 0;
        while k <= node_level
            invariant
                self.wf(),
                ns0 == self.nodes@,
                os0 == self.order@,
                ln0 == self.len as int,
                mx == self.level_generator.total as int,
                ml == self.level_generator.total,
                node_level <= ml,
                index <= ln0,
                preds@.len() == ml + 1,
                ranks@.len() == ml + 1,
                forall|j: int|
                    0 <= j <= ml ==> pred_at(ns0, os0, ln0, index as int, #[trigger] ranks@[j] as int, j)
                        && preds@[j] == rank_index(os0, ranks@[j] as int),
                k <= node_level + 1,
                nlinks@.len() == k,
                nspans@.len() == k,
                forall|j: int|
                    0 <= j < k ==> #[trigger] nlinks@[j] == node_at(
                        ns0,
                        os0,
                        ranks@[j] as int,
                    ).links@[j],
                forall|j: int|
                    0 <= j < k ==> #[trigger] nspans@[j] as int == next_rank(
                        ns0,
                        os0,
                        ln0,
                        ranks@[j] as int,
                        j,
                    ) - index,
            decreases node_level + 1 - k,
        {
            let pi = preds[k];
            let rk = ranks[k];
            proof {
                assert(node_ok(ns0, os0, ln0, mx, rk as int));
                lemma_next_rank_bounds(ns0, os0, ln0, rk as int, k as int);
                lemma_rank_index_in_arena(ns0, os0, ln0, mx, rk as int);
                assert(link_ok(ns0, os0, ln0, rk as int, k as int));
                assert(self.nodes@.len() == self.nodes.len());
            }
            let node = &self.nodes[pi];
            nlinks.push(node.links[k]);
            let span = node.links_len[k];
            nspans.push(span - (index - rk));
            k = k + 1;
        }
        let ni = self.nodes.len();
        let pred0 = preds[0];
        let new_node = SkipNode::<V> {
            item: Some(value),
            level: node_level,
            prev: Some(pred0),
            links: nlinks,
            links_len: nspans,
        };
        let ghost nnode = new_node;
        self.nodes.push(new_node);
        // Re-point the predecessors, level by level.
        let mut k2: usize = 0;
        while k2 <= ml
            invariant
                os0 == self.order@,
                ln0 == self.len as int,
                mx == self.level_generator.total as int,
                ml == self.level_generator.total,
                1 <= self.level_generator.total <= 64,
                arena_ok(ns0, os0, ln0, mx),
                node_level <= ml,
                index <= ln0,
                preds@.len() == ml + 1,
                ranks@.len() == ml + 1,
                forall|j: int|
                    0 <= j <= ml ==> pred_at(ns0, os0, ln0, index as int, #[trigger] ranks@[j] as int, j)
                        && preds@[j] == rank_index(os0, ranks@[j] as int),
                ni as int == ns0.len(),
                self.nodes@.len() == ns0.len() + 1,
                self.nodes@[ni as int] == nnode,
                nnode.item == Some(gvalue),
                nnode.level == node_level,
                nnode.prev == Some(preds@[0]),
                nnode.links@.len() == node_level + 1,
                nnode.links_len@.len() == node_level + 1,
                forall|j: int|
                    0 <= j <= node_level ==> #[trigger] nnode.links@[j] == node_at(
                        ns0,
                        os0,
                        ranks@[j] as int,
                    ).links@[j],
                forall|j: int|
                    0 <= j <= node_level ==> #[trigger] nnode.links_len@[j] as int == next_rank(
                        ns0,
                        os0,
                        ln0,
                        ranks@[j] as int,
                        j,
                    ) - index,
                k2 <= ml + 1,
                forall|i: int|
                    0 <= i < ns0.len() ==> (#[trigger] self.nodes@[i]).item == ns0[i].item
                        && self.nodes@[i].level == ns0[i].level && self.nodes@[i].prev == ns0[i].prev
                        && self.nodes@[i].links@.len() == ns0[i].links@.len()
                        && self.nodes@[i].links_len@.len() == ns0[i].links_len@.len(),
                forall|i: int, j: int|
                    0 <= i < ns0.len() && 0 <= j < ns0[i].links@.len() ==> #[trigger] splice_entry(
                        self.nodes@,
                        ns0,
                        preds@,
                        ranks@,
                        node_level as int,
                        index as int,
                        ni,
                        k2 as int,
                        i,
                        j,
                    ),
            decreases ml + 1 - k2,
        {
            let pi = preds[k2];
            let rk = ranks[k2];
            proof {
                assert(node_ok(ns0, os0, ln0, mx, rk as int));
                lemma_rank_index_in_arena(ns0, os0, ln0, mx, rk as int);
                lemma_next_rank_bounds(ns0, os0, ln0, rk as int, k2 as int);
                assert(link_ok(ns0, os0, ln0, rk as int, k2 as int));
                assert(splice_entry(
                    self.nodes@,
                    ns0,
                    preds@,
                    ranks@,
                    node_level as int,
                    index as int,
                    ni,
                    k2 as int,
                    pi as int,
                    k2 as int,
                ));
                assert(self.nodes@.len() == self.nodes.len());
            }
            let ghost before = self.nodes@;
            let node_ref = &mut self.nodes[pi];
            if k2 <= node_level {
                node_ref.links[k2] = Some(ni);
                node_ref.links_len[k2] = index - rk + 1;
            } else {
                let s = node_ref.links_len[k2];
                node_ref.links_len[k2] = s + 1;
            }
            proof {
                assert forall|i: int, j: int|
                    0 <= i < ns0.len() && 0 <= j < ns0[i].links@.len() implies #[trigger] splice_entry(
                        self.nodes@,
                        ns0,
                        preds@,
                        ranks@,
                        node_level as int,
                        index as int,
                        ni,
                        k2 + 1 as int,
                        i,
                        j,
                    ) by {
                    assert(splice_entry(
                        before,
                        ns0,
                        preds@,
                        ranks@,
                        node_level as int,
                        index as int,
                        ni,
                        k2 as int,
                        i,
                        j,
                    ));
                    if i != pi as int {
                        assert(self.nodes@[i] == before[i]);
                    }
                }
            }
            k2 = k2 + 1;
        }
        // The node that now follows the new one gets its back-reference
        // re-pointed.
        let succ = self.nodes[ni].links[0];
        proof {
            assert(pred_at(ns0, os0, ln0, index as int, ranks@[0] as int, 0));
            assert(ranks@[0] as int == index) by {
                if (ranks@[0] as int) < index {
                    assert(next_rank(ns0, os0, ln0, ranks@[0] as int, 0) == ranks@[0] + 1);
                }
            }
            assert(node_ok(ns0, os0, ln0, mx, index as int));
            assert(link_ok(ns0, os0, ln0, index as int, 0));
            lemma_next_rank_bounds(ns0, os0, ln0, index as int, 0);
            if (index as int) < ln0 {
                assert(next_rank(ns0, os0, ln0, index as int, 0) == index + 1);
                lemma_rank_index_in_arena(ns0, os0, ln0, mx, index + 1);
            }
        }
        let ghost nsl = self.nodes@;
        match succ {
            Some(si) => {
                proof {
                    assert((index as int) < ln0 && si == rank_index(os0, index + 1));
                    assert((si as int) < ns0.len());
                }
                self.nodes[si].prev = Some(ni);
                proof {
                    assert forall|i: int, j: int|
                        0 <= i < ns0.len() && 0 <= j < ns0[i].links@.len() implies #[trigger] splice_entry(
                            self.nodes@,
                            ns0,
                            preds@,
                            ranks@,
                            node_level as int,
                            index as int,
                            ni,
                            (ml + 1) as int,
                            i,
                            j,
                        ) by {
                        assert(splice_entry(
                            nsl,
                            ns0,
                            preds@,
                            ranks@,
                            node_level as int,
                            index as int,
                            ni,
                            (ml + 1) as int,
                            i,
                            j,
                        ));
                        if i != si as int {
                            assert(self.nodes@[i] == nsl[i]);
                        } else {
                            assert(self.nodes@[i].links@ == nsl[i].links@);
                            assert(self.nodes@[i].links_len@ == nsl[i].links_len@);
                        }
                    }
                }
            },
            None => {
                proof {
                    assert((index as int) == ln0);
                }
            },
        }
        self.len = self.len + 1;
        self.order = Ghost(os0.insert(index as int, ni));
        proof {
            lemma_splice_ok(
                ns0,
                os0,
                ln0,
                mx,
                preds@,
                ranks@,
                index as int,
                node_level as int,
                ni,
                self.nodes@,
            );
            os0.insert_ensures(index as int, ni);
            assert forall|i: int| 0 <= i < ln0 + 1 implies self@[i] == old(self)@.insert(
                index as int,
                value,
            )[i] by {
                if i < index {
                    assert(node_at(self.nodes@, self.order@, i + 1).item == node_at(
                        ns0,
                        os0,
                        i + 1,
                    ).item);
                } else if i == index {
                    assert(node_at(self.nodes@, self.order@, i + 1).item == Some(gvalue));
                } else {
                    assert(node_at(self.nodes@, self.order@, i + 1).item == node_at(
                        ns0,
                        os0,
                        i,
                    ).item);
                }
            }
            assert(self@ =~= old(self)@.insert(index as int, value));
        }
    }
}

impl<V> SkipList<V> {
    /// Removes the element at `index` and returns it, shifting every
    /// element after `index` one position to the left.
    ///
    /// One search records the target's predecessor at every level; each
    /// predecessor link that lands on the target is re-pointed past it,
    /// merging the two spans net of the removed element, while every
    /// crossing link above the target's height merely shrinks by one.
    /// The target's slot is retired with its value handed back.
    pub fn remove(&mut self, index: usize) -> (r: V)
        requires
            old(self).wf(),
            index < old(self)@.len(),
        ensures
            final(self).wf(),
            final(self)@ == old(self)@.remove(index as int),
            final(self)@.len() == old(self)@.len() - 1,
            r == old(self)@[index as int],
    {
        let ghost ns0 = self.nodes@;
        let ghost os0 = self.order@;
        let ghost ln0 = self.len as int;
        let ghost mx = self.level_generator.total as int;
        let ml = self.level_generator.total();
        let (preds, ranks) = self.collect_preds(index);
        proof {
            assert(pred_at(ns0, os0, ln0, index as int, ranks@[0] as int, 0));
            assert(ranks@[0] as int == index) by {
                if (ranks@[0] as int) < index {
                    assert(next_rank(ns0, os0, ln0, ranks@[0] as int, 0) == ranks@[0] + 1);
                }
            }
            assert(node_ok(ns0, os0, ln0, mx, index as int));
            assert(link_ok(ns0, os0, ln0, index as int, 0));
            assert(next_rank(ns0, os0, ln0, index as int, 0) == index + 1);
            lemma_rank_index_in_arena(ns0, os0, ln0, mx, index as int);
            lemma_rank_index_in_arena(ns0, os0, ln0, mx, index + 1);
            assert(self.nodes@.len() == self.nodes.len());
        }
        let p0 = preds[0];
        let ti = match self.nodes[p0].links[0] {
            Some(t) => t,
            None => {
                proof {
                    assert(false);
                }
                0
            },
        };
        let ghost t = index + 1;
        let target_level = self.nodes[ti].level;
        let ghost tl = target_level as int;
        proof {
            assert(ti == rank_index(os0, t));
            assert(tl == level_at(ns0, os0, t));
            assert(node_ok(ns0, os0, ln0, mx, t));
        }
        // Re-point the predecessors, level by level.
        let mut k2: usize = 0;
        while k2 <= ml
            invariant
                os0 == self.order@,
                ln0 == self.len as int,
                mx == self.level_generator.total as int,
                ml == self.level_generator.total,
                1 <= self.level_generator.total <= 64,
                arena_ok(ns0, os0, ln0, mx),
                index < ln0,
                t == index + 1,
                ti == rank_index(os0, t),
                tl == level_at(ns0, os0, t),
                tl == target_level as int,
                0 <= tl <= mx,
                preds@.len() == ml + 1,
                ranks@.len() == ml + 1,
                forall|j: int|
                    0 <= j <= ml ==> pred_at(ns0, os0, ln0, index as int, #[trigger] ranks@[j] as int, j)
                        && preds@[j] == rank_index(os0, ranks@[j] as int),
                k2 <= ml + 1,
                self.nodes@.len() == ns0.len(),
                forall|i: int|
                    0 <= i < ns0.len() ==> (#[trigger] self.nodes@[i]).item == ns0[i].item
                        && self.nodes@[i].level == ns0[i].level && self.nodes@[i].prev == ns0[i].prev
                        && self.nodes@[i].links@.len() == ns0[i].links@.len()
                        && self.nodes@[i].links_len@.len() == ns0[i].links_len@.len(),
                forall|i: int, j: int|
                    0 <= i < ns0.len() && 0 <= j < ns0[i].links@.len() ==> #[trigger] unsplice_entry(
                        self.nodes@,
                        ns0,
                        preds@,
                        ranks@,
                        tl,
                        index as int,
                        ti,
                        k2 as int,
                        i,
                        j,
                    ),
            decreases ml + 1 - k2,
        {
            let pi = preds[k2];
            let rk = ranks[k2];
            proof {
                assert(node_ok(ns0, os0, ln0, mx, rk as int));
                lemma_rank_index_in_arena(ns0, os0, ln0, mx, rk as int);
                lemma_next_rank_bounds(ns0, os0, ln0, rk as int, k2 as int);
                assert(link_ok(ns0, os0, ln0, rk as int, k2 as int));
                lemma_rank_distinct(ns0, os0, ln0, mx, rk as int, t);
                lemma_rank_index_in_arena(ns0, os0, ln0, mx, t);
                assert(node_ok(ns0, os0, ln0, mx, t));
                assert(node_at(ns0, os0, t) == ns0[ti as int]);
                assert(unsplice_entry(
                    self.nodes@,
                    ns0,
                    preds@,
                    ranks@,
                    tl,
                    index as int,
                    ti,
                    k2 as int,
                    pi as int,
                    k2 as int,
                ));
                if k2 as int <= tl {
                    // The predecessor's link lands exactly on the target.
                    assert(next_rank(ns0, os0, ln0, rk as int, k2 as int) == t) by {
                        let n0 = next_rank(ns0, os0, ln0, rk as int, k2 as int);
                        if n0 > t {
                            assert(level_at(ns0, os0, t) < k2);
                        }
                    }
                    assert(link_ok(ns0, os0, ln0, t, k2 as int));
                    lemma_next_rank_bounds(ns0, os0, ln0, t, k2 as int);
                    assert(unsplice_entry(
                        self.nodes@,
                        ns0,
                        preds@,
                        ranks@,
                        tl,
                        index as int,
                        ti,
                        k2 as int,
                        ti as int,
                        k2 as int,
                    ));
                    assert((ti as int) < self.nodes@.len());
                    assert(self.nodes@[ti as int].links@.len() == tl + 1);
                    assert(self.nodes@[ti as int].links_len@.len() == tl + 1);
                }
                assert((pi as int) < self.nodes@.len());
                assert(self.nodes@[pi as int].links@.len() == ns0[pi as int].links@.len());
                assert(ns0[pi as int].links@.len() == level_at(ns0, os0, rk as int) + 1);
                assert(self.nodes@.len() == self.nodes.len());
            }
            let ghost before = self.nodes@;
            if k2 <= target_level {
                let tlink = self.nodes[ti].links[k2];
                let tspan = self.nodes[ti].links_len[k2];
                let pspan = self.nodes[pi].links_len[k2];
                let node_ref = &mut self.nodes[pi];
                node_ref.links[k2] = tlink;
                node_ref.links_len[k2] = pspan + tspan - 1;
            } else {
                let node_ref = &mut self.nodes[pi];
                let s = node_ref.links_len[k2];
                node_ref.links_len[k2] = s - 1;
            }
            proof {
                assert forall|i: int, j: int|
                    0 <= i < ns0.len() && 0 <= j < ns0[i].links@.len() implies #[trigger] unsplice_entry(
                        self.nodes@,
                        ns0,
                        preds@,
                        ranks@,
                        tl,
                        index as int,
                        ti,
                        k2 + 1 as int,
                        i,
                        j,
                    ) by {
                    assert(unsplice_entry(
                        before,
                        ns0,
                        preds@,
                        ranks@,
                        tl,
                        index as int,
                        ti,
                        k2 as int,
                        i,
                        j,
                    ));
                    if i != pi as int {
                        assert(self.nodes@[i] == before[i]);
                    }
                }
            }
            k2 = k2 + 1;
        }
        // The node after the target gets its back-reference re-pointed,
        // then the target's slot is retired and its value handed back.
        proof {
            assert(link_ok(ns0, os0, ln0, t, 0));
            lemma_next_rank_bounds(ns0, os0, ln0, t, 0);
            if t < ln0 {
                assert(next_rank(ns0, os0, ln0, t, 0) == t + 1);
                lemma_rank_index_in_arena(ns0, os0, ln0, mx, t + 1);
            }
            assert(unsplice_entry(
                self.nodes@,
                ns0,
                preds@,
                ranks@,
                tl,
                index as int,
                ti,
                (ml + 1) as int,
                ti as int,
                0,
            ));
            assert forall|j: int| 0 <= j <= ml implies #[trigger] preds@[j] != ti by {
                assert(pred_at(ns0, os0, ln0, index as int, ranks@[j] as int, j));
                lemma_rank_distinct(ns0, os0, ln0, mx, ranks@[j] as int, t);
            }
        }
        let succ = self.nodes[ti].links[0];
        let ghost nsl = self.nodes@;
        match succ {
            Some(si) => {
                proof {
                    assert(t < ln0 && si == rank_index(os0, t + 1));
                    assert((si as int) < ns0.len());
                }
                self.nodes[si].prev = Some(p0);
                proof {
                    assert forall|i: int, j: int|
                        0 <= i < ns0.len() && 0 <= j < ns0[i].links@.len() implies #[trigger] unsplice_entry(
                            self.nodes@,
                            ns0,
                            preds@,
                            ranks@,
                            tl,
                            index as int,
                            ti,
                            (ml + 1) as int,
                            i,
                            j,
                        ) by {
                        assert(unsplice_entry(
                            nsl,
                            ns0,
                            preds@,
                            ranks@,
                            tl,
                            index as int,
                            ti,
                            (ml + 1) as int,
                            i,
                            j,
                        ));
                        if i != si as int {
                            assert(self.nodes@[i] == nsl[i]);
                        } else {
                            assert(self.nodes@[i].links@ == nsl[i].links@);
                            assert(self.nodes@[i].links_len@ == nsl[i].links_len@);
                        }
                    }
                }
            },
            None => {
                proof {
                    assert(t == ln0);
                }
            },
        }
        let ghost nsm = self.nodes@;
        let item = self.nodes[ti].item.take();
        proof {
            assert forall|i: int, j: int|
                0 <= i < ns0.len() && 0 <= j < ns0[i].links@.len() implies #[trigger] unsplice_entry(
                    self.nodes@,
                    ns0,
                    preds@,
                    ranks@,
                    tl,
                    index as int,
                    ti,
                    (ml + 1) as int,
                    i,
                    j,
                ) by {
                assert(unsplice_entry(
                    nsm,
                    ns0,
                    preds@,
                    ranks@,
                    tl,
                    index as int,
                    ti,
                    (ml + 1) as int,
                    i,
                    j,
                ));
                if i != ti as int {
                    assert(self.nodes@[i] == nsm[i]);
                } else {
                    assert(self.nodes@[i].links@ == nsm[i].links@);
                    assert(self.nodes@[i].links_len@ == nsm[i].links_len@);
                }
            }
        }
        self.len = self.len - 1;
        self.order = Ghost(os0.remove(index as int));
        proof {
            lemma_unsplice_ok(
                ns0,
                os0,
                ln0,
                mx,
                preds@,
                ranks@,
                index as int,
                tl,
                ti,
                self.nodes@,
            );
            os0.remove_ensures(index as int);
            assert forall|i: int| 0 <= i < ln0 - 1 implies self@[i] == old(self)@.remove(
                index as int,
            )[i] by {
                if i < index {
                    assert(node_at(self.nodes@, self.order@, i + 1).item == node_at(
                        ns0,
                        os0,
                        i + 1,
                    ).item);
                } else {
                    assert(node_at(self.nodes@, self.order@, i + 1).item == node_at(
                        ns0,
                        os0,
                        i + 2,
                    ).item);
                }
            }
            assert(self@ =~= old(self)@.remove(index as int));
            assert(item == ns0[ti as int].item);
        }
        item.unwrap()
    }
}

/// How one `(slot, level)` link entry stands while the unsplice loop has
/// re-pointed the predecessors of levels `0..upto`: at a level the target
/// reaches, the predecessor's link has taken over the target's link with
/// the two spans merged net of the removed element; at a level above, the
/// crossing link has shrunk by one; every other entry is untouched.
spec fn unsplice_entry<V>(
    nodes: Seq<SkipNode<V>>,
    base: Seq<SkipNode<V>>,
    preds: Seq<usize>,
    ranks: Seq<usize>,
    target_level: int,
    index: int,
    ti: usize,
    upto: int,
    i: int,
    j: int,
) -> bool {
    if 0 <= j < upto && j < preds.len() && i == preds[j] as int {
        if j <= target_level {
            &&& nodes[i].links@[j] == base[ti as int].links@[j]
            &&& nodes[i].links_len@[j] as int == base[i].links_len@[j] + base[ti as int].links_len@[j]
                - 1
        } else {
            &&& nodes[i].links@[j] == base[i].links@[j]
            &&& nodes[i].links_len@[j] as int == base[i].links_len@[j] - 1
        }
    } else {
        &&& nodes[i].links@[j] == base[i].links@[j]
        &&& nodes[i].links_len@[j] == base[i].links_len@[j]
    }
}

/// How one `(slot, level)` link entry stands while the splice loop has
/// re-pointed the predecessors of levels `0..upto`: at a level the new
/// node reaches, the crossing link has been split and now points at the
/// new node with the part of its old span that lies before the splice
/// point (plus the new element); at a level above, the crossing link has
/// grown by one; every other entry is untouched.
spec fn splice_entry<V>(
    nodes: Seq<SkipNode<V>>,
    base: Seq<SkipNode<V>>,
    preds: Seq<usize>,
    ranks: Seq<usize>,
    node_level: int,
    index: int,
    ni: usize,
    upto: int,
    i: int,
    j: int,
) -> bool {
    if 0 <= j < upto && j < preds.len() && i == preds[j] as int {
        if j <= node_level {
            &&& nodes[i].links@[j] == Some(ni)
            &&& nodes[i].links_len@[j] as int == index - ranks[j] + 1
        } else {
            &&& nodes[i].links@[j] == base[i].links@[j]
            &&& nodes[i].links_len@[j] as int == base[i].links_len@[j] + 1
        }
    } else {
        &&& nodes[i].links@[j] == base[i].links@[j]
        &&& nodes[i].links_len@[j] == base[i].links_len@[j]
    }
}

/// Distinct ranks live in distinct arena slots.
proof fn lemma_rank_distinct<V>(
    nodes: Seq<SkipNode<V>>,
    order: Seq<usize>,
    len: int,
    max: int,
    a: int,
    b: int,
)
    requires
        arena_ok(nodes, order, len, max),
        0 <= a < b <= len,
    ensures
        rank_index(order, a) != rank_index(order, b),
{
    if a == 0 {
        assert(1 <= order[b - 1]);
    } else {
        assert(order[a - 1] != order[b - 1]);
    }
}

/// The splice loop of `insert`, run over every level with the recorded
/// predecessors, turns a sound arena of `ln0` elements into a sound
/// arena of `ln0 + 1` elements whose rank `index + 1` is the new node,
/// and moves no value of any other rank.
#[verifier::rlimit(100)]
proof fn lemma_splice_ok<V>(
    ns0: Seq<SkipNode<V>>,
    os0: Seq<usize>,
    ln0: int,
    mx: int,
    preds: Seq<usize>,
    ranks: Seq<usize>,
    index: int,
    node_level: int,
    ni: usize,
    ns2: Seq<SkipNode<V>>,
)
    requires
        arena_ok(ns0, os0, ln0, mx),
        0 <= index <= ln0,
        0 <= node_level <= mx,
        preds.len() == mx + 1,
        ranks.len() == mx + 1,
        forall|k: int|
            0 <= k <= mx ==> pred_at(ns0, os0, ln0, index, #[trigger] ranks[k] as int, k) && preds[k]
                == rank_index(os0, ranks[k] as int),
        ni as int == ns0.len(),
        ns2.len() == ns0.len() + 1,
        ns2[ni as int].item is Some,
        ns2[ni as int].level as int == node_level,
        ns2[ni as int].prev == Some(preds[0]),
        ns2[ni as int].links@.len() == node_level + 1,
        ns2[ni as int].links_len@.len() == node_level + 1,
        forall|j: int|
            0 <= j <= node_level ==> #[trigger] ns2[ni as int].links@[j] == node_at(
                ns0,
                os0,
                ranks[j] as int,
            ).links@[j],
        forall|j: int|
            0 <= j <= node_level ==> #[trigger] ns2[ni as int].links_len@[j] as int == next_rank(
                ns0,
                os0,
                ln0,
                ranks[j] as int,
                j,
            ) - index,
        forall|i: int|
            0 <= i < ns0.len() ==> (#[trigger] ns2[i]).item == ns0[i].item && ns2[i].level == ns0[i].level
                && ns2[i].links@.len() == ns0[i].links@.len() && ns2[i].links_len@.len()
                == ns0[i].links_len@.len(),
        forall|i: int|
            0 <= i < ns0.len() && !(index < ln0 && i == rank_index(os0, index + 1) as int) ==> (
            #[trigger] ns2[i]).prev == ns0[i].prev,
        index < ln0 ==> ns2[rank_index(os0, index + 1) as int].prev == Some(ni),
        forall|i: int, j: int|
            0 <= i < ns0.len() && 0 <= j < ns0[i].links@.len() ==> #[trigger] splice_entry(
                ns2,
                ns0,
                preds,
                ranks,
                node_level,
                index,
                ni,
                mx + 1,
                i,
                j,
            ),
    ensures
        arena_ok(ns2, os0.insert(index, ni), ln0 + 1, mx),
        forall|r: int|
            0 <= r <= index ==> (#[trigger] node_at(ns2, os0.insert(index, ni), r)).item
                == node_at(ns0, os0, r).item,
        node_at(ns2, os0.insert(index, ni), index + 1).item == ns2[ni as int].item,
        forall|r: int|
            index + 1 < r <= ln0 + 1 ==> (#[trigger] node_at(ns2, os0.insert(index, ni), r)).item
                == node_at(ns0, os0, r - 1).item,
{
    let os2 = os0.insert(index, ni);
    let ln2 = ln0 + 1;
    let p = index + 1;
    let nin = ni as int;

    os0.insert_ensures(index, ni);

    // Rank-to-slot maps between the two states.
    assert forall|r: int| 0 <= r <= index implies #[trigger] rank_index(os2, r) == rank_index(
        os0,
        r,
    ) by {}
    assert(rank_index(os2, p) == ni);
    assert forall|r: int| p < r <= ln2 implies #[trigger] rank_index(os2, r) == rank_index(
        os0,
        r - 1,
    ) by {}
    assert forall|r: int| 0 <= r <= ln0 implies (#[trigger] rank_index(os0, r) as int) < ns0.len() by {
        if r > 0 {
            assert(1 <= os0[r - 1] < ns0.len());
        }
    }

    // Levels, items and link-vector shapes carry over rank by rank.
    assert forall|r: int| 0 <= r <= index implies #[trigger] level_at(ns2, os2, r) == level_at(
        ns0,
        os0,
        r,
    ) && (#[trigger] node_at(ns2, os2, r)).item == node_at(ns0, os0, r).item && node_at(ns2, os2, r).links@.len()
        == node_at(ns0, os0, r).links@.len() && node_at(ns2, os2, r).links_len@.len() == node_at(
        ns0,
        os0,
        r,
    ).links_len@.len() by {
        assert(rank_index(os2, r) == rank_index(os0, r));
    }
    assert(level_at(ns2, os2, p) == node_level && node_at(ns2, os2, p) == ns2[nin]);
    assert forall|r: int| p < r <= ln2 implies #[trigger] level_at(ns2, os2, r) == level_at(
        ns0,
        os0,
        r - 1,
    ) && (#[trigger] node_at(ns2, os2, r)).item == node_at(ns0, os0, r - 1).item && node_at(
        ns2,
        os2,
        r,
    ).links@.len() == node_at(ns0, os0, r - 1).links@.len() && node_at(ns2, os2, r).links_len@.len()
        == node_at(ns0, os0, r - 1).links_len@.len() by {
        assert(rank_index(os2, r) == rank_index(os0, r - 1));
    }

    // The ghost order still names distinct live slots.
    assert forall|j: int| 0 <= j < ln2 implies 1 <= #[trigger] os2[j] < ns2.len() by {
        if j < index {
            assert(1 <= os0[j] < ns0.len());
        } else if j > index {
            assert(1 <= os0[j - 1] < ns0.len());
        }
    }
    assert forall|j1: int, j2: int| 0 <= j1 < j2 < ln2 implies os2[j1] != os2[j2] by {
        if j1 < index {
            assert(1 <= os0[j1] < ns0.len());
        }
        if j1 > index {
            assert(1 <= os0[j1 - 1] < ns0.len());
        }
        if j2 < index {
            assert(1 <= os0[j2] < ns0.len());
        }
        if j2 > index {
            assert(1 <= os0[j2 - 1] < ns0.len());
        }
    }

    // Every rank of the new state is a sound node.
    assert forall|r: int| 0 <= r <= ln2 implies #[trigger] node_ok(ns2, os2, ln2, mx, r) by {
        if r == p {
            // The new node itself.
            let nd2 = ns2[nin];
            assert(ranks[0] as int <= index && pred_at(ns0, os0, ln0, index, ranks[0] as int, 0));
            assert(ranks[0] as int == index) by {
                if (ranks[0] as int) < index {
                    assert(next_rank(ns0, os0, ln0, ranks[0] as int, 0) == ranks[0] + 1);
                }
            }
            assert(nd2.prev == Some(rank_index(os2, p - 1)));
            assert forall|kk: int| 0 <= kk <= nd2.level implies link_ok(ns2, os2, ln2, p, kk) by {
                let rk = ranks[kk] as int;
                assert(pred_at(ns0, os0, ln0, index, rk, kk));
                assert(node_ok(ns0, os0, ln0, mx, rk));
                assert(link_ok(ns0, os0, ln0, rk, kk));
                lemma_next_rank_bounds(ns0, os0, ln0, rk, kk);
                let n0 = next_rank(ns0, os0, ln0, rk, kk);
                assert forall|m: int| p < m < n0 + 1 implies level_at(ns2, os2, m) < kk by {
                    assert(level_at(ns2, os2, m) == level_at(ns0, os0, m - 1));
                    assert(rk < m - 1 < n0);
                }
                if n0 <= ln0 {
                    assert(level_at(ns2, os2, n0 + 1) == level_at(ns0, os0, n0));
                }
                lemma_next_rank_is(ns2, os2, ln2, p, kk, n0 + 1);
                assert(nd2.links@[kk] == node_at(ns0, os0, rk).links@[kk]);
                if n0 <= ln0 {
                    assert(rank_index(os2, n0 + 1) == rank_index(os0, n0));
                }
            }
        } else if r <= index {
            // A rank before the splice point: slot and levels unchanged.
            let i = rank_index(os0, r) as int;
            assert(node_ok(ns0, os0, ln0, mx, r));
            let nd0 = node_at(ns0, os0, r);
            if r > 0 {
                if index < ln0 && i == rank_index(os0, p) as int {
                    lemma_rank_distinct(ns0, os0, ln0, mx, r, p);
                }
                assert(ns2[i].prev == nd0.prev);
                assert(rank_index(os2, r - 1) == rank_index(os0, r - 1));
            } else {
                if index < ln0 && i == rank_index(os0, p) as int {
                    assert(1 <= os0[p - 1]);
                }
                assert(ns2[i].prev == nd0.prev);
            }
            assert forall|kk: int| 0 <= kk <= node_at(ns2, os2, r).level implies link_ok(
                ns2,
                os2,
                ln2,
                r,
                kk,
            ) by {
                assert(kk <= nd0.level && nd0.level <= mx);
                let rk = ranks[kk] as int;
                assert(pred_at(ns0, os0, ln0, index, rk, kk));
                assert(link_ok(ns0, os0, ln0, r, kk));
                lemma_next_rank_bounds(ns0, os0, ln0, r, kk);
                let n0 = next_rank(ns0, os0, ln0, r, kk);
                assert(splice_entry(ns2, ns0, preds, ranks, node_level, index, ni, mx + 1, i, kk));
                if i == preds[kk] as int {
                    // `r` is the recorded predecessor at this level.
                    assert(r == rk) by {
                        if r < rk {
                            lemma_rank_distinct(ns0, os0, ln0, mx, r, rk);
                        }
                        if rk < r {
                            lemma_rank_distinct(ns0, os0, ln0, mx, rk, r);
                        }
                    }
                    if kk <= node_level {
                        // The link is split: it now lands on the new node.
                        assert forall|m: int| r < m < p implies level_at(ns2, os2, m) < kk by {
                            assert(level_at(ns2, os2, m) == level_at(ns0, os0, m));
                            assert(r < m < n0);
                        }
                        assert(level_at(ns2, os2, p) == node_level);
                        lemma_next_rank_is(ns2, os2, ln2, r, kk, p);
                        assert(ns2[i].links@[kk] == Some(ni));
                        assert(ns2[i].links_len@[kk] as int == index - rk + 1);
                    } else {
                        // The link is stretched by the new element.
                        assert forall|m: int| r < m < n0 + 1 implies level_at(ns2, os2, m) < kk by {
                            if m <= index {
                                assert(level_at(ns2, os2, m) == level_at(ns0, os0, m));
                                assert(r < m < n0);
                            } else if m == p {
                                assert(level_at(ns2, os2, m) == node_level);
                            } else {
                                assert(level_at(ns2, os2, m) == level_at(ns0, os0, m - 1));
                                assert(r < m - 1 < n0);
                            }
                        }
                        if n0 <= ln0 {
                            assert(level_at(ns2, os2, n0 + 1) == level_at(ns0, os0, n0));
                        }
                        lemma_next_rank_is(ns2, os2, ln2, r, kk, n0 + 1);
                        assert(ns2[i].links@[kk] == ns0[i].links@[kk]);
                        assert(ns2[i].links_len@[kk] as int == ns0[i].links_len@[kk] + 1);
                        if n0 <= ln0 {
                            assert(rank_index(os2, n0 + 1) == rank_index(os0, n0));
                        }
                    }
                } else {
                    // `r` keeps its link: it never crossed the splice point.
                    if n0 > index {
                        if r < rk {
                            assert(level_at(ns0, os0, rk) < kk);
                        } else if rk < r {
                            lemma_next_rank_bounds(ns0, os0, ln0, rk, kk);
                            assert(level_at(ns0, os0, r) < kk);
                        }
                        assert(false);
                    }
                    assert forall|m: int| r < m < n0 implies level_at(ns2, os2, m) < kk by {
                        assert(level_at(ns2, os2, m) == level_at(ns0, os0, m));
                    }
                    assert(level_at(ns2, os2, n0) == level_at(ns0, os0, n0));
                    lemma_next_rank_is(ns2, os2, ln2, r, kk, n0);
                    assert(ns2[i].links@[kk] == ns0[i].links@[kk]);
                    assert(ns2[i].links_len@[kk] == ns0[i].links_len@[kk]);
                    assert(rank_index(os2, n0) == rank_index(os0, n0));
                }
            }
        } else {
            // A rank after the splice point: same slot, rank one higher.
            let r0 = r - 1;
            let i = rank_index(os0, r0) as int;
            assert(node_ok(ns0, os0, ln0, mx, r0));
            let nd0 = node_at(ns0, os0, r0);
            if r == p + 1 {
                assert(ns2[i].prev == Some(ni));
                assert(rank_index(os2, r - 1) == ni);
            } else {
                if index < ln0 && i == rank_index(os0, p) as int {
                    lemma_rank_distinct(ns0, os0, ln0, mx, p, r0);
                }
                assert(ns2[i].prev == nd0.prev);
                assert(rank_index(os2, r - 1) == rank_index(os0, r0 - 1));
            }
            assert forall|kk: int| 0 <= kk <= node_at(ns2, os2, r).level implies link_ok(
                ns2,
                os2,
                ln2,
                r,
                kk,
            ) by {
                assert(kk <= nd0.level && nd0.level <= mx);
                let rk = ranks[kk] as int;
                assert(pred_at(ns0, os0, ln0, index, rk, kk));
                assert(link_ok(ns0, os0, ln0, r0, kk));
                lemma_next_rank_bounds(ns0, os0, ln0, r0, kk);
                let n0 = next_rank(ns0, os0, ln0, r0, kk);
                assert(splice_entry(ns2, ns0, preds, ranks, node_level, index, ni, mx + 1, i, kk));
                assert(i != preds[kk] as int) by {
                    if i == preds[kk] as int {
                        lemma_rank_distinct(ns0, os0, ln0, mx, rk, r0);
                    }
                }
                assert forall|m: int| r < m < n0 + 1 implies level_at(ns2, os2, m) < kk by {
                    assert(level_at(ns2, os2, m) == level_at(ns0, os0, m - 1));
                    assert(r0 < m - 1 < n0);
                }
                if n0 <= ln0 {
                    assert(level_at(ns2, os2, n0 + 1) == level_at(ns0, os0, n0));
                }
                lemma_next_rank_is(ns2, os2, ln2, r, kk, n0 + 1);
                assert(ns2[i].links@[kk] == ns0[i].links@[kk]);
                assert(ns2[i].links_len@[kk] == ns0[i].links_len@[kk]);
                if n0 <= ln0 {
                    assert(rank_index(os2, n0 + 1) == rank_index(os0, n0));
                }
            }
        }
    }
}

/// The unsplice loop of `remove`, run over every level with the recorded
/// predecessors, turns a sound arena of `ln0` elements into a sound
/// arena of `ln0 - 1` elements with the node of rank `index + 1` cut
/// out, and moves no value of any other rank.
#[verifier::rlimit(100)]
proof fn lemma_unsplice_ok<V>(
    ns0: Seq<SkipNode<V>>,
    os0: Seq<usize>,
    ln0: int,
    mx: int,
    preds: Seq<usize>,
    ranks: Seq<usize>,
    index: int,
    tl: int,
    ti: usize,
    ns2: Seq<SkipNode<V>>,
)
    requires
        arena_ok(ns0, os0, ln0, mx),
        0 <= index < ln0,
        ti == rank_index(os0, index + 1),
        tl == level_at(ns0, os0, index + 1),
        preds.len() == mx + 1,
        ranks.len() == mx + 1,
        forall|k: int|
            0 <= k <= mx ==> pred_at(ns0, os0, ln0, index, #[trigger] ranks[k] as int, k) && preds[k]
                == rank_index(os0, ranks[k] as int),
        ns2.len() == ns0.len(),
        forall|i: int|
            0 <= i < ns0.len() ==> (#[trigger] ns2[i]).level == ns0[i].level && ns2[i].links@.len()
                == ns0[i].links@.len() && ns2[i].links_len@.len() == ns0[i].links_len@.len(),
        forall|i: int| 0 <= i < ns0.len() && i != ti as int ==> (#[trigger] ns2[i]).item == ns0[i].item,
        forall|i: int|
            0 <= i < ns0.len() && !(index + 1 < ln0 && i == rank_index(os0, index + 2) as int) ==> (
            #[trigger] ns2[i]).prev == ns0[i].prev,
        index + 1 < ln0 ==> ns2[rank_index(os0, index + 2) as int].prev == Some(
            rank_index(os0, index),
        ),
        forall|i: int, j: int|
            0 <= i < ns0.len() && 0 <= j < ns0[i].links@.len() ==> #[trigger] unsplice_entry(
                ns2,
                ns0,
                preds,
                ranks,
                tl,
                index,
                ti,
                mx + 1,
                i,
                j,
            ),
    ensures
        arena_ok(ns2, os0.remove(index), ln0 - 1, mx),
        forall|r: int|
            0 <= r <= index ==> (#[trigger] node_at(ns2, os0.remove(index), r)).item == node_at(
                ns0,
                os0,
                r,
            ).item,
        forall|r: int|
            index < r <= ln0 - 1 ==> (#[trigger] node_at(ns2, os0.remove(index), r)).item == node_at(
                ns0,
                os0,
                r + 1,
            ).item,
{
    let os2 = os0.remove(index);
    let ln2 = ln0 - 1;
    let t = index + 1;

    os0.remove_ensures(index);

    // Rank-to-slot maps between the two states.
    assert forall|r: int| 0 <= r <= index implies #[trigger] rank_index(os2, r) == rank_index(
        os0,
        r,
    ) by {}
    assert forall|r: int| index < r <= ln2 implies #[trigger] rank_index(os2, r) == rank_index(
        os0,
        r + 1,
    ) by {}
    assert forall|r: int| 0 <= r <= ln0 implies (#[trigger] rank_index(os0, r) as int) < ns0.len() by {
        if r > 0 {
            assert(1 <= os0[r - 1] < ns0.len());
        }
    }

    // The removal target is never a predecessor slot.
    assert forall|k: int| 0 <= k <= mx implies #[trigger] preds[k] != ti by {
        assert(pred_at(ns0, os0, ln0, index, ranks[k] as int, k));
        lemma_rank_distinct(ns0, os0, ln0, mx, ranks[k] as int, t);
    }

    // Levels, items and link-vector shapes carry over rank by rank.
    assert forall|r: int| 0 <= r <= index implies #[trigger] level_at(ns2, os2, r) == level_at(
        ns0,
        os0,
        r,
    ) && (#[trigger] node_at(ns2, os2, r)).item == node_at(ns0, os0, r).item && node_at(
        ns2,
        os2,
        r,
    ).links@.len() == node_at(ns0, os0, r).links@.len() && node_at(ns2, os2, r).links_len@.len()
        == node_at(ns0, os0, r).links_len@.len() by {
        assert(rank_index(os2, r) == rank_index(os0, r));
        if r > 0 {
            lemma_rank_distinct(ns0, os0, ln0, mx, r, t);
        } else {
            assert(1 <= os0[t - 1]);
        }
    }
    assert forall|r: int| index < r <= ln2 implies #[trigger] level_at(ns2, os2, r) == level_at(
        ns0,
        os0,
        r + 1,
    ) && (#[trigger] node_at(ns2, os2, r)).item == node_at(ns0, os0, r + 1).item && node_at(
        ns2,
        os2,
        r,
    ).links@.len() == node_at(ns0, os0, r + 1).links@.len() && node_at(ns2, os2, r).links_len@.len()
        == node_at(ns0, os0, r + 1).links_len@.len() by {
        assert(rank_index(os2, r) == rank_index(os0, r + 1));
        lemma_rank_distinct(ns0, os0, ln0, mx, t, r + 1);
    }

    // The ghost order still names distinct live slots.
    assert forall|j: int| 0 <= j < ln2 implies 1 <= #[trigger] os2[j] < ns2.len() by {
        if j < index {
            assert(1 <= os0[j] < ns0.len());
        } else {
            assert(1 <= os0[j + 1] < ns0.len());
        }
    }
    assert forall|j1: int, j2: int| 0 <= j1 < j2 < ln2 implies os2[j1] != os2[j2] by {
        if j1 < index {
            assert(os2[j1] == os0[j1]);
        } else {
            assert(os2[j1] == os0[j1 + 1]);
        }
        if j2 < index {
            assert(os2[j2] == os0[j2]);
        } else {
            assert(os2[j2] == os0[j2 + 1]);
        }
    }

    // Every rank of the new state is a sound node.
    assert forall|r: int| 0 <= r <= ln2 implies #[trigger] node_ok(ns2, os2, ln2, mx, r) by {
        if r <= index {
            // A rank before the removal point: slot and levels unchanged.
            let i = rank_index(os0, r) as int;
            assert(node_ok(ns0, os0, ln0, mx, r));
            let nd0 = node_at(ns0, os0, r);
            if r > 0 {
                if index + 1 < ln0 && i == rank_index(os0, index + 2) as int {
                    lemma_rank_distinct(ns0, os0, ln0, mx, r, index + 2);
                }
                assert(ns2[i].prev == nd0.prev);
                assert(rank_index(os2, r - 1) == rank_index(os0, r - 1));
            } else {
                if index + 1 < ln0 && i == rank_index(os0, index + 2) as int {
                    assert(1 <= os0[index + 1]);
                }
                assert(ns2[i].prev == nd0.prev);
            }
            assert forall|kk: int| 0 <= kk <= node_at(ns2, os2, r).level implies link_ok(
                ns2,
                os2,
                ln2,
                r,
                kk,
            ) by {
                assert(kk <= nd0.level && nd0.level <= mx);
                let rk = ranks[kk] as int;
                assert(pred_at(ns0, os0, ln0, index, rk, kk));
                assert(link_ok(ns0, os0, ln0, r, kk));
                lemma_next_rank_bounds(ns0, os0, ln0, r, kk);
                let n0 = next_rank(ns0, os0, ln0, r, kk);
                assert(unsplice_entry(ns2, ns0, preds, ranks, tl, index, ti, mx + 1, i, kk));
                if i == preds[kk] as int {
                    // `r` is the recorded predecessor at this level.
                    assert(r == rk) by {
                        if r < rk {
                            lemma_rank_distinct(ns0, os0, ln0, mx, r, rk);
                        }
                        if rk < r {
                            lemma_rank_distinct(ns0, os0, ln0, mx, rk, r);
                        }
                    }
                    if kk <= tl {
                        // The link landed on the target: it takes over the
                        // target's own link, spans merged net of one.
                        assert(n0 == t) by {
                            if n0 > t {
                                assert(level_at(ns0, os0, t) < kk);
                            }
                        }
                        assert(node_ok(ns0, os0, ln0, mx, t));
                        assert(link_ok(ns0, os0, ln0, t, kk));
                        lemma_next_rank_bounds(ns0, os0, ln0, t, kk);
                        let n1 = next_rank(ns0, os0, ln0, t, kk);
                        assert forall|m: int| r < m < n1 - 1 implies level_at(ns2, os2, m) < kk by {
                            if m <= index {
                                assert(level_at(ns2, os2, m) == level_at(ns0, os0, m));
                                assert(r < m < t);
                            } else {
                                assert(level_at(ns2, os2, m) == level_at(ns0, os0, m + 1));
                                assert(t < m + 1 < n1);
                            }
                        }
                        if n1 - 1 <= ln2 {
                            assert(level_at(ns2, os2, n1 - 1) == level_at(ns0, os0, n1));
                        }
                        lemma_next_rank_is(ns2, os2, ln2, r, kk, n1 - 1);
                        assert(ns2[i].links@[kk] == ns0[ti as int].links@[kk]);
                        assert(ns2[i].links_len@[kk] as int == ns0[i].links_len@[kk]
                            + ns0[ti as int].links_len@[kk] - 1);
                        assert(node_at(ns0, os0, t) == ns0[ti as int]);
                        if n1 <= ln0 {
                            assert(rank_index(os2, n1 - 1) == rank_index(os0, n1));
                        }
                    } else {
                        // The link crossed above the target: one shorter.
                        assert(n0 > index);
                        assert(n0 != t) by {
                            if n0 == t {
                                assert(level_at(ns0, os0, t) >= kk);
                            }
                        }
                        assert forall|m: int| r < m < n0 - 1 implies level_at(ns2, os2, m) < kk by {
                            if m <= index {
                                assert(level_at(ns2, os2, m) == level_at(ns0, os0, m));
                                assert(r < m < n0);
                            } else {
                                assert(level_at(ns2, os2, m) == level_at(ns0, os0, m + 1));
                                assert(r < m + 1 < n0);
                            }
                        }
                        if n0 - 1 <= ln2 {
                            assert(level_at(ns2, os2, n0 - 1) == level_at(ns0, os0, n0));
                        }
                        lemma_next_rank_is(ns2, os2, ln2, r, kk, n0 - 1);
                        assert(ns2[i].links@[kk] == ns0[i].links@[kk]);
                        assert(ns2[i].links_len@[kk] as int == ns0[i].links_len@[kk] - 1);
                        if n0 <= ln0 {
                            assert(rank_index(os2, n0 - 1) == rank_index(os0, n0));
                        }
                    }
                } else {
                    // `r` keeps its link: it never crossed the removal point.
                    if n0 > index {
                        if r < rk {
                            assert(level_at(ns0, os0, rk) < kk);
                        } else if rk < r {
                            lemma_next_rank_bounds(ns0, os0, ln0, rk, kk);
                            assert(level_at(ns0, os0, r) < kk);
                        }
                        assert(false);
                    }
                    assert forall|m: int| r < m < n0 implies level_at(ns2, os2, m) < kk by {
                        assert(level_at(ns2, os2, m) == level_at(ns0, os0, m));
                    }
                    assert(level_at(ns2, os2, n0) == level_at(ns0, os0, n0));
                    lemma_next_rank_is(ns2, os2, ln2, r, kk, n0);
                    assert(ns2[i].links@[kk] == ns0[i].links@[kk]);
                    assert(ns2[i].links_len@[kk] == ns0[i].links_len@[kk]);
                    assert(rank_index(os2, n0) == rank_index(os0, n0));
                }
            }
        } else {
            // A rank after the removal point: same slot, rank one lower.
            let r0 = r + 1;
            let i = rank_index(os0, r0) as int;
            assert(node_ok(ns0, os0, ln0, mx, r0));
            let nd0 = node_at(ns0, os0, r0);
            assert(i != ti as int) by {
                lemma_rank_distinct(ns0, os0, ln0, mx, t, r0);
            }
            if r == index + 1 {
                assert(ns2[i].prev == Some(rank_index(os0, index)));
                assert(rank_index(os2, r - 1) == rank_index(os0, index));
            } else {
                if index + 1 < ln0 && i == rank_index(os0, index + 2) as int {
                    lemma_rank_distinct(ns0, os0, ln0, mx, index + 2, r0);
                }
                assert(ns2[i].prev == nd0.prev);
                assert(rank_index(os2, r - 1) == rank_index(os0, r0 - 1));
            }
            assert forall|kk: int| 0 <= kk <= node_at(ns2, os2, r).level implies link_ok(
                ns2,
                os2,
                ln2,
                r,
                kk,
            ) by {
                assert(kk <= nd0.level && nd0.level <= mx);
                let rk = ranks[kk] as int;
                assert(pred_at(ns0, os0, ln0, index, rk, kk));
                assert(link_ok(ns0, os0, ln0, r0, kk));
                lemma_next_rank_bounds(ns0, os0, ln0, r0, kk);
                let n0 = next_rank(ns0, os0, ln0, r0, kk);
                assert(unsplice_entry(ns2, ns0, preds, ranks, tl, index, ti, mx + 1, i, kk));
                assert(i != preds[kk] as int) by {
                    if i == preds[kk] as int {
                        lemma_rank_distinct(ns0, os0, ln0, mx, rk, r0);
                    }
                }
                assert forall|m: int| r < m < n0 - 1 implies level_at(ns2, os2, m) < kk by {
                    assert(level_at(ns2, os2, m) == level_at(ns0, os0, m + 1));
                    assert(r0 < m + 1 < n0);
                }
                if n0 - 1 <= ln2 {
                    assert(level_at(ns2, os2, n0 - 1) == level_at(ns0, os0, n0));
                }
                lemma_next_rank_is(ns2, os2, ln2, r, kk, n0 - 1);
                assert(ns2[i].links@[kk] == ns0[i].links@[kk]);
                assert(ns2[i].links_len@[kk] == ns0[i].links_len@[kk]);
                if n0 <= ln0 {
                    assert(rank_index(os2, n0 - 1) == rank_index(os0, n0));
                }
            }
        }
    }
}

impl<V> SkipList<V> {
    /// A mutable reference to the element at the given index, or `None`
    /// when the index is out of bounds. Writing through the reference
    /// replaces that element in place and disturbs nothing else.
    pub fn get_mut(&mut self, index: usize) -> (r: Option<&mut V>)
        requires
            old(self).wf(),
        ensures
            index < old(self)@.len() ==> r is Some && *r.unwrap() == old(self)@[index as int]
                && final(self).wf() && final(self)@.len() == old(self)@.len()
                && final(self)@[index as int] == *final(r.unwrap()) && (forall|j: int|
                0 <= j < old(self)@.len() && j != index ==> final(self)@[j] == old(self)@[j]),
            index >= old(self)@.len() ==> r is None && *final(self) == *old(self),
    {
        let ghost ns0 = self.nodes@;
        let ghost os0 = self.order@;
        let ghost ln0 = self.len as int;
        let ghost mx = self.level_generator.total as int;
        proof {
            if (index as int) < ln0 {
                lemma_rank_index_in_arena(ns0, os0, ln0, mx, index + 1);
                assert(node_ok(ns0, os0, ln0, mx, index + 1));
            }
        }
        match self.get_index_mut(index) {
            Some(node_ref) => {
                let res = node_ref.item.as_mut();
                proof {
                    let slot = rank_index(os0, index + 1) as int;
                    let nfinal = SkipNode {
                        item: Some(*final(res.unwrap())),
                        level: ns0[slot].level,
                        prev: ns0[slot].prev,
                        links: ns0[slot].links,
                        links_len: ns0[slot].links_len,
                    };
                    lemma_item_update_ok(ns0, os0, ln0, mx, index + 1, ns0.update(slot, nfinal));
                }
                res
            },
            None => None,
        }
    }
}

/// Replacing the value held by one live node disturbs no structural
/// invariant: the links, spans, levels and back-references are exactly
/// those of the original arena.
proof fn lemma_item_update_ok<V>(
    ns0: Seq<SkipNode<V>>,
    os0: Seq<usize>,
    ln0: int,
    mx: int,
    r0: int,
    ns2: Seq<SkipNode<V>>,
)
    requires
        arena_ok(ns0, os0, ln0, mx),
        1 <= r0 <= ln0,
        ns2.len() == ns0.len(),
        forall|i: int|
            0 <= i < ns0.len() && i != rank_index(os0, r0) as int ==> #[trigger] ns2[i] == ns0[i],
        ns2[rank_index(os0, r0) as int].item is Some,
        ns2[rank_index(os0, r0) as int].level == ns0[rank_index(os0, r0) as int].level,
        ns2[rank_index(os0, r0) as int].prev == ns0[rank_index(os0, r0) as int].prev,
        ns2[rank_index(os0, r0) as int].links == ns0[rank_index(os0, r0) as int].links,
        ns2[rank_index(os0, r0) as int].links_len == ns0[rank_index(os0, r0) as int].links_len,
    ensures
        arena_ok(ns2, os0, ln0, mx),
        forall|r: int|
            0 <= r <= ln0 && r != r0 ==> (#[trigger] node_at(ns2, os0, r)).item == node_at(
                ns0,
                os0,
                r,
            ).item,
{
    assert forall|r: int| 0 <= r <= ln0 implies (#[trigger] node_at(ns2, os0, r)).level == node_at(
        ns0,
        os0,
        r,
    ).level by {
        if r > 0 {
            assert(1 <= os0[r - 1] < ns0.len());
        }
    }
    assert forall|r: int, k: int|
        0 <= r <= ln0 implies #[trigger] next_rank(ns2, os0, ln0, r, k) == next_rank(
            ns0,
            os0,
            ln0,
            r,
            k,
        ) by {
        lemma_next_rank_bounds(ns0, os0, ln0, r, k);
        let n0 = next_rank(ns0, os0, ln0, r, k);
        assert forall|m: int| r < m < n0 implies level_at(ns2, os0, m) < k by {
            assert(node_at(ns2, os0, m).level == node_at(ns0, os0, m).level);
            assert(level_at(ns0, os0, m) < k);
        }
        if n0 <= ln0 {
            assert(node_at(ns2, os0, n0).level == node_at(ns0, os0, n0).level);
        }
        lemma_next_rank_is(ns2, os0, ln0, r, k, n0);
    }
    assert forall|r: int| 0 <= r <= ln0 implies #[trigger] node_ok(ns2, os0, ln0, mx, r) by {
        assert(node_ok(ns0, os0, ln0, mx, r));
        if r > 0 {
            assert(1 <= os0[r - 1] < ns0.len());
        }
        let i = rank_index(os0, r) as int;
        assert forall|k: int| 0 <= k <= ns2[i].level implies link_ok(ns2, os0, ln0, r, k) by {
            assert(link_ok(ns0, os0, ln0, r, k));
            assert(next_rank(ns2, os0, ln0, r, k) == next_rank(ns0, os0, ln0, r, k));
        }
    }
    assert forall|r: int|
        0 <= r <= ln0 && r != r0 implies (#[trigger] node_at(ns2, os0, r)).item == node_at(
            ns0,
            os0,
            r,
        ).item by {
        if r == 0 {
            assert(1 <= os0[r0 - 1]);
        } else if r < r0 {
            lemma_rank_distinct(ns0, os0, ln0, mx, r, r0);
        } else {
            lemma_rank_distinct(ns0, os0, ln0, mx, r0, r);
        }
    }
}

/// A live rank's arena slot is inside the arena.
proof fn lemma_rank_index_in_arena<V>(
    nodes: Seq<SkipNode<V>>,
    order: Seq<usize>,
    len: int,
    max: int,
    r: int,
)
    requires
        arena_ok(nodes, order, len, max),
        0 <= r <= len,
    ensures
        (rank_index(order, r) as int) < nodes.len(),
{
}

/// Basic facts about `next_rank`: it moves strictly forward, lands within
/// `len + 1`, skips only nodes of level below `k`, and when it lands on a
/// node at all, that node's level is at least `k`.
proof fn lemma_next_rank_bounds<V>(
    nodes: Seq<SkipNode<V>>,
    order: Seq<usize>,
    len: int,
    r: int,
    k: int,
)
    requires
        0 <= r <= len,
    ensures
        ({
            let n = next_rank(nodes, order, len, r, k);
            &&& r < n <= len + 1
            &&& forall|m: int| r < m < n ==> level_at(nodes, order, m) < k
            &&& (n <= len ==> level_at(nodes, order, n) >= k)
        }),
    decreases len - r,
{
    if r >= len {
    } else if level_at(nodes, order, r + 1) >= k {
    } else {
        lemma_next_rank_bounds(nodes, order, len, r + 1, k);
    }
}

/// `next_rank` is the only rank after `r` that skips exclusively nodes of
/// level below `k` and lands on one of level at least `k` (or one past
/// the end).
proof fn lemma_next_rank_is<V>(
    nodes: Seq<SkipNode<V>>,
    order: Seq<usize>,
    len: int,
    r: int,
    k: int,
    n: int,
)
    requires
        0 <= r <= len,
        r < n <= len + 1,
        forall|m: int| r < m < n ==> level_at(nodes, order, m) < k,
        n <= len ==> level_at(nodes, order, n) >= k,
    ensures
        next_rank(nodes, order, len, r, k) == n,
    decreases n - r,
{
    if r >= len {
    } else if level_at(nodes, order, r + 1) >= k {
        if n > r + 1 {
            assert(level_at(nodes, order, r + 1) < k);
        }
    } else {
        if n == r + 1 {
            assert(false);
        }
        lemma_next_rank_is(nodes, order, len, r + 1, k, n);
    }
}

/// Span consistency, the white-box invariant of the node graph: in a
/// well-formed list, every forward link's span counts exactly the
/// level-0 steps to its landing point, so a node's rank plus
/// `links_len[k]` is the rank of the node `links[k]` points to (or one
/// past the last element when the link is absent). Along any descending
/// search path from the head the accumulated spans therefore always
/// equal the rank reached; in particular every level-0 span is 1 and the
/// level-0 chain visits the ranks one by one.
pub proof fn lemma_span_consistency<V>(list: SkipList<V>, r: int, k: int)
    requires
        list.wf(),
        0 <= r <= list.spec_len(),
        0 <= k <= level_at(list.nodes_seq(), list.order_seq(), r),
    ensures
        ({
            let nodes = list.nodes_seq();
            let order = list.order_seq();
            let len = list.spec_len();
            let n = next_rank(nodes, order, len, r, k);
            let node = node_at(nodes, order, r);
            &&& node.links_len@[k] as int == n - r
            &&& node.links_len@[k] >= 1
            &&& (n <= len ==> node.links@[k] == Some(rank_index(order, n)))
            &&& (n > len ==> node.links@[k] is None && n == len + 1)
            &&& (k == 0 && r < len ==> n == r + 1)
        }),
{
    let nodes = list.nodes_seq();
    let order = list.order_seq();
    let len = list.spec_len();
    let mx = list.level_generator.total as int;
    assert(node_ok(nodes, order, len, mx, r));
    assert(link_ok(nodes, order, len, r, k));
    lemma_next_rank_bounds(nodes, order, len, r, k);
    if k == 0 && r < len {
        assert(next_rank(nodes, order, len, r, 0) == r + 1);
    }
}

/// An arena holding one fresh head and nothing else is a sound empty
/// list.
proof fn lemma_empty_arena_ok<V>(nodes: Seq<SkipNode<V>>, order: Seq<usize>, max: int)
    requires
        nodes.len() == 1,
        order.len() == 0,
        nodes[0].item is None,
        nodes[0].prev is None,
        nodes[0].level as int == max,
        nodes[0].links@.len() == max + 1,
        nodes[0].links_len@.len() == max + 1,
        forall|k: int| 0 <= k <= max ==> nodes[0].links@[k] is None,
        forall|k: int| 0 <= k <= max ==> nodes[0].links_len@[k] == 1,
    ensures
        arena_ok(nodes, order, 0, max),
{
    assert forall|r: int| 0 <= r <= 0 implies #[trigger] node_ok(nodes, order, 0, max, r) by {
        assert forall|k: int| 0 <= k <= nodes[0].level implies link_ok(
            nodes,
            order,
            0,
            0,
            k,
        ) by {
            assert(next_rank(nodes, order, 0, 0, k) == 1);
        }
    }
}

/// `floor(log2(n))` for `n >= 1`, and 0 for `n == 0`, by repeated
/// halving.
fn floor_log2(n: usize) -> (r: usize)
    ensures
        r <= 63,
        n >= 1 ==> pow2(r as nat) <= n < pow2((r + 1) as nat),
        n == 0 ==> r == 0,
{
    let mut m: usize = n;
    let mut r: usize = 0;
    proof {
        assert(pow2(0) == 1) by {
            lemma2_to64();
        }
    }
    while m >= 2
        invariant
            m >= 1 ==> pow2(r as nat) * m <= n < pow2(r as nat) * (m + 1),
            n >= 1 ==> m >= 1,
            m <= n,
            pow2(r as nat) <= n || r == 0,
            n == 0 ==> r == 0,
            r <= 63,
        decreases m,
    {
        proof {
            let p = pow2(r as nat) as int;
            let m0 = m as int;
            vstd::arithmetic::power2::lemma_pow2_pos(r as nat);
            assert(pow2((r + 1) as nat) == 2 * pow2(r as nat)) by {
                vstd::arithmetic::power2::lemma_pow2_unfold((r + 1) as nat);
            }
            assert(2 * p * (m0 / 2) <= p * m0 && p * (m0 + 1) <= 2 * p * (m0 / 2 + 1)) by (nonlinear_arith)
                requires
                    p >= 1,
                    m0 >= 2,
            ;
        }
        m = m / 2;
        r = r + 1;
        proof {
            assert(pow2(r as nat) * 1 <= n) by (nonlinear_arith)
                requires
                    pow2(r as nat) * (m as int) <= n,
                    m >= 1,
            ;
            if r > 63 {
                lemma2_to64();
                lemma_pow2_strictly_increases(64, r as nat);
                assert(usize::MAX <= 0xffffffffffffffff);
                assert(false);
            }
        }
    }
    proof {
        if n >= 1 {
            assert(m == 1);
            assert(pow2(r as nat) * 1 == pow2(r as nat) && pow2(r as nat) * 2 == pow2((r + 1) as nat)) by {
                vstd::arithmetic::power2::lemma_pow2_unfold((r + 1) as nat);
            }
        }
    }
    r
}

} // verus!
