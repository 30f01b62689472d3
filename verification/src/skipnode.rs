use vstd::prelude::*;

verus! {

/// One slot of the list: either the sentinel head or a node holding a
/// value.
///
/// Nodes live in an arena owned by the list, and every reference between
/// nodes is an arena index. A node of level `n` takes part in the forward
/// chains of levels `0..=n`: `links[k]` is the index of the next node of
/// level at least `k`, if any, and `links_len[k]` is that link's span, the
/// number of level-0 steps it jumps over. When `links[k]` is absent the
/// span still records the distance to one past the last element. The
/// level-0 links thread every node in sequence order, so every level-0
/// span is 1; `prev` walks that chain backwards and is absent exactly on
/// the head.
#[derive(Clone, Debug)]
pub struct SkipNode<V> {
    /// Held value; absent exactly on the sentinel head.
    pub item: Option<V>,
    /// Height of the node: it carries forward links at levels `0..=level`.
    pub level: usize,
    /// Arena index of the immediately preceding node, if any.
    pub prev: Option<usize>,
    /// Forward links, one per level `0..=level`: arena index of the next
    /// node of at least that level.
    pub links: Vec<Option<usize>>,
    /// Span of each forward link, in level-0 steps.
    pub links_len: Vec<usize>,
}

impl<V> SkipNode<V> {
    /// A fresh sentinel head of the given height, as it stands in an empty
    /// list: no value, no predecessor, every link absent with span 1 (the
    /// distance from rank 0 to one past the last element of an empty
    /// list).
    pub fn head(total: usize) -> (r: SkipNode<V>)
        requires
            total < usize::MAX,
        ensures
            r.item is None,
            r.level == total,
            r.prev is None,
            r.links@.len() == total + 1,
            r.links_len@.len() == total + 1,
            forall|k: int| 0 <= k <= total ==> r.links@[k] is None,
            forall|k: int| 0 <= k <= total ==> r.links_len@[k] == 1,
    {
        let mut links: Vec<Option<usize>> = Vec::new();
        let mut links_len: Vec<usize> = Vec::new();
        let mut i: usize = 0;
        while i < total + 1
            invariant
                i <= total + 1,
                total < usize::MAX,
                links@.len() == i,
                links_len@.len() == i,
                forall|k: int| 0 <= k < i ==> links@[k] is None,
                forall|k: int| 0 <= k < i ==> links_len@[k] == 1,
            decreases total + 1 - i,
        {
            links.push(None);
            links_len.push(1);
            i = i + 1;
        }
        SkipNode { item: None, level: total, prev: None, links, links_len }
    }
}

} // verus!
