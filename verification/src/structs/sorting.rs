//! Stable sorting of node records by a key.

use crate::structs::node::Node;
use crate::structs::util::HashId;
use vstd::prelude::*;

verus! {

/// What nodes are sorted by.
#[derive(Copy, Clone, Debug)]
pub enum NodeOrder {
    /// The XOR distance of the node's identifier to a target, nearest first.
    Distance(HashId),
    /// The time the node was last heard of, oldest first.
    Age,
}

impl NodeOrder {
    /// The number that the order sorts a node by.
    pub open spec fn key(&self, node: Node) -> int {
        match self {
            NodeOrder::Distance(target) => node.node_id.distance_to(*target) as int,
            NodeOrder::Age => node.last_seen.rank(),
        }
    }

    /// Whether `a` may stand before `b` in this order.
    pub fn not_after(&self, a: &Node, b: &Node) -> (r: bool)
        ensures
            r == (self.key(*a) <= self.key(*b)),
    {
        match self {
            NodeOrder::Distance(target) => {
                let da = a.node_id.xor(target);
                let db = b.node_id.xor(target);
                da.at_most(&db)
            },
            NodeOrder::Age => !b.last_seen.earlier_than(&a.last_seen),
        }
    }
}

/// `sorted` with `node` put behind the last element that may stand before it.
pub open spec fn insert_sorted(sorted: Seq<Node>, node: Node, order: NodeOrder) -> Seq<Node>
    decreases sorted.len(),
{
    if sorted.len() == 0 {
        seq![node]
    } else if order.key(sorted.last()) <= order.key(node) {
        sorted.push(node)
    } else {
        insert_sorted(sorted.drop_last(), node, order).push(sorted.last())
    }
}

/// The nodes in ascending order of their key; nodes of one key keep the
/// order they came in.
pub open spec fn sorted_nodes(nodes: Seq<Node>, order: NodeOrder) -> Seq<Node>
    decreases nodes.len(),
{
    if nodes.len() == 0 {
        Seq::empty()
    } else {
        insert_sorted(sorted_nodes(nodes.drop_last(), order), nodes.last(), order)
    }
}

/// Whether the keys of the nodes never fall from one node to the next.
pub open spec fn ascending(nodes: Seq<Node>, order: NodeOrder) -> bool {
    forall|i: int, j: int| 0 <= i <= j < nodes.len() ==> order.key(nodes[i]) <= order.key(nodes[j])
}

/// Putting a node at `at` is `insert_sorted`, where every node before `at`
/// may stand before it and none from `at` on may.
proof fn lemma_insert_position(sorted: Seq<Node>, node: Node, order: NodeOrder, at: int)
    requires
        0 <= at <= sorted.len(),
        ascending(sorted, order),
        at > 0 ==> order.key(sorted[at - 1]) <= order.key(node),
        forall|j: int| at <= j < sorted.len() ==> order.key(sorted[j]) > order.key(node),
    ensures
        insert_sorted(sorted, node, order) == sorted.insert(at, node),
    decreases sorted.len(),
{
    if sorted.len() == 0 {
        assert(sorted.insert(at, node) =~= seq![node]);
    } else if at == sorted.len() {
        assert(sorted.insert(at, node) =~= sorted.push(node));
    } else {
        let front = sorted.drop_last();
        assert(ascending(front, order));
        lemma_insert_position(front, node, order, at);
        assert(front.insert(at, node).push(sorted.last()) =~= sorted.insert(at, node));
    }
}

/// Inserting keeps an ascending sequence ascending, and adds one node to it.
pub proof fn lemma_insert_sorted(sorted: Seq<Node>, node: Node, order: NodeOrder)
    requires
        ascending(sorted, order),
    ensures
        ascending(insert_sorted(sorted, node, order), order),
        insert_sorted(sorted, node, order).len() == sorted.len() + 1,
        insert_sorted(sorted, node, order).to_multiset() == sorted.to_multiset().insert(node),
    decreases sorted.len(),
{
    broadcast use vstd::seq_lib::group_to_multiset_ensures;

    let result = insert_sorted(sorted, node, order);
    if sorted.len() == 0 {
        assert(seq![node] =~= Seq::<Node>::empty().push(node));
        assert(sorted =~= Seq::<Node>::empty());
    } else if order.key(sorted.last()) <= order.key(node) {
    } else {
        let front = sorted.drop_last();
        let inner = insert_sorted(front, node, order);
        assert(ascending(front, order));
        lemma_insert_sorted(front, node, order);
        assert(sorted =~= front.push(sorted.last()));
        assert forall|i: int| 0 <= i < inner.len() implies order.key(#[trigger] inner[i])
            <= order.key(sorted.last()) by {
            assert(inner.to_multiset().count(inner[i]) > 0);
            if inner[i] != node {
                assert(front.to_multiset().count(inner[i]) > 0);
                let k = choose|k: int| 0 <= k < front.len() && front[k] == inner[i];
                assert(sorted[k] == front[k]);
            }
        }
        assert(result.to_multiset() =~= sorted.to_multiset().insert(node));
    }
}

/// Sorting puts the nodes in ascending order and neither adds nor drops
/// a node.
pub proof fn lemma_sorted_nodes(nodes: Seq<Node>, order: NodeOrder)
    ensures
        ascending(sorted_nodes(nodes, order), order),
        sorted_nodes(nodes, order).len() == nodes.len(),
        sorted_nodes(nodes, order).to_multiset() == nodes.to_multiset(),
    decreases nodes.len(),
{
    broadcast use vstd::seq_lib::group_to_multiset_ensures;

    if nodes.len() == 0 {
        assert(nodes =~= Seq::<Node>::empty());
    } else {
        let front = nodes.drop_last();
        lemma_sorted_nodes(front, order);
        lemma_insert_sorted(sorted_nodes(front, order), nodes.last(), order);
        assert(nodes =~= front.push(nodes.last()));
    }
}

/// Sorts the nodes by `order`, keeping nodes of one key in the order they
/// came in.
pub fn sort_nodes(nodes: &Vec<Node>, order: &NodeOrder) -> (sorted: Vec<Node>)
    ensures
        sorted@ == sorted_nodes(nodes@, *order),
        ascending(sorted@, *order),
        sorted@.len() == nodes@.len(),
        sorted@.to_multiset() == nodes@.to_multiset(),
{
    let mut sorted: Vec<Node> = Vec::new();
    let mut i: usize = 0;
    while i < nodes.len()
        invariant
            i <= nodes.len(),
            sorted@ == sorted_nodes(nodes@.take(i as int), *order),
            ascending(sorted@, *order),
            sorted@.len() == i,
        decreases nodes.len() - i,
    {
        let node = nodes[i];
        let mut at: usize = sorted.len();
        while at > 0 && !order.not_after(&sorted[at - 1], &node)
            invariant
                at <= sorted.len(),
                forall|j: int| at <= j < sorted.len() ==> order.key(sorted@[j]) > order.key(node),
            decreases at,
        {
            at -= 1;
        }
        proof {
            lemma_insert_position(sorted@, node, *order, at as int);
            lemma_insert_sorted(sorted@, node, *order);
            assert(nodes@.take(i + 1).drop_last() =~= nodes@.take(i as int));
        }
        sorted.insert(at, node);
        i += 1;
    }
    proof {
        assert(nodes@.take(i as int) =~= nodes@);
        lemma_sorted_nodes(nodes@, *order);
    }
    sorted
}

} // verus!
