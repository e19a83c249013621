//! The routing table: buckets that divide the identifier space.
//!
//! The buckets stand in ascending order of their upper boundaries. A bucket
//! holds the nodes whose identifiers lie above the boundary of the bucket
//! before it and at most at its own; the last boundary is the largest
//! identifier, so every identifier has exactly one bucket.

use crate::structs::bucket::{lemma_filter_next, Bucket, BucketView};
use crate::structs::node::Node;
use crate::structs::sorting::{ascending, sort_nodes, sorted_nodes, NodeOrder};
use crate::structs::time::{current_time, Timestamp};
use crate::structs::util::{lemma_agree_everywhere, lemma_order_total, lemma_smaller_at, HashId};
use vstd::prelude::*;

verus! {

/// The number of nodes that a search for the closest nodes returns at most.
pub const CLOSEST_NODES: usize = 8;

/// The smallest number that an identifier in bucket `i` may stand for.
pub open spec fn lower_bound(t: Seq<BucketView>, i: int) -> int {
    if i == 0 {
        0
    } else {
        t[i - 1].upper_boundary.value() as int + 1
    }
}

/// The buckets divide the identifier space: their boundaries rise strictly
/// up to the largest identifier, and each holds at most eight nodes, all
/// within its range.
pub open spec fn table_wf(t: Seq<BucketView>) -> bool {
    &&& t.len() >= 1
    &&& t.last().upper_boundary == HashId::max()
    &&& forall|i: int, j: int|
        0 <= i < j < t.len() ==> (#[trigger] t[i]).upper_boundary.value() < (
        #[trigger] t[j]).upper_boundary.value()
    &&& forall|i: int| 0 <= i < t.len() ==> (#[trigger] t[i]).wf()
    &&& forall|i: int, k: int|
        0 <= i < t.len() && 0 <= k < t[i].nodes.len() ==> lower_bound(t, i) <= (
        #[trigger] t[i].nodes[k]).node_id.value()
}

/// Bucket `i` is the first whose boundary is not below the identifier.
pub open spec fn covers_first(t: Seq<BucketView>, id: HashId, i: int) -> bool {
    &&& 0 <= i < t.len()
    &&& t[i].covers(id)
    &&& forall|j: int| 0 <= j < i ==> !(#[trigger] t[j]).covers(id)
}

/// The place of the bucket that the identifier belongs to.
pub open spec fn index_of(t: Seq<BucketView>, id: HashId) -> int {
    choose|i: int| covers_first(t, id, i)
}

/// The table after the bucket of `id` was divided at `id`, at `now`: a new
/// bucket up to `id` takes the nodes that are at most `id` and stands
/// before the old one, which keeps the others. Where `id` is the bucket's
/// boundary already, nothing can be divided off and the table stays.
pub open spec fn split_table(t: Seq<BucketView>, id: HashId, now: Timestamp) -> Seq<BucketView> {
    let i = index_of(t, id);
    if t[i].upper_boundary == id {
        t
    } else {
        let low = BucketView {
            upper_boundary: id,
            nodes: t[i].nodes.filter(|n: Node| n.node_id.value() <= id.value()),
            last_changed: now,
        };
        let high = BucketView {
            nodes: t[i].nodes.filter(|n: Node| !(n.node_id.value() <= id.value())),
            ..t[i]
        };
        t.update(i, high).insert(i, low)
    }
}

/// The table after `node` was put into its bucket at `now`.
pub open spec fn with_node(t: Seq<BucketView>, node: Node, now: Timestamp) -> Seq<BucketView> {
    let i = index_of(t, node.node_id);
    t.update(i, t[i].inserted(node, now))
}

/// The table after an attempt to insert `node` at `now`. A bucket with
/// room takes the node. A full bucket that also covers `our_id` is divided
/// at `our_id`, and the node goes to its bucket if that now has room.
/// Otherwise the node is dropped.
pub open spec fn try_inserted(
    t: Seq<BucketView>,
    our_id: HashId,
    node: Node,
    now: Timestamp,
) -> Seq<BucketView> {
    let i = index_of(t, node.node_id);
    if !t[i].is_full() {
        with_node(t, node, now)
    } else if index_of(t, our_id) == i {
        let divided = split_table(t, our_id, now);
        if !divided[index_of(divided, node.node_id)].is_full() {
            with_node(divided, node, now)
        } else {
            divided
        }
    } else {
        t
    }
}

/// The table after attempts to insert the nodes at `now`, one after the
/// other.
pub open spec fn all_inserted(
    t: Seq<BucketView>,
    our_id: HashId,
    nodes: Seq<Node>,
    now: Timestamp,
) -> Seq<BucketView>
    decreases nodes.len(),
{
    if nodes.len() == 0 {
        t
    } else {
        try_inserted(all_inserted(t, our_id, nodes.drop_last(), now), our_id, nodes.last(), now)
    }
}

/// Attempts to insert nodes keep the table a division of the space.
pub proof fn lemma_all_inserted_keeps_wf(
    t: Seq<BucketView>,
    our_id: HashId,
    nodes: Seq<Node>,
    now: Timestamp,
)
    requires
        table_wf(t),
    ensures
        table_wf(all_inserted(t, our_id, nodes, now)),
    decreases nodes.len(),
{
    if nodes.len() > 0 {
        lemma_all_inserted_keeps_wf(t, our_id, nodes.drop_last(), now);
        lemma_try_insert_keeps_wf(
            all_inserted(t, our_id, nodes.drop_last(), now),
            our_id,
            nodes.last(),
            now,
        );
    }
}

/// The table after the node with the identifier was heard of at `now`.
pub open spec fn touched_table(t: Seq<BucketView>, id: HashId, now: Timestamp) -> Seq<BucketView> {
    let i = index_of(t, id);
    t.update(i, t[i].touched(id, now))
}

/// The nodes of bucket `i`, and none where there is no such bucket.
pub open spec fn nodes_at(t: Seq<BucketView>, i: int) -> Seq<Node> {
    if 0 <= i < t.len() {
        t[i].nodes
    } else {
        Seq::empty()
    }
}

/// The nodes of the buckets at most `reach` places from `start`: those of
/// `start` first, then by rising distance, the bucket above before the
/// bucket below.
pub open spec fn sweep(t: Seq<BucketView>, start: int, reach: nat) -> Seq<Node>
    decreases reach,
{
    if reach == 0 {
        nodes_at(t, start)
    } else {
        sweep(t, start, (reach - 1) as nat) + nodes_at(t, start + reach) + nodes_at(
            t,
            start - reach,
        )
    }
}

/// The nodes of all buckets, in the order in which a search that starts
/// at the bucket of `id` meets them.
pub open spec fn candidates(t: Seq<BucketView>, id: HashId) -> Seq<Node> {
    sweep(t, index_of(t, id), (t.len() - 1) as nat)
}

/// The up to eight nodes of the table that are closest to `id`, nearest
/// first.
pub open spec fn closest_nodes(t: Seq<BucketView>, id: HashId) -> Seq<Node> {
    let sorted = sorted_nodes(candidates(t, id), NodeOrder::Distance(id));
    if sorted.len() <= 8 {
        sorted
    } else {
        sorted.take(8)
    }
}

/// No identifier is above the largest.
pub proof fn lemma_max_is_largest(id: HashId)
    ensures
        id.value() <= HashId::max().value(),
{
    let max = HashId::max();
    if id != max {
        if forall|j: int| 0 <= j < 20 ==> id@[j] == max@[j] {
            lemma_agree_everywhere(id, max);
        }
        let k = choose|k: int| 0 <= k < 20 && id@[k] != max@[k];
        lemma_first_below_max(id, 20);
    }
}

proof fn lemma_first_below_max(id: HashId, n: int)
    requires
        0 <= n <= 20,
        exists|k: int| 0 <= k < n && id@[k] != HashId::max()@[k],
    ensures
        id.value() < HashId::max().value(),
    decreases n,
{
    let max = HashId::max();
    if exists|k: int| 0 <= k < n - 1 && id@[k] != max@[k] {
        lemma_first_below_max(id, n - 1);
    } else {
        assert(id@[n - 1] != max@[n - 1]);
        assert(max@[n - 1] == 255);
        lemma_smaller_at(id, max, (n - 1) as usize);
    }
}

/// In a table that divides the space, every identifier has its bucket,
/// and only one.
pub proof fn lemma_index_of(t: Seq<BucketView>, id: HashId)
    requires
        table_wf(t),
    ensures
        covers_first(t, id, index_of(t, id)),
        forall|i: int| covers_first(t, id, i) ==> i == index_of(t, id),
        lower_bound(t, index_of(t, id)) <= id.value() <= t[index_of(t, id)].upper_boundary.value(),
{
    lemma_max_is_largest(id);
    assert(t[t.len() - 1].covers(id));
    lemma_first_cover(t, id, t.len() as int);
    let i = index_of(t, id);
    assert forall|j: int| covers_first(t, id, j) implies j == i by {
        if j < i {
            assert(!t[j].covers(id));
        }
        if i < j {
            assert(!t[i].covers(id));
        }
    }
    if i > 0 {
        assert(!t[i - 1].covers(id));
    }
}

proof fn lemma_first_cover(t: Seq<BucketView>, id: HashId, n: int)
    requires
        0 <= n <= t.len(),
        exists|i: int| 0 <= i < n && (#[trigger] t[i]).covers(id),
    ensures
        exists|i: int| covers_first(t, id, i),
    decreases n,
{
    if exists|i: int| 0 <= i < n - 1 && (#[trigger] t[i]).covers(id) {
        lemma_first_cover(t, id, n - 1);
    } else {
        assert(t[n - 1].covers(id));
        assert(covers_first(t, id, n - 1));
    }
}

/// The nodes that a filter keeps were among the nodes it was given.
proof fn lemma_filter_keeps(s: Seq<Node>, pred: spec_fn(Node) -> bool, k: int)
    requires
        0 <= k < s.filter(pred).len(),
    ensures
        pred(s.filter(pred)[k]),
        exists|m: int| 0 <= m < s.len() && s[m] == s.filter(pred)[k],
        s.filter(pred).len() <= s.len(),
    decreases s.len(),
{
    reveal(Seq::filter);
    if s.len() > 0 {
        let front = s.drop_last();
        if k < front.filter(pred).len() {
            lemma_filter_keeps(front, pred, k);
            let m = choose|m: int| 0 <= m < front.len() && front[m] == front.filter(pred)[k];
            assert(s[m] == front[m]);
        } else {
            assert(s[s.len() - 1] == s.filter(pred)[k]);
        }
        s.lemma_filter_len(pred);
    }
}

/// Dividing a bucket keeps the table a division of the space.
pub proof fn lemma_split_keeps_wf(t: Seq<BucketView>, id: HashId, now: Timestamp)
    requires
        table_wf(t),
    ensures
        table_wf(split_table(t, id, now)),
        split_table(t, id, now).len() == if t[index_of(t, id)].upper_boundary == id {
            t.len()
        } else {
            t.len() + 1
        },
{
    lemma_index_of(t, id);
    let i = index_of(t, id);
    let s = split_table(t, id, now);
    if t[i].upper_boundary != id {
        let below = |n: Node| n.node_id.value() <= id.value();
        let above = |n: Node| !(n.node_id.value() <= id.value());
        let low = s[i];
        let high = s[i + 1];
        assert(low.nodes == t[i].nodes.filter(below));
        assert(high.nodes == t[i].nodes.filter(above));
        lemma_order_total(id, t[i].upper_boundary);
        assert forall|a: int| 0 <= a < s.len() implies #[trigger] s[a].upper_boundary.value() == (if a
            < i {
            t[a].upper_boundary.value()
        } else if a == i {
            id.value()
        } else {
            t[a - 1].upper_boundary.value()
        }) by {}
        assert forall|a: int, b: int| 0 <= a < b < s.len() implies (#[trigger] s[a]).upper_boundary.value()
            < (#[trigger] s[b]).upper_boundary.value() by {
            let ta = if a <= i { a } else { a - 1 };
            let tb = if b <= i { b } else { b - 1 };
            if a < i {
                assert(!t[a].covers(id));
            }
            if ta < tb {
                assert(t[ta].upper_boundary.value() < t[tb].upper_boundary.value());
            }
        }
        t[i].nodes.lemma_filter_len(below);
        t[i].nodes.lemma_filter_len(above);
        assert forall|a: int| 0 <= a < s.len() implies (#[trigger] s[a]).wf() by {
            if a == i {
                assert forall|k: int| 0 <= k < low.nodes.len() implies (#[trigger] low.nodes[k]).node_id.value()
                    <= id.value() by {
                    lemma_filter_keeps(t[i].nodes, below, k);
                }
            } else if a == i + 1 {
                assert forall|k: int| 0 <= k < high.nodes.len() implies (
                #[trigger] high.nodes[k]).node_id.value() <= t[i].upper_boundary.value() by {
                    lemma_filter_keeps(t[i].nodes, above, k);
                    let m = choose|m: int|
                        0 <= m < t[i].nodes.len() && t[i].nodes[m] == t[i].nodes.filter(above)[k];
                    assert(t[i].wf());
                    assert(t[i].nodes[m].node_id.value() <= t[i].upper_boundary.value());
                }
            } else if a < i {
                assert(s[a] == t[a]);
                assert(t[a].wf());
            } else {
                assert(s[a] == t[a - 1]);
                assert(t[a - 1].wf());
            }
        }
        assert forall|a: int, k: int| 0 <= a < s.len() && 0 <= k < s[a].nodes.len() implies lower_bound(
            s,
            a,
        ) <= (#[trigger] s[a].nodes[k]).node_id.value() by {
            if a == i {
                lemma_filter_keeps(t[i].nodes, below, k);
                let m = choose|m: int|
                    0 <= m < t[i].nodes.len() && t[i].nodes[m] == t[i].nodes.filter(below)[k];
                assert(lower_bound(t, i) <= t[i].nodes[m].node_id.value());
            } else if a == i + 1 {
                lemma_filter_keeps(t[i].nodes, above, k);
            } else if a < i {
                assert(s[a] == t[a]);
                assert(lower_bound(t, a) <= t[a].nodes[k].node_id.value());
            } else {
                assert(s[a] == t[a - 1]);
                assert(lower_bound(t, a - 1) <= t[a - 1].nodes[k].node_id.value());
            }
        }
        assert(s.last().upper_boundary == t.last().upper_boundary);
    }
}

/// The nodes that a predicate keeps and the nodes that it drops are,
/// together, the nodes.
proof fn lemma_filter_parts(nodes: Seq<Node>, kept: spec_fn(Node) -> bool, dropped: spec_fn(Node) -> bool)
    requires
        forall|n: Node| #[trigger] dropped(n) == !kept(n),
    ensures
        nodes.filter(kept).to_multiset().add(nodes.filter(dropped).to_multiset())
            == nodes.to_multiset(),
    decreases nodes.len(),
{
    broadcast use vstd::seq_lib::group_to_multiset_ensures;

    reveal(Seq::filter);
    if nodes.len() == 0 {
        assert(nodes.filter(kept).to_multiset().add(nodes.filter(dropped).to_multiset())
            =~= nodes.to_multiset());
    } else {
        let front = nodes.drop_last();
        lemma_filter_parts(front, kept, dropped);
        assert(nodes =~= front.push(nodes.last()));
        assert(dropped(nodes.last()) == !kept(nodes.last()));
        assert(nodes.filter(kept).to_multiset().add(nodes.filter(dropped).to_multiset())
            =~= nodes.to_multiset());
    }
}

/// Dividing a bucket loses no node and makes none: the two buckets hold,
/// together, the nodes of the bucket that was divided, and every other
/// bucket stays as it is.
pub proof fn lemma_split_keeps_nodes(t: Seq<BucketView>, id: HashId, now: Timestamp)
    requires
        table_wf(t),
        t[index_of(t, id)].upper_boundary != id,
    ensures
        ({
            let i = index_of(t, id);
            let s = split_table(t, id, now);
            &&& s[i].nodes.to_multiset().add(s[i + 1].nodes.to_multiset())
                == t[i].nodes.to_multiset()
            &&& forall|a: int| 0 <= a < i ==> s[a] == t[a]
            &&& forall|a: int| i + 1 < a < s.len() ==> s[a] == t[a - 1]
        }),
{
    lemma_index_of(t, id);
    let i = index_of(t, id);
    lemma_filter_parts(
        t[i].nodes,
        |n: Node| n.node_id.value() <= id.value(),
        |n: Node| !(n.node_id.value() <= id.value()),
    );
}

/// Putting a node into its bucket, where that has room, keeps the table a
/// division of the space.
pub proof fn lemma_with_node_keeps_wf(t: Seq<BucketView>, node: Node, now: Timestamp)
    requires
        table_wf(t),
        !t[index_of(t, node.node_id)].is_full(),
    ensures
        table_wf(with_node(t, node, now)),
{
    lemma_index_of(t, node.node_id);
    let i = index_of(t, node.node_id);
    let s = with_node(t, node, now);
    assert forall|a: int| 0 <= a < s.len() implies #[trigger] s[a].upper_boundary == t[a].upper_boundary by {}
    assert forall|a: int, b: int| 0 <= a < b < s.len() implies (#[trigger] s[a]).upper_boundary.value()
        < (#[trigger] s[b]).upper_boundary.value() by {
        assert(t[a].upper_boundary.value() < t[b].upper_boundary.value());
    }
    assert forall|a: int| 0 <= a < s.len() implies (#[trigger] s[a]).wf() by {
        assert(t[a].wf());
        if a == i {
            assert forall|k: int| 0 <= k < s[a].nodes.len() implies (#[trigger] s[a].nodes[k]).node_id.value()
                <= s[a].upper_boundary.value() by {
                if k < t[a].nodes.len() {
                    assert(s[a].nodes[k] == t[a].nodes[k]);
                }
            }
        }
    }
    assert forall|a: int, k: int| 0 <= a < s.len() && 0 <= k < s[a].nodes.len() implies lower_bound(
        s,
        a,
    ) <= (#[trigger] s[a].nodes[k]).node_id.value() by {
        assert(lower_bound(s, a) == lower_bound(t, a));
        if a == i && k == t[a].nodes.len() {
        } else {
            assert(s[a].nodes[k] == t[a].nodes[k]);
            assert(lower_bound(t, a) <= t[a].nodes[k].node_id.value());
        }
    }
}

/// An attempt to insert a node keeps the table a division of the space.
pub proof fn lemma_try_insert_keeps_wf(t: Seq<BucketView>, our_id: HashId, node: Node, now: Timestamp)
    requires
        table_wf(t),
    ensures
        table_wf(try_inserted(t, our_id, node, now)),
{
    let i = index_of(t, node.node_id);
    if !t[i].is_full() {
        lemma_with_node_keeps_wf(t, node, now);
    } else if index_of(t, our_id) == i {
        let divided = split_table(t, our_id, now);
        lemma_split_keeps_wf(t, our_id, now);
        if !divided[index_of(divided, node.node_id)].is_full() {
            lemma_with_node_keeps_wf(divided, node, now);
        }
    }
}

/// Hearing of a node keeps the table a division of the space.
pub proof fn lemma_touch_keeps_wf(t: Seq<BucketView>, id: HashId, now: Timestamp)
    requires
        table_wf(t),
    ensures
        table_wf(touched_table(t, id, now)),
{
    lemma_index_of(t, id);
    let i = index_of(t, id);
    let s = touched_table(t, id, now);
    assert forall|a: int| 0 <= a < s.len() implies #[trigger] s[a].upper_boundary == t[a].upper_boundary
        && s[a].nodes.len() == t[a].nodes.len() by {}
    assert forall|a: int, k: int| 0 <= a < s.len() && 0 <= k < s[a].nodes.len() implies (
    #[trigger] s[a].nodes[k]).node_id == t[a].nodes[k].node_id by {}
    assert forall|a: int, b: int| 0 <= a < b < s.len() implies (#[trigger] s[a]).upper_boundary.value()
        < (#[trigger] s[b]).upper_boundary.value() by {
        assert(t[a].upper_boundary.value() < t[b].upper_boundary.value());
    }
    assert forall|a: int| 0 <= a < s.len() implies (#[trigger] s[a]).wf() by {
        assert(t[a].wf());
        assert forall|k: int| 0 <= k < s[a].nodes.len() implies (#[trigger] s[a].nodes[k]).node_id.value()
            <= s[a].upper_boundary.value() by {
            assert(t[a].nodes[k].node_id.value() <= t[a].upper_boundary.value());
        }
    }
    assert forall|a: int, k: int| 0 <= a < s.len() && 0 <= k < s[a].nodes.len() implies lower_bound(
        s,
        a,
    ) <= (#[trigger] s[a].nodes[k]).node_id.value() by {
        assert(lower_bound(s, a) == lower_bound(t, a));
        assert(lower_bound(t, a) <= t[a].nodes[k].node_id.value());
    }
}

/// The closest nodes are at most eight, and stand nearest first.
pub proof fn lemma_closest_nodes(t: Seq<BucketView>, id: HashId)
    ensures
        closest_nodes(t, id).len() <= 8,
        ascending(closest_nodes(t, id), NodeOrder::Distance(id)),
        forall|i: int, j: int|
            0 <= i <= j < closest_nodes(t, id).len() ==> closest_nodes(t, id)[i].node_id.distance_to(id)
                <= closest_nodes(t, id)[j].node_id.distance_to(id),
{
    crate::structs::sorting::lemma_sorted_nodes(candidates(t, id), NodeOrder::Distance(id));
    let sorted = sorted_nodes(candidates(t, id), NodeOrder::Distance(id));
    let closest = closest_nodes(t, id);
    assert forall|i: int, j: int| 0 <= i <= j < closest.len() implies NodeOrder::Distance(id).key(
        closest[i],
    ) <= NodeOrder::Distance(id).key(closest[j]) by {
        assert(closest[i] == sorted[i] && closest[j] == sorted[j]);
    }
}

/// What the buckets hold, as plain values.
pub open spec fn views_of(buckets: Seq<Bucket>) -> Seq<BucketView> {
    buckets.map_values(|b: Bucket| b@)
}

/// The nodes of every bucket within reach stand among the nodes that the
/// sweep meets.
proof fn lemma_sweep_holds(t: Seq<BucketView>, start: int, reach: nat, i: int, k: int)
    requires
        0 <= i < t.len(),
        0 <= k < t[i].nodes.len(),
        i - start <= reach,
        start - i <= reach,
    ensures
        sweep(t, start, reach).contains(t[i].nodes[k]),
    decreases reach,
{
    let node = t[i].nodes[k];
    if reach == 0 {
        assert(sweep(t, start, reach)[k] == node);
    } else {
        let before = sweep(t, start, (reach - 1) as nat);
        let above = nodes_at(t, start + reach);
        let below = nodes_at(t, start - reach);
        let all = sweep(t, start, reach);
        assert(all == before + above + below);
        if i - start < reach && start - i < reach {
            lemma_sweep_holds(t, start, (reach - 1) as nat, i, k);
            let at = choose|at: int| 0 <= at < before.len() && before[at] == node;
            assert(all[at] == node);
        } else if i == start + reach {
            assert(all[before.len() + k] == node);
        } else {
            assert(all[before.len() + above.len() + k] == node);
        }
    }
}

/// Every node of the table stands among the closest nodes, or is at least
/// as far from the target as each of the eight closest.
pub proof fn lemma_closest_are_nearest(t: Seq<BucketView>, id: HashId, i: int, k: int)
    requires
        table_wf(t),
        0 <= i < t.len(),
        0 <= k < t[i].nodes.len(),
    ensures
        closest_nodes(t, id).contains(t[i].nodes[k]) || (closest_nodes(t, id).len() == 8
            && forall|j: int|
            0 <= j < 8 ==> (#[trigger] closest_nodes(t, id)[j]).node_id.distance_to(id)
                <= t[i].nodes[k].node_id.distance_to(id)),
{
    broadcast use vstd::seq_lib::group_to_multiset_ensures;

    let node = t[i].nodes[k];
    let order = NodeOrder::Distance(id);
    let nodes = candidates(t, id);
    let sorted = sorted_nodes(nodes, order);
    let closest = closest_nodes(t, id);
    lemma_index_of(t, id);
    lemma_sweep_holds(t, index_of(t, id), (t.len() - 1) as nat, i, k);
    crate::structs::sorting::lemma_sorted_nodes(nodes, order);
    assert(nodes.to_multiset().count(node) > 0);
    assert(sorted.contains(node));
    let at = choose|at: int| 0 <= at < sorted.len() && sorted[at] == node;
    if sorted.len() <= 8 {
    } else if at < 8 {
        assert(closest[at] == node);
    } else {
        assert forall|j: int| 0 <= j < 8 implies (#[trigger] closest[j]).node_id.distance_to(id)
            <= node.node_id.distance_to(id) by {
            assert(closest[j] == sorted[j]);
            assert(order.key(sorted[j]) <= order.key(sorted[at]));
        }
    }
}

/// Hearing of a node twice leaves the table as hearing of it once at the
/// later time does.
pub proof fn lemma_touch_table_twice(
    t: Seq<BucketView>,
    id: HashId,
    first: Timestamp,
    second: Timestamp,
)
    requires
        table_wf(t),
    ensures
        touched_table(touched_table(t, id, first), id, second) == touched_table(t, id, second),
{
    let once = touched_table(t, id, first);
    let i = index_of(t, id);
    lemma_index_of(t, id);
    lemma_touch_keeps_wf(t, id, first);
    lemma_index_of(once, id);
    assert(covers_first(once, id, i)) by {
        assert forall|j: int| 0 <= j < i implies !(#[trigger] once[j]).covers(id) by {
            assert(!t[j].covers(id));
        }
    }
    crate::structs::bucket::lemma_touch_twice(t[i], id, first, second);
    assert(touched_table(once, id, second) =~= touched_table(t, id, second));
}

/// Boundaries that rise from each bucket to the next rise from each
/// bucket to every later one.
proof fn lemma_adjacent_rise(t: Seq<BucketView>, a: int, b: int)
    requires
        0 <= a < b < t.len(),
        forall|i: int| 0 < i < t.len() ==> (#[trigger] t[i - 1]).upper_boundary.value()
            < t[i].upper_boundary.value(),
    ensures
        t[a].upper_boundary.value() < t[b].upper_boundary.value(),
    decreases b - a,
{
    if a + 1 < b {
        lemma_adjacent_rise(t, a, b - 1);
    }
    assert(t[b - 1].upper_boundary.value() < t[b].upper_boundary.value());
}

/// The routing table.
#[derive(Debug)]
pub struct Kbuckets {
    buckets: Vec<Bucket>,
}

impl View for Kbuckets {
    type V = Seq<BucketView>;

    closed spec fn view(&self) -> Seq<BucketView> {
        views_of(self.buckets@)
    }
}

/// Appends the nodes of `from` to `into`.
fn append_nodes(into: &mut Vec<Node>, from: &Vec<Node>)
    ensures
        final(into)@ == old(into)@ + from@,
{
    let mut k: usize = 0;
    while k < from.len()
        invariant
            k <= from.len(),
            into@ == old(into)@ + from@.take(k as int),
        decreases from.len() - k,
    {
        into.push(from[k]);
        assert(from@.take(k + 1) =~= from@.take(k as int).push(from@[k as int]));
        assert(into@ =~= old(into)@ + from@.take(k + 1));
        k += 1;
    }
    assert(from@.take(k as int) =~= from@);
}

impl Kbuckets {
    /// A table of one empty bucket that covers the whole space.
    pub fn new() -> (table: Kbuckets)
        ensures
            table_wf(table@),
            table@.len() == 1,
            table@[0].upper_boundary == HashId::max(),
            table@[0].nodes == Seq::<Node>::empty(),
    {
        Kbuckets::created_at(current_time())
    }

    /// A table of one empty bucket that covers the whole space, made at
    /// `now`.
    pub fn created_at(now: Timestamp) -> (table: Kbuckets)
        ensures
            table_wf(table@),
            table@ == seq![
                (BucketView {
                    upper_boundary: HashId::max(),
                    nodes: Seq::<Node>::empty(),
                    last_changed: now,
                }),
            ],
    {
        let upper = HashId::new([255; 20]);
        proof {
            assert forall|i: int| 0 <= i < 20 implies upper.hash[i] == HashId::max().hash[i] by {
                assert(upper@[i] == 255);
                assert(HashId::max()@[i] == 255);
            }
            assert(upper.hash =~= HashId::max().hash);
        }
        let mut buckets: Vec<Bucket> = Vec::new();
        buckets.push(Bucket::created_at(upper, now));
        let table = Kbuckets { buckets };
        assert(table@ =~= seq![
            (BucketView {
                upper_boundary: HashId::max(),
                nodes: Seq::<Node>::empty(),
                last_changed: now,
            }),
        ]);
        table
    }

    /// Whether the table divides the identifier space. A table does unless
    /// a bucket that `find_mut` handed out was changed out of its range.
    pub fn is_wf(&self) -> (r: bool)
        ensures
            r == table_wf(self@),
    {
        let count = self.buckets.len();
        assert(self@.len() == self.buckets@.len());
        if count == 0 {
            return false;
        }
        let largest = HashId::new([255; 20]);
        proof {
            assert forall|i: int| 0 <= i < 20 implies largest.hash[i] == HashId::max().hash[i] by {
                assert(largest@[i] == 255);
                assert(HashId::max()@[i] == 255);
            }
            assert(largest.hash =~= HashId::max().hash);
            assert(self@[count - 1] == self.buckets@[count - 1]@);
        }
        if self.buckets[count - 1].upper_boundary != largest {
            return false;
        }
        let mut i: usize = 0;
        while i < count
            invariant
                i <= count,
                count == self.buckets@.len(),
                self@.len() == count,
                forall|a: int| 0 <= a < count ==> #[trigger] self@[a] == self.buckets@[a]@,
                forall|a: int| 0 < a < i ==> (#[trigger] self@[a - 1]).upper_boundary.value()
                    < self@[a].upper_boundary.value(),
                forall|a: int| 0 <= a < i ==> (#[trigger] self@[a]).wf(),
                forall|a: int, k: int|
                    0 <= a < i && 0 <= k < self@[a].nodes.len() ==> lower_bound(self@, a) <= (
                    #[trigger] self@[a].nodes[k]).node_id.value(),
            decreases count - i,
        {
            let bucket = &self.buckets[i];
            assert(bucket@ == self@[i as int]);
            if !bucket.is_wf() {
                return false;
            }
            if i > 0 {
                let floor = &self.buckets[i - 1].upper_boundary;
                assert(*floor == self@[i - 1].upper_boundary);
                if !floor.below(&bucket.upper_boundary) {
                    assert(!(self@[i - 1].upper_boundary.value() < self@[i as int].upper_boundary.value()));
                    return false;
                }
                let mut k: usize = 0;
                while k < bucket.nodes.len()
                    invariant
                        0 < i < count,
                        self@.len() == count,
                        k <= bucket.nodes@.len(),
                        bucket@ == self@[i as int],
                        *floor == self@[i - 1].upper_boundary,
                        forall|j: int|
                            0 <= j < k ==> lower_bound(self@, i as int) <= (
                            #[trigger] self@[i as int].nodes[j]).node_id.value(),
                    decreases bucket.nodes@.len() - k,
                {
                    if !floor.below(&bucket.nodes[k].node_id) {
                        assert(!(lower_bound(self@, i as int) <= self@[i as int].nodes[k as int].node_id.value()));
                        return false;
                    }
                    k += 1;
                }
            }
            i += 1;
        }
        proof {
            assert forall|a: int, b: int| 0 <= a < b < count implies (#[trigger] self@[a]).upper_boundary.value()
                < (#[trigger] self@[b]).upper_boundary.value() by {
                lemma_adjacent_rise(self@, a, b);
            }
        }
        true
    }

    /// The buckets, in ascending order of their boundaries.
    pub fn buckets(&self) -> (buckets: &Vec<Bucket>)
        ensures
            views_of(buckets@) == self@,
    {
        &self.buckets
    }

    /// The up to eight nodes of the table that are closest to `id`,
    /// nearest first; `None` where no bucket covers `id`, which a table
    /// that divides the space never answers.
    pub fn find_closest_nodes(&self, id: &HashId) -> (r: Option<Vec<Node>>)
        ensures
            r is Some <==> exists|i: int| covers_first(self@, *id, i),
            table_wf(self@) ==> r is Some,
            r is Some ==> r.unwrap()@ == closest_nodes(self@, *id),
            r is Some ==> r.unwrap()@.len() <= 8,
            r is Some ==> ascending(r.unwrap()@, NodeOrder::Distance(*id)),
    {
        let (index, bucket) = match self.find_index(id) {
            Some(found) => found,
            None => {
                return None;
            },
        };
        let mut closest: Vec<Node> = Vec::new();
        append_nodes(&mut closest, &bucket.nodes);
        assert(closest@ =~= sweep(self@, index as int, 0));
        let mut offset: usize = 1;
        while offset < self.buckets.len()
            invariant
                1 <= offset <= self.buckets.len(),
                index < self.buckets.len(),
                closest@ == sweep(self@, index as int, (offset - 1) as nat),
            decreases self.buckets.len() - offset,
        {
            self.try_extend(&mut closest, index, offset);
            offset += 1;
        }
        assert(self@.len() == self.buckets@.len());
        assert(index as int == index_of(self@, *id));
        let mut sorted = sort_nodes(&closest, &NodeOrder::Distance(*id));
        if sorted.len() > CLOSEST_NODES {
            sorted.truncate(CLOSEST_NODES);
        }
        proof {
            lemma_closest_nodes(self@, *id);
            assert(sorted@ =~= closest_nodes(self@, *id));
        }
        Some(sorted)
    }

    /// Puts `new_node` into its bucket if that has room. If it is full and
    /// also covers `our_id`, divides it at `our_id` and tries once more.
    /// Otherwise drops the node. Buckets that change are marked as changed
    /// now.
    pub fn try_insert(&mut self, our_id: &HashId, new_node: Node)
        requires
            table_wf(old(self)@),
        ensures
            exists|now: Timestamp| final(self)@ == try_inserted(old(self)@, *our_id, new_node, now),
            table_wf(final(self)@),
    {
        self.try_insert_at(our_id, new_node, current_time())
    }

    /// Puts `new_node` into its bucket if that has room. If it is full and
    /// also covers `our_id`, divides it at `our_id` and tries once more.
    /// Otherwise drops the node. Buckets that change are marked as changed
    /// at `now`.
    pub fn try_insert_at(&mut self, our_id: &HashId, new_node: Node, now: Timestamp)
        requires
            table_wf(old(self)@),
        ensures
            final(self)@ == try_inserted(old(self)@, *our_id, new_node, now),
            table_wf(final(self)@),
    {
        proof {
            lemma_try_insert_keeps_wf(self@, *our_id, new_node, now);
            lemma_index_of(self@, new_node.node_id);
            lemma_index_of(self@, *our_id);
        }
        if self.insert_into_bucket(new_node, now) {
            return;
        }
        let self_index = self.index(our_id);
        let new_index = self.index(&new_node.node_id);
        if self_index != new_index {
            return;
        }
        self.split_at(*our_id, now);
        proof {
            lemma_index_of(self@, new_node.node_id);
        }
        self.insert_into_bucket(new_node, now);
    }

    /// Attempts to insert the nodes, one after the other, as `try_insert`
    /// does.
    pub fn insert_all_at(&mut self, our_id: &HashId, nodes: &Vec<Node>, now: Timestamp)
        requires
            table_wf(old(self)@),
        ensures
            final(self)@ == all_inserted(old(self)@, *our_id, nodes@, now),
            table_wf(final(self)@),
    {
        let mut i: usize = 0;
        while i < nodes.len()
            invariant
                i <= nodes@.len(),
                table_wf(self@),
                self@ == all_inserted(old(self)@, *our_id, nodes@.take(i as int), now),
            decreases nodes@.len() - i,
        {
            assert(nodes@.take(i + 1).drop_last() =~= nodes@.take(i as int));
            self.try_insert_at(our_id, nodes[i], now);
            i += 1;
        }
        assert(nodes@.take(i as int) =~= nodes@);
    }

    /// Puts the node into its bucket, if that has room, and says whether
    /// it did.
    fn insert_into_bucket(&mut self, node: Node, now: Timestamp) -> (done: bool)
        requires
            table_wf(old(self)@),
        ensures
            done == !old(self)@[index_of(old(self)@, node.node_id)].is_full(),
            done ==> final(self)@ == with_node(old(self)@, node, now),
            !done ==> final(self)@ == old(self)@,
    {
        proof {
            lemma_index_of(self@, node.node_id);
        }
        let index = self.index(&node.node_id);
        let done = self.buckets[index].insert_at(node, now).is_ok();
        assert(done ==> self@ =~= with_node(old(self)@, node, now));
        assert(!done ==> self@ =~= old(self)@);
        done
    }

    /// The place of the bucket that the identifier belongs to.
    fn index(&self, id: &HashId) -> (index: usize)
        requires
            table_wf(self@),
        ensures
            index == index_of(self@, *id),
            index < self.buckets@.len(),
    {
        proof {
            lemma_index_of(self@, *id);
        }
        match self.find_index(id) {
            Some((index, _)) => index,
            None => 0,
        }
    }

    /// Appends the nodes of the buckets `offset` places above and below
    /// `start` to `merged`, as far as there are such buckets.
    fn try_extend(&self, merged: &mut Vec<Node>, start: usize, offset: usize)
        requires
            start < self.buckets@.len(),
            offset >= 1,
            old(merged)@ == sweep(self@, start as int, (offset - 1) as nat),
        ensures
            final(merged)@ == sweep(self@, start as int, offset as nat),
    {
        assert(self@.len() == self.buckets@.len());
        if offset < self.buckets.len() - start {
            let upper: usize = start + offset;
            assert(self@[upper as int] == self.buckets@[upper as int]@);
            append_nodes(merged, &self.buckets[upper].nodes);
        }
        assert(merged@ =~= old(merged)@ + nodes_at(self@, start + offset));
        if offset <= start {
            let lower: usize = start - offset;
            assert(self@[lower as int] == self.buckets@[lower as int]@);
            append_nodes(merged, &self.buckets[lower].nodes);
        }
        assert(merged@ =~= old(merged)@ + nodes_at(self@, start + offset) + nodes_at(
            self@,
            start - offset,
        ));
    }

    /// The first bucket whose boundary is not below the identifier, and
    /// its place.
    pub fn find_index(&self, id: &HashId) -> (r: Option<(usize, &Bucket)>)
        ensures
            r is Some <==> exists|i: int| covers_first(self@, *id, i),
            table_wf(self@) ==> r is Some,
            r is Some ==> covers_first(self@, *id, r.unwrap().0 as int) && r.unwrap().0
                == index_of(self@, *id) && r.unwrap().1@ == self@[r.unwrap().0 as int],
    {
        let mut i: usize = 0;
        while i < self.buckets.len()
            invariant
                i <= self.buckets.len(),
                forall|j: int| 0 <= j < i ==> !(#[trigger] self@[j]).covers(*id),
            decreases self.buckets.len() - i,
        {
            if id.at_most(&self.buckets[i].upper_boundary) {
                assert(covers_first(self@, *id, i as int));
                assert forall|k: int| covers_first(self@, *id, k) implies k == i by {
                    if k < i {
                        assert(!self@[k].covers(*id));
                    }
                    if i < k {
                        assert(self@[i as int].covers(*id));
                    }
                }
                return Some((i, &self.buckets[i]));
            }
            i += 1;
        }
        proof {
            if table_wf(self@) {
                lemma_index_of(self@, *id);
            }
        }
        None
    }

    /// The first bucket whose boundary is not below the identifier.
    pub fn find(&self, id: &HashId) -> (r: Option<&Bucket>)
        ensures
            r is Some <==> exists|i: int| covers_first(self@, *id, i),
            table_wf(self@) ==> r is Some,
            r is Some ==> r.unwrap()@ == self@[index_of(self@, *id)],
    {
        match self.find_index(id) {
            Some((_, bucket)) => Some(bucket),
            None => None,
        }
    }

    /// The first bucket whose boundary is not below the identifier, to be
    /// changed in place, and its place. The table is a division of the
    /// space afterwards only if the caller keeps the bucket within its
    /// range.
    pub fn find_index_mut(&mut self, id: HashId) -> (r: Option<(usize, &mut Bucket)>)
        ensures
            r is Some <==> exists|i: int| covers_first(old(self)@, id, i),
            table_wf(old(self)@) ==> r is Some,
            r is None ==> final(self)@ == old(self)@,
            r is Some ==> r.unwrap().0 == index_of(old(self)@, id),
            r is Some ==> r.unwrap().1@ == old(self)@[r.unwrap().0 as int],
            r is Some ==> final(self)@ == old(self)@.update(
                r.unwrap().0 as int,
                final(r.unwrap().1)@,
            ),
    {
        let index = match self.find_index(&id) {
            Some((index, _)) => index,
            None => {
                return None;
            },
        };
        assert forall|b: Bucket| #[trigger]
            views_of(self.buckets@.update(index as int, b)) == self@.update(index as int, b@) by {
            assert(views_of(self.buckets@.update(index as int, b)) =~= self@.update(
                index as int,
                b@,
            ));
        }
        let bucket = &mut self.buckets[index];
        Some((index, bucket))
    }

    /// The first bucket whose boundary is not below the identifier, to be
    /// changed in place. The table is a division of the space afterwards
    /// only if the caller keeps the bucket within its range.
    pub fn find_mut(&mut self, id: HashId) -> (r: Option<&mut Bucket>)
        ensures
            r is Some <==> exists|i: int| covers_first(old(self)@, id, i),
            table_wf(old(self)@) ==> r is Some,
            r is None ==> final(self)@ == old(self)@,
            r is Some ==> r.unwrap()@ == old(self)@[index_of(old(self)@, id)],
            r is Some ==> final(self)@ == old(self)@.update(
                index_of(old(self)@, id),
                final(r.unwrap())@,
            ),
    {
        match self.find_index_mut(id) {
            Some((_, bucket)) => Some(bucket),
            None => None,
        }
    }

    /// Marks the node with the identifier, and its bucket, as heard of
    /// now. A table without such a node stays as it is.
    pub fn update_timestamps(&mut self, id: &HashId)
        requires
            table_wf(old(self)@),
        ensures
            exists|now: Timestamp| final(self)@ == touched_table(old(self)@, *id, now),
            table_wf(final(self)@),
    {
        self.update_timestamps_at(id, current_time())
    }

    /// Marks the node with the identifier, and its bucket, as heard of at
    /// `now`. A table without such a node stays as it is.
    pub fn update_timestamps_at(&mut self, id: &HashId, now: Timestamp)
        requires
            table_wf(old(self)@),
        ensures
            final(self)@ == touched_table(old(self)@, *id, now),
            table_wf(final(self)@),
    {
        proof {
            lemma_touch_keeps_wf(self@, *id, now);
        }
        let index = self.index(id);
        self.buckets[index].update_timestamps_at(id, now);
        assert(self@ =~= touched_table(old(self)@, *id, now));
    }

    /// Divides the bucket of `id` at `id`; the new bucket is marked as
    /// changed now.
    pub fn split(&mut self, id: HashId)
        requires
            table_wf(old(self)@),
        ensures
            exists|now: Timestamp| final(self)@ == split_table(old(self)@, id, now),
            table_wf(final(self)@),
    {
        self.split_at(id, current_time())
    }

    /// Divides the bucket of `id` at `id`; the new bucket is marked as
    /// changed at `now`.
    pub fn split_at(&mut self, id: HashId, now: Timestamp)
        requires
            table_wf(old(self)@),
        ensures
            final(self)@ == split_table(old(self)@, id, now),
            table_wf(final(self)@),
    {
        proof {
            lemma_split_keeps_wf(self@, id, now);
        }
        let index = self.index(&id);
        if self.buckets[index].upper_boundary == id {
            return;
        }
        let ghost below = |n: Node| n.node_id.value() <= id.value();
        let ghost above = |n: Node| !(n.node_id.value() <= id.value());
        let mut low: Vec<Node> = Vec::new();
        let mut high: Vec<Node> = Vec::new();
        let mut i: usize = 0;
        while i < self.buckets[index].nodes.len()
            invariant
                index < self.buckets@.len(),
                i <= self.buckets@[index as int].nodes@.len(),
                below == (|n: Node| n.node_id.value() <= id.value()),
                above == (|n: Node| !(n.node_id.value() <= id.value())),
                low@ == self.buckets@[index as int].nodes@.take(i as int).filter(below),
                high@ == self.buckets@[index as int].nodes@.take(i as int).filter(above),
            decreases self.buckets@[index as int].nodes@.len() - i,
        {
            proof {
                lemma_filter_next(self.buckets@[index as int].nodes@, below, i as int);
                lemma_filter_next(self.buckets@[index as int].nodes@, above, i as int);
            }
            let node = self.buckets[index].nodes[i];
            if node.node_id.at_most(&id) {
                low.push(node);
            } else {
                high.push(node);
            }
            i += 1;
        }
        assert(self.buckets@[index as int].nodes@.take(i as int) =~= self.buckets@[index as int].nodes@);
        let mut new_bucket = Bucket::created_at(id, now);
        new_bucket.nodes = low;
        self.buckets[index].nodes = high;
        self.buckets.insert(index, new_bucket);
        assert(self@ =~= split_table(old(self)@, id, now));
    }
}

} // verus!
