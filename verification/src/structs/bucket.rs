//! One k-bucket: a bounded list of nodes below an upper boundary.

use crate::structs::error::BucketError;
use crate::structs::node::Node;
use crate::structs::sorting::{ascending, sort_nodes, sorted_nodes, NodeOrder};
use crate::structs::time::{current_time, Timestamp};
use crate::structs::util::HashId;
use vstd::prelude::*;

verus! {

/// The number of nodes that one bucket holds at most.
pub const BUCKET_SIZE: usize = 8;

/// What a bucket holds, as plain values.
pub struct BucketView {
    pub upper_boundary: HashId,
    pub nodes: Seq<Node>,
    pub last_changed: Timestamp,
}

/// The text of the error for a bucket that holds eight nodes already.
pub open spec fn full_message() -> Seq<char> {
    "Bucket is already full"@
}

/// The text of the error for a node above the bucket's boundary.
pub open spec fn out_of_range_message() -> Seq<char> {
    "NodeID is not within the buckets boundary"@
}

impl BucketView {
    /// At most eight nodes, none above the boundary.
    pub open spec fn wf(self) -> bool {
        &&& self.nodes.len() <= 8
        &&& forall|i: int|
            0 <= i < self.nodes.len() ==> (#[trigger] self.nodes[i]).node_id.value()
                <= self.upper_boundary.value()
    }

    /// Whether the bucket holds eight nodes.
    pub open spec fn is_full(self) -> bool {
        self.nodes.len() >= 8
    }

    /// Whether the identifier may stand in this bucket.
    pub open spec fn covers(self, id: HashId) -> bool {
        id.value() <= self.upper_boundary.value()
    }

    /// The bucket after `node` came in at `now`.
    pub open spec fn inserted(self, node: Node, now: Timestamp) -> BucketView {
        BucketView { nodes: self.nodes.push(node), last_changed: now, ..self }
    }

    /// Whether some node of the bucket has the identifier.
    pub open spec fn holds(self, id: HashId) -> bool {
        exists|k: int| 0 <= k < self.nodes.len() && (#[trigger] self.nodes[k]).node_id == id
    }

    /// Whether the node at `k` is the first with the identifier.
    pub open spec fn first_with(self, id: HashId, k: int) -> bool {
        &&& 0 <= k < self.nodes.len()
        &&& self.nodes[k].node_id == id
        &&& forall|j: int| 0 <= j < k ==> (#[trigger] self.nodes[j]).node_id != id
    }

    /// The bucket after the node with the identifier was heard of at `now`:
    /// the first such node and the bucket carry the new time. A bucket
    /// without such a node stays as it is.
    pub open spec fn touched(self, id: HashId, now: Timestamp) -> BucketView {
        if self.holds(id) {
            BucketView {
                nodes: Seq::new(
                    self.nodes.len(),
                    |k: int|
                        if self.first_with(id, k) {
                            self.nodes[k].heard_at(now)
                        } else {
                            self.nodes[k]
                        },
                ),
                last_changed: now,
                ..self
            }
        } else {
            self
        }
    }

    /// The nodes that were last heard of more than fifteen minutes before
    /// `now`, the one heard of longest ago first.
    pub open spec fn questionables_at(self, now: Timestamp) -> Seq<Node> {
        sorted_nodes(self.nodes.filter(|n: Node| n.is_questionable_at(now)), NodeOrder::Age)
    }
}

/// A bounded list of nodes whose identifiers are at most `upper_boundary`.
#[derive(Debug)]
pub struct Bucket {
    pub upper_boundary: HashId,
    pub nodes: Vec<Node>,
    pub last_changed: Timestamp,
}

impl View for Bucket {
    type V = BucketView;

    open spec fn view(&self) -> BucketView {
        BucketView {
            upper_boundary: self.upper_boundary,
            nodes: self.nodes@,
            last_changed: self.last_changed,
        }
    }
}

impl Bucket {
    /// An empty bucket, made now.
    pub fn new(upper_boundary: HashId) -> (bucket: Bucket)
        ensures
            bucket@.upper_boundary == upper_boundary,
            bucket@.nodes == Seq::<Node>::empty(),
            bucket@.wf(),
    {
        Bucket::created_at(upper_boundary, current_time())
    }

    /// An empty bucket, made at `now`.
    pub fn created_at(upper_boundary: HashId, now: Timestamp) -> (bucket: Bucket)
        ensures
            bucket@ == (BucketView {
                upper_boundary,
                nodes: Seq::<Node>::empty(),
                last_changed: now,
            }),
            bucket@.wf(),
    {
        Bucket { upper_boundary, nodes: Vec::new(), last_changed: now }
    }

    /// Whether the bucket holds at most eight nodes, none above its
    /// boundary.
    pub fn is_wf(&self) -> (r: bool)
        ensures
            r == self@.wf(),
    {
        if self.nodes.len() > BUCKET_SIZE {
            return false;
        }
        let mut k: usize = 0;
        while k < self.nodes.len()
            invariant
                k <= self.nodes@.len(),
                self.nodes@.len() <= 8,
                forall|j: int|
                    0 <= j < k ==> (#[trigger] self.nodes@[j]).node_id.value()
                        <= self.upper_boundary.value(),
            decreases self.nodes@.len() - k,
        {
            if !self.nodes[k].node_id.at_most(&self.upper_boundary) {
                assert(!(self@.nodes[k as int].node_id.value() <= self@.upper_boundary.value()));
                return false;
            }
            k += 1;
        }
        true
    }

    /// Puts the node behind the others, unless the bucket is full or the
    /// node lies above its boundary; a bucket that takes the node is
    /// marked as changed now.
    pub fn insert(&mut self, node: Node) -> (r: Result<(), BucketError>)
        ensures
            old(self)@.is_full() ==> r is Err && r.unwrap_err().text() == full_message(),
            !old(self)@.is_full() && !old(self)@.covers(node.node_id) ==> r is Err
                && r.unwrap_err().text() == out_of_range_message(),
            r is Ok <==> !old(self)@.is_full() && old(self)@.covers(node.node_id),
            r is Err ==> final(self)@ == old(self)@,
            r is Ok ==> exists|now: Timestamp| final(self)@ == old(self)@.inserted(node, now),
            old(self)@.wf() ==> final(self)@.wf(),
    {
        self.insert_at(node, current_time())
    }

    /// Puts the node behind the others, unless the bucket is full or the
    /// node lies above its boundary; a bucket that takes the node is
    /// marked as changed at `now`.
    pub fn insert_at(&mut self, node: Node, now: Timestamp) -> (r: Result<(), BucketError>)
        ensures
            old(self)@.is_full() ==> r is Err && r.unwrap_err().text() == full_message(),
            !old(self)@.is_full() && !old(self)@.covers(node.node_id) ==> r is Err
                && r.unwrap_err().text() == out_of_range_message(),
            r is Ok <==> !old(self)@.is_full() && old(self)@.covers(node.node_id),
            r is Err ==> final(self)@ == old(self)@,
            r is Ok ==> final(self)@ == old(self)@.inserted(node, now),
            old(self)@.wf() ==> final(self)@.wf(),
    {
        if self.nodes.len() >= BUCKET_SIZE {
            return Err(BucketError::new("Bucket is already full".to_owned()));
        }
        if self.upper_boundary.below(&node.node_id) {
            return Err(BucketError::new("NodeID is not within the buckets boundary".to_owned()));
        }
        self.last_changed = now;
        self.nodes.push(node);
        Ok(())
    }

    /// The place of the first node with the identifier.
    pub fn position(&self, id: &HashId) -> (r: Option<usize>)
        ensures
            r is Some <==> self@.holds(*id),
            r is Some ==> self@.first_with(*id, r.unwrap() as int),
    {
        let mut k: usize = 0;
        while k < self.nodes.len()
            invariant
                k <= self.nodes.len(),
                forall|j: int| 0 <= j < k ==> (#[trigger] self.nodes@[j]).node_id != *id,
            decreases self.nodes.len() - k,
        {
            if self.nodes[k].node_id == *id {
                assert(self@.nodes[k as int].node_id == *id);
                return Some(k);
            }
            k += 1;
        }
        None
    }

    /// The first node with the identifier, to be changed in place.
    pub fn find_mut(&mut self, id: &HashId) -> (r: Option<&mut Node>)
        ensures
            r is Some <==> old(self)@.holds(*id),
            r is None ==> *final(self) == *old(self),
            r is Some ==> exists|k: int|
                {
                    &&& old(self)@.first_with(*id, k)
                    &&& *r.unwrap() == old(self)@.nodes[k]
                    &&& final(self)@ == (BucketView {
                        nodes: old(self)@.nodes.update(k, *final(r.unwrap())),
                        ..old(self)@
                    })
                },
    {
        match self.position(id) {
            Some(k) => Some(&mut self.nodes[k]),
            None => None,
        }
    }

    /// Marks the first node with the identifier, and the bucket, as heard
    /// of now. A bucket without such a node stays as it is.
    pub fn update_timestamps(&mut self, id: &HashId)
        ensures
            exists|now: Timestamp| final(self)@ == old(self)@.touched(*id, now),
            old(self)@.wf() ==> final(self)@.wf(),
    {
        self.update_timestamps_at(id, current_time())
    }

    /// Marks the first node with the identifier, and the bucket, as heard
    /// of at `now`. A bucket without such a node stays as it is.
    pub fn update_timestamps_at(&mut self, id: &HashId, now: Timestamp)
        ensures
            final(self)@ == old(self)@.touched(*id, now),
            old(self)@.wf() ==> final(self)@.wf(),
    {
        match self.position(id) {
            Some(k) => {
                let mut node = self.nodes[k];
                node.last_seen = now;
                self.nodes.set(k, node);
                self.last_changed = now;
                assert(final(self)@.nodes =~= old(self)@.touched(*id, now).nodes);
            },
            None => {},
        }
    }

    /// The nodes that were last heard of more than fifteen minutes ago,
    /// the one heard of longest ago first.
    pub fn questionables(&self) -> (r: Vec<Node>)
        ensures
            exists|now: Timestamp| r@ == self@.questionables_at(now),
    {
        let now = current_time();
        self.questionables_at(&now)
    }

    /// The nodes that were last heard of more than fifteen minutes before
    /// `now`, the one heard of longest ago first.
    pub fn questionables_at(&self, now: &Timestamp) -> (r: Vec<Node>)
        ensures
            r@ == self@.questionables_at(*now),
            ascending(r@, NodeOrder::Age),
            forall|i: int| 0 <= i < r@.len() ==> (#[trigger] r@[i]).is_questionable_at(*now),
    {
        let ghost old_enough = |n: Node| n.is_questionable_at(*now);
        let mut questionable: Vec<Node> = Vec::new();
        let mut i: usize = 0;
        while i < self.nodes.len()
            invariant
                i <= self.nodes.len(),
                old_enough == (|n: Node| n.is_questionable_at(*now)),
                questionable@ == self.nodes@.take(i as int).filter(old_enough),
            decreases self.nodes.len() - i,
        {
            proof {
                lemma_filter_next(self.nodes@, old_enough, i as int);
            }
            if self.nodes[i].questionable_at(now) {
                questionable.push(self.nodes[i]);
            }
            i += 1;
        }
        assert(self.nodes@.take(i as int) =~= self.nodes@);
        let sorted = sort_nodes(&questionable, &NodeOrder::Age);
        proof {
            assert forall|i: int| 0 <= i < sorted@.len() implies (#[trigger] sorted@[i]).is_questionable_at(*now) by {
                broadcast use vstd::seq_lib::group_to_multiset_ensures;
                assert(sorted@.to_multiset().count(sorted@[i]) > 0);
                assert(questionable@.contains(sorted@[i]));
                let k = choose|k: int| 0 <= k < questionable@.len() && questionable@[k] == sorted@[i];
                self.nodes@.lemma_filter_pred(old_enough, k);
            }
        }
        sorted
    }
}

/// Filtering one element more either adds that element or adds nothing.
pub proof fn lemma_filter_next<A>(s: Seq<A>, pred: spec_fn(A) -> bool, i: int)
    requires
        0 <= i < s.len(),
    ensures
        s.take(i + 1).filter(pred) == if pred(s[i]) {
            s.take(i).filter(pred).push(s[i])
        } else {
            s.take(i).filter(pred)
        },
{
    reveal(Seq::filter);
    assert(s.take(i + 1).drop_last() =~= s.take(i));
}

/// Hearing of a node twice leaves the bucket as hearing of it once at the
/// later time does.
pub proof fn lemma_touch_twice(bucket: BucketView, id: HashId, first: Timestamp, second: Timestamp)
    ensures
        bucket.touched(id, first).touched(id, second) == bucket.touched(id, second),
{
    let once = bucket.touched(id, first);
    if bucket.holds(id) {
        let k = choose|k: int| 0 <= k < bucket.nodes.len() && (#[trigger] bucket.nodes[k]).node_id == id;
        assert(once.nodes[k].node_id == id);
        assert forall|m: int| 0 <= m < bucket.nodes.len() implies (#[trigger] once.nodes[m]).node_id
            == bucket.nodes[m].node_id by {}
        assert forall|j: int| 0 <= j < bucket.nodes.len() implies once.first_with(id, j)
            == bucket.first_with(id, j) by {
            if bucket.first_with(id, j) {
                assert forall|m: int| 0 <= m < j implies (#[trigger] once.nodes[m]).node_id != id by {
                    assert(bucket.nodes[m].node_id != id);
                }
            }
            if once.first_with(id, j) {
                assert forall|m: int| 0 <= m < j implies (#[trigger] bucket.nodes[m]).node_id != id by {
                    assert(once.nodes[m].node_id != id);
                }
            }
        }
        assert(once.touched(id, second).nodes =~= bucket.touched(id, second).nodes);
    } else {
    }
}

} // verus!
