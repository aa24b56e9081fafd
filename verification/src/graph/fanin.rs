//! Fan-in analysis: for each signal, the nodes that use it as a child.

use crate::graph::{lemma_index_roundtrip, AigGraph, AigNode, NodeId, MAX_GRAPH_INDEX};
use vstd::prelude::*;

verus! {

/// The slot of a signal in the fan-in table: false is slot 0, true slot 1,
/// and a signal naming graph index `i` (either polarity) slot `i + 2`.
/// Markers have no slot.
pub open spec fn slot_of(node: NodeId) -> Option<int> {
    if node.0 == 1 {
        Some(1)
    } else if node.0 == 0 {
        Some(0)
    } else if !node.spec_is_marker() {
        Some(node.spec_index() + 2)
    } else {
        None
    }
}

/// `before` extended by `id` when `child` uses slot `s`.
pub open spec fn after_use(before: Seq<NodeId>, child: NodeId, s: int, id: NodeId) -> Seq<NodeId> {
    if uses_slot(child, s) {
        before.push(id)
    } else {
        before
    }
}

/// Whether `child` occupies slot `s`.
pub open spec fn uses_slot(child: NodeId, s: int) -> bool {
    slot_of(child) == Some(s)
}

/// The nodes that use slot `s` as a child, once per use, in graph order
/// (left child before right child).
pub open spec fn users(nodes: Seq<AigNode>, s: int) -> Seq<NodeId>
    decreases nodes.len(),
{
    if nodes.len() == 0 {
        Seq::empty()
    } else {
        let i = nodes.len() - 1;
        let id = NodeId::spec_from_index(i);
        let rest = users(nodes.drop_last(), s);
        let with_left = if uses_slot(nodes[i].left, s) {
            rest.push(id)
        } else {
            rest
        };
        if uses_slot(nodes[i].right, s) {
            with_left.push(id)
        } else {
            with_left
        }
    }
}

/// Every child of every node is a marker, a constant or names a node.
pub open spec fn children_in_range(nodes: Seq<AigNode>) -> bool {
    forall|i: int|
        0 <= i < nodes.len() ==> {
            &&& (#[trigger] nodes[i]).left.spec_is_marker() || nodes[i].left.is_signal_of(nodes.len() as int)
            &&& nodes[i].right.spec_is_marker() || nodes[i].right.is_signal_of(nodes.len() as int)
        }
}

fn get_index(node: NodeId) -> (r: Option<usize>)
    ensures
        match slot_of(node) {
            Some(s) => r == Some(s as usize),
            None => r is None,
        },
{
    if node.is_true() {
        Some(1)
    } else if node.is_false() {
        Some(0)
    } else {
        match node.to_index() {
            Ok(ii) => Some(ii + 2),
            Err(_) => None,
        }
    }
}

/// The end offsets never decrease.
#[verifier::opaque]
pub open spec fn sorted_ends(ends: Seq<u32>) -> bool {
    forall|a: int, b: int| 0 <= a <= b < ends.len() ==> ends[a] <= ends[b]
}

proof fn lemma_sorted_ends(ends: Seq<u32>, a: int, b: int)
    requires
        sorted_ends(ends),
        0 <= a <= b < ends.len(),
    ensures
        ends[a] <= ends[b],
{
    reveal(sorted_ends);
}

/// Provides access to all the nodes a signal fans into.
pub struct FanIn {
    /// The end offset in `list` of each slot's users.
    pub ends: Vec<u32>,
    pub list: Vec<NodeId>,
}

impl FanIn {
    pub open spec fn start_of(&self, s: int) -> int {
        if s == 0 {
            0
        } else {
            self.ends@[s - 1] as int
        }
    }

    pub open spec fn wf(&self) -> bool {
        &&& self.ends.len() >= 1
        &&& sorted_ends(self.ends@)
        &&& self.ends@[self.ends.len() - 1] == self.list.len()
    }

    /// The users recorded for slot `s`.
    pub open spec fn segment(&self, s: int) -> Seq<NodeId> {
        self.list@.subrange(self.start_of(s), self.ends@[s] as int)
    }

    /// This table is the fan-in of `nodes`.
    pub open spec fn describes(&self, nodes: Seq<AigNode>) -> bool {
        &&& self.wf()
        &&& self.ends.len() == nodes.len() + 2
        &&& forall|s: int| 0 <= s < nodes.len() + 2 ==> #[trigger] self.segment(s) == users(nodes, s)
    }

    /// Build the fan-in table of a graph.
    pub fn from_graph(g: &AigGraph) -> (r: FanIn)
        requires
            g.nodes.len() <= MAX_GRAPH_INDEX + 1,
            children_in_range(g.nodes@),
        ensures
            r.describes(g.nodes@),
    {
        // Count the uses of each slot first, to lay out one segment per slot.
        let use_counts = count_uses(g);
        let ends = prefix_ends(&use_counts, Ghost(g.nodes@));
        let total = ends[ends.len() - 1] as usize;
        let mut list: Vec<NodeId> = Vec::new();
        while list.len() < total
            invariant
                list.len() <= total,
            decreases total - list.len(),
        {
            list.push(NodeId::none());
        }
        fill_users(&mut list, &ends, g);
        let r = FanIn { ends, list };
        assert forall|t: int| 0 <= t < g.nodes.len() + 2 implies #[trigger] r.segment(t) == users(
            g.nodes@,
            t,
        ) by {
            assert(r.start_of(t) == start_in(r.ends@, t));
            lemma_sorted_ends(r.ends@, t, r.ends.len() - 1);
            if t > 0 {
                lemma_sorted_ends(r.ends@, t - 1, t);
            }
            assert forall|k: int| 0 <= k < users(g.nodes@, t).len() implies r.segment(t)[k] == users(
                g.nodes@,
                t,
            )[k] by {
                assert(r.list@[start_in(r.ends@, t) + k] == users(g.nodes@, t)[k]);
            }
            assert(r.segment(t) =~= users(g.nodes@, t));
        }
        r
    }

    /// The nodes that use `source` (either polarity) as a child.
    pub fn nodes(&self, source: NodeId) -> (r: &[NodeId])
        requires
            self.wf(),
            slot_of(source) is Some,
            slot_of(source)->0 < self.ends.len(),
        ensures
            r@ == self.segment(slot_of(source)->0),
    {
        let (start, end) = match self.get_range(source) {
            Some(range) => range,
            None => (0, 0),
        };
        &self.list.as_slice()[start as usize..end as usize]
    }

    /// The number of uses of `source` (either polarity); zero for markers.
    pub fn count(&self, source: NodeId) -> (r: u32)
        requires
            self.wf(),
            slot_of(source) is Some ==> slot_of(source)->0 < self.ends.len(),
        ensures
            r == match slot_of(source) {
                Some(s) => self.segment(s).len(),
                None => 0,
            },
    {
        if let Some((start, end)) = self.get_range(source) {
            end - start
        } else {
            0
        }
    }

    fn get_range(&self, node: NodeId) -> (r: Option<(u32, u32)>)
        requires
            self.wf(),
            slot_of(node) is Some ==> slot_of(node)->0 < self.ends.len(),
        ensures
            match slot_of(node) {
                Some(s) => r == Some((self.start_of(s) as u32, self.ends@[s])) && 0 <= self.start_of(s)
                    <= self.ends@[s] <= self.list.len(),
                None => r is None,
            },
    {
        if let Some(index) = get_index(node) {
            proof {
                if index > 0 {
                    lemma_sorted_ends(self.ends@, index - 1, index as int);
                }
                lemma_sorted_ends(self.ends@, index as int, self.ends.len() - 1);
            }
            let start = if index == 0 {
                0
            } else {
                self.ends[index - 1]
            };
            let end = self.ends[index];
            Some((start, end))
        } else {
            None
        }
    }
}


pub open spec fn start_in(ends: Seq<u32>, s: int) -> int {
    if s == 0 {
        0
    } else {
        ends[s - 1] as int
    }
}

/// Running sums of the use counts: the end offset of each slot's segment.
fn prefix_ends(use_counts: &Vec<u32>, Ghost(nodes): Ghost<Seq<AigNode>>) -> (ends: Vec<u32>)
    requires
        use_counts.len() == nodes.len() + 2,
        nodes.len() <= MAX_GRAPH_INDEX + 1,
        forall|t: int| 0 <= t < use_counts.len() ==> #[trigger] use_counts@[t] == users(nodes, t).len(),
    ensures
        ends.len() == use_counts.len(),
        sorted_ends(ends@),
        forall|t: int| 0 <= t < ends.len() ==> #[trigger] ends@[t] - start_in(ends@, t) == users(nodes, t).len(),
{
    let n_slots = use_counts.len();
    let mut ends: Vec<u32> = Vec::new();
    let mut prev: u32 = 0;
    let mut s: usize = 0;
    while s < n_slots
        invariant
            n_slots == use_counts.len() == nodes.len() + 2,
            nodes.len() <= MAX_GRAPH_INDEX + 1,
            s <= n_slots,
            ends.len() == s,
            forall|t: int| 0 <= t < n_slots ==> #[trigger] use_counts@[t] == users(nodes, t).len(),
            prev == total_uses(nodes, 0, s as int),
            s > 0 ==> prev == ends@[s - 1],
            forall|t: int| 0 <= t < s ==> #[trigger] ends@[t] == total_uses(nodes, 0, t + 1),
        decreases n_slots - s,
    {
        proof {
            lemma_total_uses_step(nodes, s as int);
            lemma_total_uses_bound(nodes, s as int + 1);
        }
        let next = prev + use_counts[s];
        ends.push(next);
        prev = next;
        s = s + 1;
    }
    assert(sorted_ends(ends@)) by {
        reveal(sorted_ends);
        assert forall|a: int, b: int| 0 <= a <= b < ends.len() implies ends@[a] <= ends@[b] by {
            lemma_total_uses_monotone(nodes, a + 1, b + 1);
        }
    }
    assert forall|t: int| 0 <= t < ends.len() implies #[trigger] ends@[t] - start_in(ends@, t) == users(
        nodes,
        t,
    ).len() by {
        lemma_total_uses_step(nodes, t);
    }
    ends
}

proof fn lemma_total_uses_monotone(nodes: Seq<AigNode>, a: int, b: int)
    requires
        0 <= a <= b,
    ensures
        total_uses(nodes, 0, a) <= total_uses(nodes, 0, b),
    decreases b - a,
{
    if a < b {
        lemma_total_uses_monotone(nodes, a, b - 1);
        lemma_total_uses_step(nodes, b - 1);
    }
}

/// Write the users of each slot into its segment of `list`.
fn fill_users(list: &mut Vec<NodeId>, ends: &Vec<u32>, g: &AigGraph)
    requires
        g.nodes.len() <= MAX_GRAPH_INDEX + 1,
        children_in_range(g.nodes@),
        ends.len() == g.nodes.len() + 2,
        sorted_ends(ends@),
        ends@[ends.len() - 1] == old(list).len(),
        forall|t: int| 0 <= t < ends.len() ==> #[trigger] ends@[t] - start_in(ends@, t) == users(g.nodes@, t).len(),
    ensures
        final(list).len() == old(list).len(),
        forall|t: int, k: int|
            0 <= t < ends.len() && 0 <= k < users(g.nodes@, t).len() ==> final(list)@[start_in(ends@, t) + k]
                == #[trigger] users(g.nodes@, t)[k],
{
    let n_slots = ends.len();
    let mut offset: Vec<u32> = Vec::new();
    while offset.len() < n_slots
        invariant
            offset.len() <= n_slots,
            forall|t: int| 0 <= t < offset.len() ==> #[trigger] offset@[t] == 0,
        decreases n_slots - offset.len(),
    {
        offset.push(0);
    }
    let mut i: usize = 0;
    assert(g.nodes@.take(0) == Seq::<AigNode>::empty());
    while i < g.nodes.len()
        invariant
            i <= g.nodes.len() <= MAX_GRAPH_INDEX + 1,
            children_in_range(g.nodes@),
            ends.len() == n_slots == g.nodes.len() + 2,
            sorted_ends(ends@),
            ends@[ends.len() - 1] == list.len(),
            forall|t: int| 0 <= t < n_slots ==> #[trigger] ends@[t] - start_in(ends@, t) == users(g.nodes@, t).len(),
            offset.len() == n_slots,
            forall|t: int| 0 <= t < n_slots ==> #[trigger] offset@[t] == users(g.nodes@.take(i as int), t).len(),
            forall|t: int, k: int|
                0 <= t < n_slots && 0 <= k < offset@[t] ==> list@[start_in(ends@, t) + k] == #[trigger] users(
                    g.nodes@.take(i as int),
                    t,
                )[k],
        decreases g.nodes.len() - i,
    {
        let node_id = NodeId::from_index(i);
        let node = g.nodes[i];
        let ghost pre = g.nodes@.take(i as int);
        let ghost post = g.nodes@.take(i + 1);
        let ghost cap = |t: int| users(g.nodes@, t).len();
        let ghost after_left = |t: int| after_use(users(pre, t), node.left, t, node_id);
        proof {
            assert(post.drop_last() == pre);
            assert(post[i as int] == node);
            assert(node == g.nodes@[i as int]);
            assert forall|t: int| #[trigger] users(post, t) == after_use(after_left(t), node.right, t, node_id) by {}
            assert forall|t: int| 0 <= t < n_slots implies #[trigger] after_use(
                users(pre, t),
                node.left,
                t,
                node_id,
            ).len() <= cap(t) by {
                assert(users(post, t) == after_use(after_left(t), node.right, t, node_id));
                lemma_users_prefix_bound(g.nodes@, i as int + 1, t);
            }
            assert forall|t: int| 0 <= t < n_slots implies #[trigger] after_use(
                after_left(t),
                node.right,
                t,
                node_id,
            ).len() <= cap(t) by {
                assert(users(post, t) == after_use(after_left(t), node.right, t, node_id));
                lemma_users_prefix_bound(g.nodes@, i as int + 1, t);
            }
        }
        record_use(list, &mut offset, ends, node.left, node_id, Ghost(|t: int| users(pre, t)), Ghost(cap));
        record_use(list, &mut offset, ends, node.right, node_id, Ghost(after_left), Ghost(cap));
        proof {
            assert forall|t: int| 0 <= t < n_slots implies #[trigger] offset@[t] == users(post, t).len() by {
                assert(users(post, t) == after_use(after_left(t), node.right, t, node_id));
            }
            assert forall|t: int, k: int|
                0 <= t < n_slots && 0 <= k < offset@[t] implies list@[start_in(ends@, t) + k] == #[trigger] users(
                post,
                t,
            )[k] by {
                assert(users(post, t) == after_use(after_left(t), node.right, t, node_id));
            }
        }
        i = i + 1;
    }
    assert(g.nodes@.take(i as int) == g.nodes@);
}

/// Record `node_id` as the next user of the slot of `child`.
fn record_use(
    list: &mut Vec<NodeId>,
    offset: &mut Vec<u32>,
    ends: &Vec<u32>,
    child: NodeId,
    node_id: NodeId,
    Ghost(before): Ghost<spec_fn(int) -> Seq<NodeId>>,
    Ghost(cap): Ghost<spec_fn(int) -> nat>,
)
    requires
        sorted_ends(ends@),
        ends.len() > 0,
        ends@[ends.len() - 1] == old(list).len(),
        ends.len() == old(offset).len(),
        slot_of(child) is Some ==> slot_of(child)->0 < ends.len(),
        forall|t: int| 0 <= t < ends.len() ==> #[trigger] ends@[t] - start_in(ends@, t) == cap(t),
        forall|t: int| 0 <= t < ends.len() ==> #[trigger] old(offset)@[t] == before(t).len(),
        forall|t: int|
            0 <= t < ends.len() ==> #[trigger] after_use(before(t), child, t, node_id).len() <= cap(t),
        forall|t: int, k: int|
            0 <= t < ends.len() && 0 <= k < old(offset)@[t] ==> old(list)@[start_in(ends@, t) + k]
                == #[trigger] before(t)[k],
    ensures
        final(list).len() == old(list).len(),
        final(offset).len() == old(offset).len(),
        forall|t: int|
            0 <= t < ends.len() ==> #[trigger] final(offset)@[t] == after_use(before(t), child, t, node_id).len(),
        forall|t: int, k: int|
            0 <= t < ends.len() && 0 <= k < final(offset)@[t] ==> final(list)@[start_in(ends@, t) + k]
                == #[trigger] after_use(before(t), child, t, node_id)[k],
{
    if let Some(idx) = get_index(child) {
        let ghost s = idx as int;
        let start = if idx == 0 {
            0
        } else {
            ends[idx - 1]
        };
        proof {
            assert(uses_slot(child, s));
            assert(after_use(before(s), child, s, node_id).len() <= cap(s));
            lemma_sorted_ends(ends@, s, ends.len() - 1);
        }
        let o = offset[idx];
        let list_idx = (start + o) as usize;
        let ghost old_list = list@;
        let ghost old_offset = offset@;
        list.set(list_idx, node_id);
        offset.set(idx, o + 1);
        assert forall|t: int, k: int|
            0 <= t < ends.len() && 0 <= k < offset@[t] implies list@[start_in(ends@, t) + k]
            == #[trigger] after_use(before(t), child, t, node_id)[k] by {
            lemma_sorted_ends(ends@, t, ends.len() - 1);
            if t > 0 {
                lemma_sorted_ends(ends@, t - 1, t);
            }
            assert(after_use(before(t), child, t, node_id).len() <= cap(t));
            if t == s {
                if k < o {
                    assert(old_list[start_in(ends@, t) + k] == before(t)[k]);
                }
            } else {
                assert(!uses_slot(child, t));
                assert(after_use(before(t), child, t, node_id).len() <= cap(t));
                assert(old_offset[t] == before(t).len());
                assert(old_list[start_in(ends@, t) + k] == before(t)[k]);
                if t < s {
                    lemma_sorted_ends(ends@, t, s - 1);
                } else {
                    lemma_sorted_ends(ends@, s, t - 1);
                }
            }
        }
    }
}

/// Every node recorded as a user of slot `s` has a child in that slot.
pub proof fn lemma_users_are_parents(nodes: Seq<AigNode>, s: int, k: int)
    requires
        nodes.len() <= MAX_GRAPH_INDEX + 1,
        0 <= k < users(nodes, s).len(),
    ensures
        ({
            let id = users(nodes, s)[k];
            let i = id.spec_index();
            &&& 0 <= i < nodes.len()
            &&& id == NodeId::spec_from_index(i)
            &&& uses_slot(nodes[i].left, s) || uses_slot(nodes[i].right, s)
        }),
    decreases nodes.len(),
{
    let last = nodes.len() - 1;
    let rest = users(nodes.drop_last(), s);
    lemma_index_roundtrip(last);
    if k < rest.len() {
        lemma_users_are_parents(nodes.drop_last(), s, k);
        let i = rest[k].spec_index();
        assert(nodes.drop_last()[i] == nodes[i]);
    }
}

/// Every use of slot `s` as a child is recorded among its users.
pub proof fn lemma_parents_are_users(nodes: Seq<AigNode>, s: int, i: int)
    requires
        nodes.len() <= MAX_GRAPH_INDEX + 1,
        0 <= i < nodes.len(),
        uses_slot(nodes[i].left, s) || uses_slot(nodes[i].right, s),
    ensures
        users(nodes, s).contains(NodeId::spec_from_index(i)),
    decreases nodes.len(),
{
    let last = nodes.len() - 1;
    let id = NodeId::spec_from_index(last);
    let rest = users(nodes.drop_last(), s);
    let with_left = if uses_slot(nodes[last].left, s) {
        rest.push(id)
    } else {
        rest
    };
    if i < last {
        assert(nodes.drop_last()[i] == nodes[i]);
        lemma_parents_are_users(nodes.drop_last(), s, i);
        let j = choose|j: int| 0 <= j < rest.len() && rest[j] == NodeId::spec_from_index(i);
        assert(with_left[j] == rest[j]);
        assert(users(nodes, s)[j] == with_left[j]);
    } else if uses_slot(nodes[last].left, s) {
        assert(with_left[rest.len() as int] == id);
        assert(users(nodes, s)[rest.len() as int] == id);
    } else {
        assert(users(nodes, s)[with_left.len() as int] == id);
    }
}

fn count_uses(g: &AigGraph) -> (r: Vec<u32>)
    requires
        g.nodes.len() <= MAX_GRAPH_INDEX + 1,
        children_in_range(g.nodes@),
    ensures
        r.len() == g.nodes.len() + 2,
        forall|t: int| 0 <= t < r.len() ==> #[trigger] r@[t] == users(g.nodes@, t).len(),
{
    let n_slots = g.nodes.len() + 2;
    let mut counts: Vec<u32> = Vec::new();
    while counts.len() < n_slots
        invariant
            counts.len() <= n_slots,
            forall|t: int| 0 <= t < counts.len() ==> #[trigger] counts@[t] == 0,
        decreases n_slots - counts.len(),
    {
        counts.push(0);
    }
    let mut i: usize = 0;
    assert(g.nodes@.take(0) == Seq::<AigNode>::empty());
    while i < g.nodes.len()
        invariant
            i <= g.nodes.len() <= MAX_GRAPH_INDEX + 1,
            n_slots == g.nodes.len() + 2,
            children_in_range(g.nodes@),
            counts.len() == n_slots,
            forall|t: int| 0 <= t < n_slots ==> #[trigger] counts@[t] == users(g.nodes@.take(i as int), t).len(),
        decreases g.nodes.len() - i,
    {
        let node = g.nodes[i];
        let ghost pre = g.nodes@.take(i as int);
        let ghost post = g.nodes@.take(i + 1);
        proof {
            assert(post.drop_last() == pre);
            assert(post[i as int] == node);
            assert forall|t: int| 0 <= t < n_slots implies #[trigger] users(pre, t).len() <= 2 * i by {
                lemma_users_len_bound(pre, t);
            }
        }
        if let Some(idx) = get_index(node.left) {
            let c = counts[idx];
            counts.set(idx, c + 1);
        }
        if let Some(idx) = get_index(node.right) {
            let c = counts[idx];
            counts.set(idx, c + 1);
        }
        i = i + 1;
    }
    assert(g.nodes@.take(i as int) == g.nodes@);
    counts
}

/// Each node contributes at most two uses to a slot.
proof fn lemma_users_len_bound(nodes: Seq<AigNode>, s: int)
    ensures
        users(nodes, s).len() <= 2 * nodes.len(),
    decreases nodes.len(),
{
    if nodes.len() > 0 {
        lemma_users_len_bound(nodes.drop_last(), s);
    }
}

/// The users of a prefix are a prefix of the users.
proof fn lemma_users_prefix_bound(nodes: Seq<AigNode>, i: int, s: int)
    requires
        0 <= i <= nodes.len(),
    ensures
        users(nodes.take(i), s).len() <= users(nodes, s).len(),
    decreases nodes.len(),
{
    if i < nodes.len() {
        assert(nodes.drop_last().take(i) == nodes.take(i));
        lemma_users_prefix_bound(nodes.drop_last(), i, s);
    } else {
        assert(nodes.take(i) == nodes);
    }
}

/// The number of uses of slots `a .. b`.
pub open spec fn total_uses(nodes: Seq<AigNode>, a: int, b: int) -> int
    decreases b - a,
{
    if b <= a {
        0
    } else {
        total_uses(nodes, a, b - 1) + users(nodes, b - 1).len()
    }
}

proof fn lemma_total_uses(nodes: Seq<AigNode>, a: int)
    ensures
        total_uses(nodes, a, a) == 0,
{
}

proof fn lemma_total_uses_step(nodes: Seq<AigNode>, s: int)
    requires
        s >= 0,
    ensures
        total_uses(nodes, 0, s + 1) == total_uses(nodes, 0, s) + users(nodes, s).len(),
{
}

/// The uses of the slots below `m` by a node: at most its two children.
pub open spec fn node_uses_below(node: AigNode, m: int) -> int {
    (if slot_of(node.left) is Some && slot_of(node.left)->0 < m {
        1int
    } else {
        0int
    }) + (if slot_of(node.right) is Some && slot_of(node.right)->0 < m {
        1int
    } else {
        0int
    })
}

proof fn lemma_total_uses_drop_last(nodes: Seq<AigNode>, m: int)
    requires
        nodes.len() > 0,
        m >= 0,
    ensures
        total_uses(nodes, 0, m) == total_uses(nodes.drop_last(), 0, m) + node_uses_below(nodes.last(), m),
    decreases m,
{
    if m > 0 {
        lemma_total_uses_drop_last(nodes, m - 1);
        let last = nodes.last();
        let l = slot_of(last.left);
        let r = slot_of(last.right);
        assert(l is Some && l->0 < m <==> (l is Some && l->0 < m - 1) || l == Some(m - 1));
        assert(r is Some && r->0 < m <==> (r is Some && r->0 < m - 1) || r == Some(m - 1));
    }
}

/// All uses together are at most two per node.
proof fn lemma_total_uses_bound(nodes: Seq<AigNode>, m: int)
    requires
        m >= 0,
    ensures
        total_uses(nodes, 0, m) <= 2 * nodes.len(),
    decreases nodes.len(),
{
    if nodes.len() == 0 {
        lemma_total_uses_empty(nodes, m);
    } else {
        lemma_total_uses_drop_last(nodes, m);
        lemma_total_uses_bound(nodes.drop_last(), m);
    }
}

proof fn lemma_total_uses_empty(nodes: Seq<AigNode>, m: int)
    requires
        nodes.len() == 0,
        m >= 0,
    ensures
        total_uses(nodes, 0, m) == 0,
    decreases m,
{
    if m > 0 {
        lemma_total_uses_empty(nodes, m - 1);
    }
}

} // verus!
