use vstd::prelude::*;

use crate::domain::{MetaView, NodeId, NodeMeta};
use crate::hlc::{in_range, HybridLogicalClock, LOGICAL_MASK, PHYSICAL_LIMIT};
use crate::placement::{lemma_lex_antisymmetric, lemma_lex_transitive, lemma_lex_total, lex_le};

verus! {

/// A peer's identity: the bytes of its peer id.
#[derive(Clone, Debug, Eq, PartialOrd, Ord, Hash)]
pub struct PeerKey {
    pub bytes: Vec<u8>,
}

impl View for PeerKey {
    type V = Seq<u8>;

    open spec fn view(&self) -> Seq<u8> {
        self.bytes@
    }
}

impl PartialEq for PeerKey {
    fn eq(&self, other: &Self) -> (r: bool) {
        if self.bytes.len() != other.bytes.len() {
            return false;
        }
        let mut i: usize = 0;
        while i < self.bytes.len()
            invariant
                self.bytes@.len() == other.bytes@.len(),
                0 <= i <= self.bytes@.len(),
                forall|j: int| 0 <= j < i ==> self.bytes@[j] == other.bytes@[j],
            decreases self.bytes@.len() - i,
        {
            if self.bytes[i] != other.bytes[i] {
                return false;
            }
            i = i + 1;
        }
        proof {
            assert(self.bytes@ =~= other.bytes@);
        }
        true
    }
}

impl vstd::std_specs::cmp::PartialEqSpecImpl for PeerKey {
    open spec fn obeys_eq_spec() -> bool {
        true
    }

    open spec fn eq_spec(&self, other: &Self) -> bool {
        self.bytes@ == other.bytes@
    }
}

impl PeerKey {
    /// A copy of the key.
    pub fn duplicate(&self) -> (r: PeerKey)
        ensures
            r@ == self@,
    {
        let bytes = self.bytes.clone();
        proof {
            assert(bytes@ =~= self.bytes@);
        }
        PeerKey { bytes }
    }

    /// Whether two keys hold the same bytes.
    pub fn same(&self, other: &PeerKey) -> (r: bool)
        ensures
            r == (self@ == other@),
    {
        *self == *other
    }
}

/// A move operation of the replicated tree, seen as values.
pub ghost struct OpView {
    pub actor: Seq<u8>,
    pub counter: u64,
    pub parent: u128,
    pub meta: MetaView,
    pub child: u128,
}

/// A move operation of the replicated tree: at the timestamp (actor,
/// counter), make `child_id` a child of `parent_id` with metadata `meta`.
/// Creating, renaming and deleting a node are all such moves.
#[derive(Clone, Debug)]
pub struct NodeOperation {
    pub actor: PeerKey,
    pub counter: u64,
    pub parent_id: NodeId,
    pub meta: NodeMeta,
    pub child_id: NodeId,
}

impl View for NodeOperation {
    type V = OpView;

    open spec fn view(&self) -> OpView {
        OpView {
            actor: self.actor@,
            counter: self.counter,
            parent: self.parent_id.id,
            meta: self.meta@,
            child: self.child_id.id,
        }
    }
}

impl NodeOperation {
    /// A copy of the operation.
    pub fn duplicate(&self) -> (r: NodeOperation)
        ensures
            r@ == self@,
    {
        NodeOperation {
            actor: self.actor.duplicate(),
            counter: self.counter,
            parent_id: self.parent_id,
            meta: self.meta.duplicate(),
            child_id: self.child_id,
        }
    }
}

/// The operations of a sequence, seen as values.
pub open spec fn op_views(ops: Seq<NodeOperation>) -> Seq<OpView> {
    ops.map_values(|op: NodeOperation| op@)
}

/// Why a tree operation was refused.
#[derive(Debug)]
pub enum NodeTreeError {
    NotFound,
    ReservedNode,
}

/// The replicated tree that `crdt_tree` keeps for this file system, seen
/// only through the names and wrappers below.
#[verifier::external_body]
pub struct Replica {
    inner: crdt_tree::TreeReplica<NodeId, NodeMeta, PeerKey>,
}

/// The nodes of a replica: for each node id, its parent and its metadata.
pub uninterp spec fn replica_nodes(r: Replica) -> Map<u128, (u128, MetaView)>;

/// The operation log of a replica, newest first.
pub uninterp spec fn replica_log(r: Replica) -> Seq<OpView>;

/// The node `k + 1` parent steps above `child`, if the chain of parents
/// goes that far within the tree.
pub open spec fn parent_chain(nodes: Map<u128, (u128, MetaView)>, child: u128, k: nat) -> Option<u128>
    decreases k,
{
    if !nodes.contains_key(child) {
        None
    } else if k == 0 {
        Some(nodes[child].0)
    } else {
        parent_chain(nodes, nodes[child].0, (k - 1) as nat)
    }
}

/// `ancestor` lies on the chain of parents above `child`.
pub open spec fn is_ancestor(nodes: Map<u128, (u128, MetaView)>, child: u128, ancestor: u128) -> bool {
    exists|k: nat| parent_chain(nodes, child, k) == Some(ancestor)
}

/// A finite tree in which no node lies above itself.
pub open spec fn acyclic(nodes: Map<u128, (u128, MetaView)>) -> bool {
    &&& nodes.dom().finite()
    &&& forall|c: u128| !#[trigger] is_ancestor(nodes, c, c)
}

/// The tree after a move: the child moves under the new parent with the
/// new metadata, unless that would put it under itself.
pub open spec fn move_result(nodes: Map<u128, (u128, MetaView)>, op: OpView) -> Map<u128, (u128, MetaView)> {
    if op.child == op.parent || is_ancestor(nodes, op.parent, op.child) {
        nodes
    } else {
        nodes.insert(op.child, (op.parent, op.meta))
    }
}

/// The operation's timestamp is later than every logged one.
pub open spec fn is_fresh(log: Seq<OpView>, op: OpView) -> bool {
    forall|i: int| 0 <= i < log.len() ==> #[trigger] log[i].counter < op.counter
}

/// The timestamp of `a` comes before that of `b`: by counter, then by the
/// actor's bytes in lexicographic order.
pub open spec fn stamped_before(a: OpView, b: OpView) -> bool {
    a.counter < b.counter || (a.counter == b.counter && a.actor != b.actor && lex_le(a.actor, b.actor))
}

/// The log runs from the newest timestamp to the oldest, each timestamp
/// once.
pub open spec fn newest_first(log: Seq<OpView>) -> bool {
    forall|i: int, j: int| 0 <= i < j < log.len() ==> stamped_before(#[trigger] log[j], #[trigger] log[i])
}

/// The tree that applying a newest-first log gives, oldest operation
/// first, each as a move, starting from the empty tree.
pub open spec fn replay(log: Seq<OpView>) -> Map<u128, (u128, MetaView)>
    decreases log.len(),
{
    if log.len() == 0 {
        Map::empty()
    } else {
        move_result(replay(log.drop_first()), log[0])
    }
}

/// No operation's timestamp comes before itself, and of two timestamps at
/// most one comes before the other.
proof fn lemma_stamped_before_strict(a: OpView, b: OpView)
    ensures
        !stamped_before(a, a),
        stamped_before(a, b) ==> !stamped_before(b, a),
{
    if stamped_before(a, b) && stamped_before(b, a) {
        lemma_lex_antisymmetric(a.actor, b.actor);
    }
}

/// Two newest-first logs that hold the same operations are the same log.
pub proof fn lemma_newest_first_determined(l1: Seq<OpView>, l2: Seq<OpView>)
    requires
        newest_first(l1),
        newest_first(l2),
        l1.to_set() == l2.to_set(),
    ensures
        l1 == l2,
    decreases l1.len(),
{
    if l1.len() == 0 {
        if l2.len() > 0 {
            assert(l2.to_set().contains(l2[0]));
        }
        assert(l1 =~= l2);
    } else {
        assert(l1.to_set().contains(l1[0]));
        assert(l2.len() > 0);
        let x = l1[0];
        let y = l2[0];
        assert(l2.to_set().contains(y));
        let k = choose|k: int| 0 <= k < l1.len() && l1[k] == y;
        let m = choose|m: int| 0 <= m < l2.len() && l2[m] == x;
        if x != y {
            assert(k > 0 && m > 0);
            assert(stamped_before(l1[k], l1[0]));
            assert(stamped_before(l2[m], l2[0]));
            lemma_stamped_before_strict(x, y);
        }
        let r1 = l1.drop_first();
        let r2 = l2.drop_first();
        assert forall|i: int, j: int| 0 <= i < j < r1.len() implies stamped_before(#[trigger] r1[j], #[trigger] r1[i]) by {
            assert(r1[j] == l1[j + 1] && r1[i] == l1[i + 1]);
        }
        assert forall|i: int, j: int| 0 <= i < j < r2.len() implies stamped_before(#[trigger] r2[j], #[trigger] r2[i]) by {
            assert(r2[j] == l2[j + 1] && r2[i] == l2[i + 1]);
        }
        assert forall|z: OpView| r1.to_set().contains(z) implies r2.to_set().contains(z) by {
            let j = choose|j: int| 0 <= j < r1.len() && r1[j] == z;
            assert(l1[j + 1] == z);
            assert(stamped_before(l1[j + 1], l1[0]));
            lemma_stamped_before_strict(z, z);
            assert(l1.to_set().contains(z));
            let q = choose|q: int| 0 <= q < l2.len() && l2[q] == z;
            assert(q != 0);
            assert(r2[q - 1] == z);
        }
        assert forall|z: OpView| r2.to_set().contains(z) implies r1.to_set().contains(z) by {
            let j = choose|j: int| 0 <= j < r2.len() && r2[j] == z;
            assert(l2[j + 1] == z);
            assert(stamped_before(l2[j + 1], l2[0]));
            lemma_stamped_before_strict(z, z);
            assert(l2.to_set().contains(z));
            let q = choose|q: int| 0 <= q < l1.len() && l1[q] == z;
            assert(q != 0);
            assert(r1[q - 1] == z);
        }
        assert(r1.to_set() =~= r2.to_set());
        lemma_newest_first_determined(r1, r2);
        assert(l1 =~= seq![x] + r1);
        assert(l2 =~= seq![y] + r2);
    }
}

/// Timestamps identify operations: no two different operations share
/// one.
pub open spec fn stamps_identify(ops: Set<OpView>) -> bool {
    forall|a: OpView, b: OpView| ops.contains(a) && ops.contains(b) && op_id(a) == op_id(b) ==> a == b
}

/// A merge of received operations into a log: every received operation's
/// timestamp ends up logged, nothing logged is lost, and nothing else is
/// logged.
pub open spec fn merges(log0: Seq<OpView>, ops: Seq<OpView>, log1: Seq<OpView>) -> bool {
    &&& forall|i: int| 0 <= i < ops.len() ==> #[trigger] timestamp_taken(log1, ops[i])
    &&& forall|x: OpView| log0.contains(x) ==> #[trigger] log1.contains(x)
    &&& forall|x: OpView| #[trigger] log1.contains(x) ==> log0.contains(x) || ops.contains(x)
}

/// Where timestamps identify operations, a merge logs exactly the old
/// operations and the received ones.
pub proof fn lemma_merge_holds_union(log0: Seq<OpView>, ops: Seq<OpView>, log1: Seq<OpView>)
    requires
        merges(log0, ops, log1),
        stamps_identify(log0.to_set() + ops.to_set()),
    ensures
        log1.to_set() == log0.to_set() + ops.to_set(),
{
    assert forall|x: OpView| (log0.to_set() + ops.to_set()).contains(x) implies log1.to_set().contains(x) by {
        if !log0.contains(x) {
            let i = choose|i: int| 0 <= i < ops.len() && ops[i] == x;
            assert(timestamp_taken(log1, ops[i]));
            let q = choose|q: int| 0 <= q < log1.len() && #[trigger] log1[q].counter == ops[i].counter && log1[q].actor == ops[i].actor;
            assert(log1.contains(log1[q]));
            assert(op_id(log1[q]) == op_id(x));
        }
    }
    assert(log1.to_set() =~= log0.to_set() + ops.to_set());
}

/// Some logged operation has the operation's timestamp.
pub open spec fn timestamp_taken(log: Seq<OpView>, op: OpView) -> bool {
    exists|i: int| 0 <= i < log.len() && #[trigger] log[i].counter == op.counter && log[i].actor == op.actor
}

/// `ids` lists the children of `parent`, each once.
pub open spec fn lists_children(nodes: Map<u128, (u128, MetaView)>, parent: u128, ids: Seq<NodeId>) -> bool {
    &&& forall|a: int, b: int| 0 <= a < ids.len() && 0 <= b < ids.len() && a != b ==> #[trigger] ids[a] != #[trigger] ids[b]
    &&& forall|i: int| 0 <= i < ids.len() ==> nodes.contains_key(#[trigger] ids[i].id) && nodes[ids[i].id].0 == parent
    &&& forall|c: u128| #[trigger] nodes.contains_key(c) && nodes[c].0 == parent
        ==> (exists|i: int| 0 <= i < ids.len() && #[trigger] ids[i].id == c)
}

/// Calls `crdt_tree::TreeReplica::new`: a replica for the actor with no
/// nodes and an empty log.
#[verifier::external_body]
fn replica_new(actor: PeerKey) -> (replica: Replica)
    ensures
        replica_nodes(replica).dom() == Set::<u128>::empty(),
        replica_log(replica).len() == 0,
{
    Replica { inner: crdt_tree::TreeReplica::new(actor) }
}

/// Calls `find` on the replica's tree: the parent and metadata of the
/// node, if the tree holds it.
#[verifier::external_body]
fn replica_find(r: &Replica, node_id: NodeId) -> (res: Option<(NodeId, &NodeMeta)>)
    ensures
        match res {
            Some((parent, meta)) => replica_nodes(*r).contains_key(node_id.id) && replica_nodes(*r)[node_id.id] == (parent.id, meta@),
            None => !replica_nodes(*r).contains_key(node_id.id),
        },
{
    r.inner.tree().find(&node_id).map(|node| (*node.parent_id(), node.metadata()))
}

/// Calls `children` on the replica's tree: the ids of the nodes whose
/// parent is `parent_id`, each once, in no particular order (the tree
/// keeps them in a hash set).
#[verifier::external_body]
fn replica_children(r: &Replica, parent_id: NodeId) -> (res: Vec<NodeId>)
    ensures
        lists_children(replica_nodes(*r), parent_id.id, res@),
{
    r.inner.tree().children(&parent_id)
}

/// Calls `crdt_tree::TreeReplica::apply_op` with the operation.
///
/// Claimed, as the crate's `State::apply_op` and `do_op` show: an
/// operation later than every logged one is applied to the tree as a
/// move that is skipped when it would put a node under itself, and is
/// logged first; an operation whose timestamp is already logged changes
/// nothing; otherwise the log gains the operation (the crate undoes the
/// later operations, applies it and redoes them). The crate ensures that
/// no move introduces a cycle, so an acyclic tree stays acyclic. The log
/// stays in descending timestamp order (`State::apply_op` compares with
/// the newest entry, takes it off, recurses and puts it back in front),
/// and the tree stays the replay of the log: undoing the later moves from
/// their logged old parents, applying the operation and redoing them
/// gives the tree that applying every logged move in timestamp order
/// gives.
#[verifier::external_body]
fn replica_apply(r: &mut Replica, op: NodeOperation)
    requires
        acyclic(replica_nodes(*old(r))),
        newest_first(replica_log(*old(r))),
        replica_nodes(*old(r)) == replay(replica_log(*old(r))),
    ensures
        acyclic(replica_nodes(*final(r))),
        newest_first(replica_log(*final(r))),
        replica_nodes(*final(r)) == replay(replica_log(*final(r))),
        is_fresh(replica_log(*old(r)), op@) ==> {
            &&& replica_nodes(*final(r)) == move_result(replica_nodes(*old(r)), op@)
            &&& replica_log(*final(r)) == seq![op@] + replica_log(*old(r))
        },
        timestamp_taken(replica_log(*old(r)), op@) ==> {
            &&& replica_nodes(*final(r)) == replica_nodes(*old(r))
            &&& replica_log(*final(r)) == replica_log(*old(r))
        },
        !timestamp_taken(replica_log(*old(r)), op@) ==> replica_log(*final(r)).to_multiset() == replica_log(*old(r)).to_multiset().insert(op@),
{
    let NodeOperation { actor, counter, parent_id, meta, child_id } = op;
    r.inner.apply_op(crdt_tree::OpMove::new(crdt_tree::Clock::new(actor, Some(counter)), parent_id, meta, child_id))
}

/// Reads the replica's operation log, newest first, converting each
/// logged move into an operation.
#[verifier::external_body]
fn replica_log_ops(r: &Replica) -> (res: Vec<NodeOperation>)
    ensures
        op_views(res@) == replica_log(*r),
{
    r.inner.state().log().iter().map(|entry| NodeOperation {
        actor: entry.timestamp().actor_id().clone(),
        counter: entry.timestamp().counter(),
        parent_id: *entry.parent_id(),
        meta: entry.metadata().clone(),
        child_id: *entry.child_id(),
    }).collect()
}

/// The ids of two operations' timestamps, seen as values.
pub open spec fn id_view(id: (PeerKey, u64)) -> (Seq<u8>, u64) {
    (id.0@, id.1)
}

/// The timestamp of a logged operation.
pub open spec fn op_id(op: OpView) -> (Seq<u8>, u64) {
    (op.actor, op.counter)
}

/// Holds of the operations whose timestamp is not among `ids`.
pub open spec fn not_listed(ids: Seq<(Seq<u8>, u64)>) -> spec_fn(OpView) -> bool {
    |op: OpView| !ids.contains(op_id(op))
}

/// The relation between a tree before and after it applies one operation.
pub open spec fn applies(
    nodes0: Map<u128, (u128, MetaView)>,
    log0: Seq<OpView>,
    nodes1: Map<u128, (u128, MetaView)>,
    log1: Seq<OpView>,
    op: OpView,
) -> bool {
    &&& acyclic(nodes1)
    &&& is_fresh(log0, op) ==> nodes1 == move_result(nodes0, op) && log1 == seq![op] + log0
    &&& timestamp_taken(log0, op) ==> nodes1 == nodes0 && log1 == log0
    &&& !timestamp_taken(log0, op) ==> log1.to_multiset() == log0.to_multiset().insert(op)
}

/// The metadata tree of the file system: a replicated tree of nodes whose
/// operations are stamped by a hybrid logical clock.
pub struct NodeTree {
    peer: PeerKey,
    tree: Replica,
    clock: HybridLogicalClock,
}

impl NodeTree {
    /// For each node id, its parent and its metadata.
    pub closed spec fn nodes(&self) -> Map<u128, (u128, MetaView)> {
        replica_nodes(self.tree)
    }

    /// The applied operations, newest first.
    pub closed spec fn log(&self) -> Seq<OpView> {
        replica_log(self.tree)
    }

    /// The peer whose operations this tree stamps.
    pub closed spec fn peer(&self) -> Seq<u8> {
        self.peer@
    }

    /// The clock that stamps local operations.
    pub closed spec fn clock(&self) -> HybridLogicalClock {
        self.clock
    }

    /// The tree is consistent: finite and without cycles, its log runs
    /// newest first, and its nodes are the replay of its log.
    pub closed spec fn wf(&self) -> bool {
        &&& acyclic(replica_nodes(self.tree))
        &&& newest_first(replica_log(self.tree))
        &&& replica_nodes(self.tree) == replay(replica_log(self.tree))
    }

    /// A consistent tree is finite and without cycles.
    pub proof fn lemma_wf_acyclic(&self)
        requires
            self.wf(),
        ensures
            acyclic(self.nodes()),
    {
    }

    /// The clock is in range and at or past every logged timestamp, so
    /// that the next local operation is later than all logged ones.
    pub open spec fn in_order(&self) -> bool {
        &&& in_range(self.clock().physical(), self.clock().logical())
        &&& forall|i: int| 0 <= i < self.log().len() ==> #[trigger] self.log()[i].counter <= self.clock().reading()
    }

    /// The clock can stamp one more operation without leaving its range,
    /// given that the physical reading stays in range.
    pub open spec fn clock_has_room(&self) -> bool {
        self.clock().logical() < LOGICAL_MASK
    }

    /// An empty tree for the peer.
    pub fn new(peer: PeerKey) -> (r: NodeTree)
        ensures
            r.wf(),
            r.nodes().dom() == Set::<u128>::empty(),
            r.log().len() == 0,
            r.peer() == peer@,
            r.in_order(),
    {
        let actor = peer.duplicate();
        let tree = replica_new(actor);
        let r = NodeTree { peer, tree, clock: HybridLogicalClock::new() };
        proof {
            assert(replica_nodes(r.tree).dom().finite());
            assert forall|c: u128| !#[trigger] is_ancestor(replica_nodes(r.tree), c, c) by {
                if is_ancestor(replica_nodes(r.tree), c, c) {
                    let k = choose|k: nat| parent_chain(replica_nodes(r.tree), c, k) == Some(c);
                    assert(!replica_nodes(r.tree).dom().contains(c));
                }
            }
            assert(in_range(0, 0));
            assert(replica_nodes(r.tree) =~= replay(replica_log(r.tree)));
        }
        r
    }

    /// A move operation of `node_id` under `parent_id`, stamped by the
    /// clock.
    fn move_operation(&mut self, node_id: NodeId, parent_id: NodeId, metadata: NodeMeta) -> (op: NodeOperation)
        ensures
            final(self).nodes() == old(self).nodes(),
            final(self).log() == old(self).log(),
            final(self).peer() == old(self).peer(),
            final(self).wf() == old(self).wf(),
            op@ == (OpView { actor: old(self).peer(), counter: final(self).clock().reading(), parent: parent_id.id, meta: metadata@, child: node_id.id }),
            old(self).in_order() && old(self).clock_has_room() && final(self).clock().physical() < PHYSICAL_LIMIT ==> {
                &&& is_fresh(old(self).log(), op@)
                &&& in_range(final(self).clock().physical(), final(self).clock().logical())
            },
    {
        let counter = self.clock.next();
        proof {
            let now = choose|now: u64| {
                &&& (self.clock.physical(), self.clock.logical()) == crate::hlc::next_state(
                    old(self).clock.physical(),
                    old(self).clock.logical(),
                    now,
                )
                &&& counter == self.clock.reading()
                &&& (in_range(old(self).clock.physical(), old(self).clock.logical()) && old(self).clock.logical()
                    < LOGICAL_MASK && now < PHYSICAL_LIMIT ==> counter > old(self).clock.reading())
            };
            if old(self).in_order() && old(self).clock_has_room() && self.clock.physical() < PHYSICAL_LIMIT {
                assert(now < PHYSICAL_LIMIT);
                assert(self.clock.logical() <= LOGICAL_MASK);
            }
        }
        NodeOperation { actor: self.peer.duplicate(), counter, parent_id, meta: metadata, child_id: node_id }
    }

    proof fn lemma_local_apply_in_order(old_tree: &NodeTree, mid: &NodeTree, new_tree: &NodeTree, op: OpView)
        requires
            mid.log() == old_tree.log(),
            new_tree.clock() == mid.clock(),
            op.counter == mid.clock().reading(),
            old_tree.in_order() && old_tree.clock_has_room() && mid.clock().physical() < PHYSICAL_LIMIT ==> {
                &&& is_fresh(old_tree.log(), op)
                &&& in_range(mid.clock().physical(), mid.clock().logical())
            },
            is_fresh(old_tree.log(), op) ==> new_tree.log() == seq![op] + old_tree.log(),
        ensures
            old_tree.in_order() && old_tree.clock_has_room() && new_tree.clock().physical() < PHYSICAL_LIMIT ==> new_tree.in_order(),
    {
        if old_tree.in_order() && old_tree.clock_has_room() && new_tree.clock().physical() < PHYSICAL_LIMIT {
            assert forall|i: int| 0 <= i < new_tree.log().len() implies #[trigger] new_tree.log()[i].counter <= new_tree.clock().reading() by {
                if i > 0 {
                    assert(new_tree.log()[i] == old_tree.log()[i - 1]);
                }
            }
        }
    }

    /// Creates `node_id` under `parent_id` and returns the operation that
    /// did it.
    pub fn create_node(&mut self, parent_id: NodeId, node_id: NodeId, metadata: NodeMeta) -> (op: NodeOperation)
        requires
            old(self).wf(),
        ensures
            final(self).wf(),
            final(self).peer() == old(self).peer(),
            op@ == (OpView { actor: old(self).peer(), counter: op.counter, parent: parent_id.id, meta: metadata@, child: node_id.id }),
            applies(old(self).nodes(), old(self).log(), final(self).nodes(), final(self).log(), op@),
            old(self).in_order() && old(self).clock_has_room() && final(self).clock().physical() < PHYSICAL_LIMIT ==> {
                &&& is_fresh(old(self).log(), op@)
                &&& final(self).in_order()
            },
    {
        let operation = self.move_operation(node_id, parent_id, metadata);
        let ghost mid = *self;
        replica_apply(&mut self.tree, operation.duplicate());
        proof {
            Self::lemma_local_apply_in_order(old(self), &mid, self, operation@);
        }
        operation
    }

    /// Moves `node_id` under `parent_id` with new metadata; refused when
    /// the tree does not hold the node.
    pub fn move_node(&mut self, node_id: NodeId, parent_id: NodeId, metadata: NodeMeta) -> (r: Result<NodeOperation, NodeTreeError>)
        requires
            old(self).wf(),
        ensures
            final(self).wf(),
            final(self).peer() == old(self).peer(),
            match r {
                Ok(op) => {
                    &&& old(self).nodes().contains_key(node_id.id)
                    &&& op@ == (OpView { actor: old(self).peer(), counter: op.counter, parent: parent_id.id, meta: metadata@, child: node_id.id })
                    &&& applies(old(self).nodes(), old(self).log(), final(self).nodes(), final(self).log(), op@)
                    &&& (old(self).in_order() && old(self).clock_has_room() && final(self).clock().physical() < PHYSICAL_LIMIT ==> {
                        &&& is_fresh(old(self).log(), op@)
                        &&& final(self).in_order()
                    })
                },
                Err(e) => {
                    &&& e is NotFound
                    &&& !old(self).nodes().contains_key(node_id.id)
                    &&& *final(self) == *old(self)
                },
            },
    {
        if replica_find(&self.tree, node_id).is_none() {
            return Err(NodeTreeError::NotFound);
        }
        let operation = self.move_operation(node_id, parent_id, metadata);
        let ghost mid = *self;
        replica_apply(&mut self.tree, operation.duplicate());
        proof {
            Self::lemma_local_apply_in_order(old(self), &mid, self, operation@);
        }
        Ok(operation)
    }

    /// Moves `node_id` under the trash, keeping its metadata; refused for
    /// the root and the trash themselves and for a node the tree does not
    /// hold.
    pub fn delete_node(&mut self, node_id: NodeId) -> (r: Result<NodeOperation, NodeTreeError>)
        requires
            old(self).wf(),
        ensures
            final(self).wf(),
            final(self).peer() == old(self).peer(),
            match r {
                Ok(op) => {
                    &&& !node_id.spec_is_reserved()
                    &&& old(self).nodes().contains_key(node_id.id)
                    &&& op@ == (OpView { actor: old(self).peer(), counter: op.counter, parent: NodeId::spec_trash().id, meta: old(self).nodes()[node_id.id].1, child: node_id.id })
                    &&& applies(old(self).nodes(), old(self).log(), final(self).nodes(), final(self).log(), op@)
                    &&& (old(self).in_order() && old(self).clock_has_room() && final(self).clock().physical() < PHYSICAL_LIMIT ==> {
                        &&& is_fresh(old(self).log(), op@)
                        &&& final(self).in_order()
                    })
                },
                Err(e) => {
                    &&& *final(self) == *old(self)
                    &&& (e is ReservedNode <==> node_id.spec_is_reserved())
                    &&& (e is NotFound <==> (!node_id.spec_is_reserved() && !old(self).nodes().contains_key(node_id.id)))
                },
            },
    {
        if node_id.is_reserved() {
            return Err(NodeTreeError::ReservedNode);
        }
        let metadata = match replica_find(&self.tree, node_id) {
            Some((_, meta)) => meta.duplicate(),
            None => {
                return Err(NodeTreeError::NotFound);
            },
        };
        let operation = self.move_operation(node_id, NodeId::trash(), metadata);
        let ghost mid = *self;
        replica_apply(&mut self.tree, operation.duplicate());
        proof {
            Self::lemma_local_apply_in_order(old(self), &mid, self, operation@);
        }
        Ok(operation)
    }

    /// The metadata of the node, if the tree holds it.
    pub fn metadata(&self, node_id: NodeId) -> (r: Option<&NodeMeta>)
        ensures
            match r {
                Some(meta) => self.nodes().contains_key(node_id.id) && meta@ == self.nodes()[node_id.id].1,
                None => !self.nodes().contains_key(node_id.id),
            },
    {
        match replica_find(&self.tree, node_id) {
            Some((_, meta)) => Some(meta),
            None => None,
        }
    }

    /// The parent of the node, if the tree holds it.
    pub fn parent_id(&self, node_id: NodeId) -> (r: Option<NodeId>)
        ensures
            match r {
                Some(parent) => self.nodes().contains_key(node_id.id) && parent.id == self.nodes()[node_id.id].0,
                None => !self.nodes().contains_key(node_id.id),
            },
    {
        match replica_find(&self.tree, node_id) {
            Some((parent, _)) => Some(parent),
            None => None,
        }
    }

    /// The children of a node, each once, in no particular order; refused
    /// for a node that is neither reserved nor held by the tree.
    pub fn children(&self, parent_id: NodeId) -> (r: Result<Vec<NodeId>, NodeTreeError>)
        ensures
            match r {
                Ok(ids) => {
                    &&& (parent_id.spec_is_reserved() || self.nodes().contains_key(parent_id.id))
                    &&& lists_children(self.nodes(), parent_id.id, ids@)
                },
                Err(e) => e is NotFound && !parent_id.spec_is_reserved() && !self.nodes().contains_key(parent_id.id),
            },
    {
        if !parent_id.is_reserved() {
            if replica_find(&self.tree, parent_id).is_none() {
                return Err(NodeTreeError::NotFound);
            }
        }
        let ids = replica_children(&self.tree, parent_id);
        Ok(ids)
    }

    /// Whether the node lies directly in the trash.
    pub fn is_trashed(&self, node_id: NodeId) -> (r: bool)
        ensures
            r == (self.nodes().contains_key(node_id.id) && self.nodes()[node_id.id].0 == NodeId::spec_trash().id),
    {
        match self.parent_id(node_id) {
            Some(parent) => parent.id == NodeId::trash().id,
            None => false,
        }
    }

    /// Merges operations received from other peers: the clock observes
    /// each timestamp, then each operation is applied in turn.
    ///
    /// Afterwards every operation's timestamp is logged and no logged
    /// operation is lost.
    pub fn apply_operations(&mut self, operations: Vec<NodeOperation>)
        requires
            old(self).wf(),
        ensures
            final(self).wf(),
            final(self).peer() == old(self).peer(),
            forall|i: int| 0 <= i < operations@.len() ==> #[trigger] timestamp_taken(final(self).log(), operations@[i]@),
            forall|x: OpView| old(self).log().contains(x) ==> #[trigger] final(self).log().contains(x),
            merges(old(self).log(), op_views(operations@), final(self).log()),
            (forall|i: int| 0 <= i < operations@.len() ==> #[trigger] timestamp_taken(old(self).log(), operations@[i]@))
                ==> final(self).nodes() == old(self).nodes() && final(self).log() == old(self).log(),
            old(self).in_order() && in_range(final(self).clock().physical(), final(self).clock().logical()) ==> final(self).in_order(),
    {
        broadcast use vstd::seq_lib::group_to_multiset_ensures;

        let ghost c0 = self.clock;
        let mut i: usize = 0;
        while i < operations.len()
            invariant
                0 <= i <= operations@.len(),
                self.tree == old(self).tree,
                self.peer == old(self).peer,
                self.clock.physical() >= c0.physical(),
                in_range(c0.physical(), c0.logical()) ==> in_range(self.clock.physical(), self.clock.logical()) || self.clock.physical() >= PHYSICAL_LIMIT,
                in_range(c0.physical(), c0.logical()) && in_range(self.clock.physical(), self.clock.logical()) ==> {
                    &&& self.clock.reading() >= c0.reading()
                    &&& forall|j: int| 0 <= j < i ==> #[trigger] operations@[j].counter <= self.clock.reading()
                },
            decreases operations@.len() - i,
        {
            let ghost before = self.clock;
            self.clock.observe(operations[i].counter);
            proof {
                let now = choose|now: u64| {
                    &&& (self.clock.physical(), self.clock.logical()) == crate::hlc::observe_state(
                        before.physical(),
                        before.logical(),
                        operations@[i as int].counter,
                        now,
                    )
                    &&& (in_range(before.physical(), before.logical()) && now
                        < PHYSICAL_LIMIT ==> self.clock.reading() >= operations@[i as int].counter
                        && self.clock.reading() >= before.reading()
                        && in_range(self.clock.physical(), self.clock.logical()))
                };
                assert(now <= self.clock.physical());
                assert(before.physical() <= self.clock.physical());
            }
            i = i + 1;
        }
        let ghost c1 = self.clock;
        let mut k: usize = 0;
        let mut remaining = operations;
        let ghost all = remaining@;
        proof {
            assert(all.len() == remaining.len());
        }
        let ghost all_taken = forall|j: int| 0 <= j < all.len() ==> #[trigger] timestamp_taken(old(self).log(), all[j]@);
        while remaining.len() > 0
            invariant
                all.len() <= usize::MAX,
                all == operations@,
                all_taken == forall|j: int| 0 <= j < all.len() ==> #[trigger] timestamp_taken(old(self).log(), all[j]@),
                all_taken ==> replica_nodes(self.tree) == replica_nodes(old(self).tree) && replica_log(self.tree) == replica_log(old(self).tree),
                self.wf(),
                self.peer == old(self).peer,
                self.clock == c1,
                0 <= k <= all.len(),
                remaining@ == all.skip(k as int),
                forall|j: int| 0 <= j < k ==> #[trigger] timestamp_taken(self.log(), all[j]@),
                forall|x: OpView| old(self).log().contains(x) ==> #[trigger] self.log().contains(x),
                forall|x: OpView| #[trigger] self.log().contains(x) ==> old(self).log().contains(x) || exists|j: int| 0 <= j < k && all[j]@ == x,
            decreases remaining@.len(),
        {
            let op = remaining.remove(0);
            let ghost log0 = self.log();
            proof {
                assert(op == all[k as int]);
                assert(remaining@ =~= all.skip(k + 1));
            }
            replica_apply(&mut self.tree, op);
            proof {
                if all_taken {
                    assert(timestamp_taken(old(self).log(), all[k as int]@));
                }
                let log1 = self.log();
                log0.to_multiset_ensures();
                log1.to_multiset_ensures();
                if !timestamp_taken(log0, op@) {
                    assert(log1.to_multiset().count(op@) > 0);
                    assert(log1.contains(op@));
                    let q = choose|q: int| 0 <= q < log1.len() && log1[q] == op@;
                    assert(log1[q].counter == op@.counter);
                }
                assert forall|x: OpView| log0.contains(x) implies #[trigger] log1.contains(x) by {
                    if !timestamp_taken(log0, op@) {
                        assert(log0.to_multiset().count(x) > 0);
                        assert(log1.to_multiset().count(x) > 0);
                    }
                }
                assert forall|x: OpView| #[trigger] log1.contains(x) implies old(self).log().contains(x) || exists|j: int| 0 <= j < k + 1 && all[j]@ == x by {
                    if !timestamp_taken(log0, op@) {
                        assert(log1.to_multiset().count(x) > 0);
                        if x != op@ {
                            assert(log0.to_multiset().count(x) > 0);
                            assert(log0.contains(x));
                        } else {
                            assert(all[k as int]@ == x);
                        }
                    } else {
                        assert(log0.contains(x));
                    }
                    if log0.contains(x) && !old(self).log().contains(x) {
                        let j = choose|j: int| 0 <= j < k && all[j]@ == x;
                        assert(0 <= j < k + 1 && all[j]@ == x);
                    }
                }
                assert forall|j: int| 0 <= j < k + 1 implies #[trigger] timestamp_taken(self.log(), all[j]@) by {
                    if j < k {
                        assert(timestamp_taken(log0, all[j]@));
                        let q = choose|q: int| 0 <= q < log0.len() && #[trigger] log0[q].counter == all[j]@.counter && log0[q].actor == all[j]@.actor;
                        assert(log0.contains(log0[q]));
                        assert(log1.contains(log0[q]));
                        let q1 = choose|q1: int| 0 <= q1 < log1.len() && log1[q1] == log0[q];
                        assert(log1[q1].counter == all[j]@.counter);
                    }
                }
            }
            k = k + 1;
        }
        proof {
            assert(k == all.len());
            assert forall|x: OpView| #[trigger] self.log().contains(x) implies old(self).log().contains(x) || op_views(operations@).contains(x) by {
                if !old(self).log().contains(x) {
                    let j = choose|j: int| 0 <= j < k && all[j]@ == x;
                    assert(op_views(operations@)[j] == x);
                }
            }
            assert forall|i: int| 0 <= i < op_views(operations@).len() implies #[trigger] timestamp_taken(self.log(), op_views(operations@)[i]) by {
                assert(op_views(operations@)[i] == all[i]@);
            }
            if old(self).in_order() && in_range(self.clock.physical(), self.clock.logical()) {
                assert forall|q: int| 0 <= q < self.log().len() implies #[trigger] self.log()[q].counter <= self.clock().reading() by {
                    let x = self.log()[q];
                    assert(self.log().contains(x));
                    if old(self).log().contains(x) {
                        let p = choose|p: int| 0 <= p < old(self).log().len() && old(self).log()[p] == x;
                        assert(old(self).log()[p].counter <= c0.reading());
                    } else {
                        let j = choose|j: int| 0 <= j < k && all[j]@ == x;
                        assert(all[j].counter <= c1.reading());
                    }
                }
            }
        }
    }

    /// The id of every logged operation, newest first.
    pub fn operation_ids(&self) -> (r: Vec<(PeerKey, u64)>)
        ensures
            r@.len() == self.log().len(),
            forall|i: int| 0 <= i < r@.len() ==> #[trigger] id_view(r@[i]) == op_id(self.log()[i]),
    {
        let ops = replica_log_ops(&self.tree);
        let mut r: Vec<(PeerKey, u64)> = Vec::new();
        let mut i: usize = 0;
        while i < ops.len()
            invariant
                op_views(ops@) == self.log(),
                0 <= i <= ops@.len(),
                r@.len() == i,
                forall|j: int| 0 <= j < i ==> #[trigger] id_view(r@[j]) == op_id(self.log()[j]),
            decreases ops@.len() - i,
        {
            let op = &ops[i];
            proof {
                assert(op_views(ops@)[i as int] == op@);
            }
            r.push((op.actor.duplicate(), op.counter));
            i = i + 1;
        }
        r
    }

    /// The logged operations, newest first, whose ids are not among `ids`.
    pub fn operations_missing_from(&self, ids: &Vec<(PeerKey, u64)>) -> (r: Vec<NodeOperation>)
        ensures
            op_views(r@) == self.log().filter(not_listed(ids@.map_values(|id: (PeerKey, u64)| id_view(id)))),
    {
        let ghost known = ids@.map_values(|id: (PeerKey, u64)| id_view(id));
        let ops = replica_log_ops(&self.tree);
        let mut r: Vec<NodeOperation> = Vec::new();
        let mut i: usize = 0;
        proof {
            assert(self.log().take(0) =~= Seq::<OpView>::empty());
            assert(Seq::<OpView>::empty().filter(not_listed(known)) =~= Seq::<OpView>::empty()) by {
                reveal(Seq::filter);
            }
        }
        while i < ops.len()
            invariant
                op_views(ops@) == self.log(),
                known == ids@.map_values(|id: (PeerKey, u64)| id_view(id)),
                0 <= i <= ops@.len(),
                op_views(r@) == self.log().take(i as int).filter(not_listed(known)),
            decreases ops@.len() - i,
        {
            let op = &ops[i];
            proof {
                assert(op_views(ops@)[i as int] == op@);
            }
            let mut listed = false;
            let mut j: usize = 0;
            while j < ids.len()
                invariant
                    0 <= j <= ids@.len(),
                    known == ids@.map_values(|id: (PeerKey, u64)| id_view(id)),
                    listed == exists|q: int| 0 <= q < j && known[q] == op_id(op@),
                decreases ids@.len() - j,
            {
                let id = &ids[j];
                if id.1 == op.counter && id.0.same(&op.actor) {
                    listed = true;
                }
                proof {
                    assert(known[j as int] == id_view(*id));
                }
                j = j + 1;
            }
            proof {
                if listed {
                    let q = choose|q: int| 0 <= q < ids@.len() && known[q] == op_id(op@);
                    assert(known.contains(op_id(op@)));
                } else if known.contains(op_id(op@)) {
                    let q = choose|q: int| 0 <= q < known.len() && known[q] == op_id(op@);
                    assert(false);
                }
                let t = self.log().take(i as int);
                assert(self.log().take(i + 1) =~= t.push(op@));
                t.lemma_filter_push(op@, not_listed(known));
            }
            if !listed {
                let ghost r0 = r@;
                r.push(op.duplicate());
                proof {
                    assert(op_views(r@) =~= op_views(r0).push(op@));
                }
            }
            i = i + 1;
        }
        proof {
            assert(self.log().take(i as int) =~= self.log());
        }
        r
    }
}

/// What a sync answers: asked for the operations missing from the ids of
/// a log, the log answers nothing.
pub proof fn law_nothing_missing_from_own_ids(log: Seq<OpView>)
    ensures
        log.filter(not_listed(log.map_values(|op: OpView| op_id(op)))) == Seq::<OpView>::empty(),
{
    let ids = log.map_values(|op: OpView| op_id(op));
    assert forall|i: int| 0 <= i < log.len() implies !not_listed(ids)(#[trigger] log[i]) by {
        assert(ids[i] == op_id(log[i]));
        assert(ids.contains(op_id(log[i])));
    }
    log.lemma_all_neg_filter_empty(not_listed(ids));
}


/// Convergence: two trees that hold the same operations hold the same
/// nodes, each with the same parent and metadata, and the same log.
pub proof fn law_same_operations_same_tree(t1: &NodeTree, t2: &NodeTree)
    requires
        t1.wf(),
        t2.wf(),
        t1.log().to_set() == t2.log().to_set(),
    ensures
        t1.log() == t2.log(),
        t1.nodes() == t2.nodes(),
{
    lemma_newest_first_determined(t1.log(), t2.log());
}

/// Convergence of merges: two trees that held the same operations and
/// merged the same received operations, in any order and with any
/// repeats, hold the same nodes afterwards, provided timestamps identify
/// operations.
pub proof fn law_merges_converge(
    log1: Seq<OpView>,
    ops1: Seq<OpView>,
    u1: &NodeTree,
    log2: Seq<OpView>,
    ops2: Seq<OpView>,
    u2: &NodeTree,
)
    requires
        u1.wf(),
        u2.wf(),
        merges(log1, ops1, u1.log()),
        merges(log2, ops2, u2.log()),
        log1.to_set() == log2.to_set(),
        ops1.to_set() == ops2.to_set(),
        stamps_identify(log1.to_set() + ops1.to_set()),
    ensures
        u1.nodes() == u2.nodes(),
        u1.log() == u2.log(),
{
    lemma_merge_holds_union(log1, ops1, u1.log());
    lemma_merge_holds_union(log2, ops2, u2.log());
    law_same_operations_same_tree(u1, u2);
}

} // verus!
