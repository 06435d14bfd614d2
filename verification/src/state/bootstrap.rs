//! The bootstrap server's view of the ring, and the client that sends
//! requests through it.
use vstd::prelude::*;

use indexmap::IndexSet;

use crate::setup::hostsfile::{ClientId, ObjectId};
use crate::state::messaging::{spec_is_obj_response, Message, Operation, RequestId};
use crate::text::{decimal, push_bytes, push_decimal};
use vstd::string::StringSliceAdditionalSpecFns;

verus! {

/// The id of a node of the ring; node `n` answers at host `n<id>`.
pub type NodeId = u64;

#[verifier::external_type_specification]
#[verifier::external_body]
#[verifier::reject_recursive_types(T)]
#[verifier::reject_recursive_types(S)]
pub struct ExIndexSet<T, S>(IndexSet<T, S>);

/// The node ids that a set holds, in the set's order.
pub uninterp spec fn set_nodes(set: IndexSet<NodeId>) -> Seq<NodeId>;

/// `IndexSet::new`: a set that holds nothing.
#[verifier::external_body]
fn node_set_new() -> (set: IndexSet<NodeId>)
    ensures
        set_nodes(set) == Seq::<NodeId>::empty(),
{
    IndexSet::new()
}

/// `IndexSet::insert`: a value already held leaves the set as it was, in the
/// same order, and gives `false`; a new value goes last and gives `true`.
#[verifier::external_body]
fn node_set_insert(set: &mut IndexSet<NodeId>, node: NodeId) -> (added: bool)
    ensures
        added == !set_nodes(*old(set)).contains(node),
        set_nodes(*final(set)) == (if added {
            set_nodes(*old(set)).push(node)
        } else {
            set_nodes(*old(set))
        }),
{
    set.insert(node)
}

/// `IndexSet::sort`: the same values, each as often as before, now in
/// ascending order.
#[verifier::external_body]
fn node_set_sort(set: &mut IndexSet<NodeId>)
    ensures
        set_nodes(*final(set)).to_multiset() == set_nodes(*old(set)).to_multiset(),
        forall|i: int, j: int|
            0 <= i <= j < set_nodes(*final(set)).len() ==> set_nodes(*final(set))[i]
                <= set_nodes(*final(set))[j],
{
    set.sort()
}

/// `IndexSet::len`: how many values the set holds.
#[verifier::external_body]
fn node_set_len(set: &IndexSet<NodeId>) -> (len: usize)
    ensures
        len == set_nodes(*set).len(),
{
    set.len()
}

/// `IndexSet::get_index_of`: the position of `node` in the set's order, if
/// the set holds it.
#[verifier::external_body]
fn node_set_get_index_of(set: &IndexSet<NodeId>, node: NodeId) -> (index: Option<usize>)
    ensures
        match index {
            Some(i) => i < set_nodes(*set).len() && set_nodes(*set)[i as int] == node,
            None => !set_nodes(*set).contains(node),
        },
{
    set.get_index_of(&node)
}

/// `IndexSet::get_index`: the value at position `index`, if there is one.
#[verifier::external_body]
fn node_set_get_index(set: &IndexSet<NodeId>, index: usize) -> (node: Option<NodeId>)
    ensures
        node == (if index < set_nodes(*set).len() {
            Some(set_nodes(*set)[index as int])
        } else {
            None
        }),
{
    set.get_index(index).copied()
}

/// Ring order: every member is smaller than the ones after it.
pub open spec fn ring_ordered(members: Seq<NodeId>) -> bool {
    forall|i: int, j: int| 0 <= i < j < members.len() ==> members[i] < members[j]
}

/// The position of `nid` among the ring's `members`.
pub open spec fn ring_position(members: Seq<NodeId>, nid: NodeId) -> int {
    members.index_of(nid)
}

/// The member before `nid` in ring order; the last member comes before the
/// first.
pub open spec fn ring_predecessor(members: Seq<NodeId>, nid: NodeId) -> NodeId {
    let idx = ring_position(members, nid);
    if idx == 0 {
        members[members.len() - 1]
    } else {
        members[idx - 1]
    }
}

/// The member after `nid` in ring order; the first member comes after the
/// last.
pub open spec fn ring_successor(members: Seq<NodeId>, nid: NodeId) -> NodeId {
    members[(ring_position(members, nid) + 1) % (members.len() as int)]
}

/// What the bootstrap server tells once `nid` has joined the ring `members`,
/// as (addressee, message) pairs in the order they go out: the neighbours of
/// `nid` learn that `nid` stands between them, and `nid` learns who its
/// neighbours are. A ring of one member is told nothing.
pub open spec fn join_notices(members: Seq<NodeId>, nid: NodeId) -> Seq<(NodeId, Message)> {
    if members.len() <= 1 {
        seq![]
    } else {
        let pred = ring_predecessor(members, nid);
        let succ = ring_successor(members, nid);
        seq![
            (pred, Message::NewSuccessor(nid)),
            (nid, Message::NewPredecessor(pred)),
            (succ, Message::NewPredecessor(nid)),
            (nid, Message::NewSuccessor(succ)),
        ]
    }
}

/// In an ordered ring, the position of a member is the one index that holds
/// it.
pub proof fn lemma_ring_position(members: Seq<NodeId>, nid: NodeId, idx: int)
    requires
        ring_ordered(members),
        0 <= idx < members.len(),
        members[idx] == nid,
    ensures
        ring_position(members, nid) == idx,
{
    assert(members.contains(nid));
    let k = ring_position(members, nid);
    assert(0 <= k < members.len() && members[k] == nid);
    if k < idx {
        assert(members[k] < members[idx]);
    } else if idx < k {
        assert(members[idx] < members[k]);
    }
}

/// The bootstrap server's record of the ring: the ids of the nodes that have
/// joined, kept in ring order.
pub struct Ring {
    nodes: IndexSet<NodeId>,
}

impl View for Ring {
    type V = Seq<NodeId>;

    /// The members of the ring, in ring order.
    closed spec fn view(&self) -> Seq<NodeId> {
        set_nodes(self.nodes)
    }
}

impl Ring {
    #[verifier::type_invariant]
    spec fn members_in_order(self) -> bool {
        ring_ordered(set_nodes(self.nodes))
    }

    /// A ring that no node has joined yet.
    pub fn new() -> (ring: Ring)
        ensures
            ring@ == Seq::<NodeId>::empty(),
    {
        Ring { nodes: node_set_new() }
    }

    /// Adds `nid` to the ring, keeping ring order, and gives the notices
    /// that the nodes around it are to receive (see `join_notices`). A node
    /// that joins again changes nothing in the membership and is told its
    /// neighbours again.
    pub fn respond_to_join(&mut self, nid: NodeId) -> (notices: Vec<(NodeId, Message)>)
        ensures
            ring_ordered(final(self)@),
            final(self)@.to_set() == old(self)@.to_set().insert(nid),
            notices@ == join_notices(final(self)@, nid),
            old(self)@.contains(nid) ==> final(self)@ == old(self)@,
    {
        proof {
            use_type_invariant(&*self);
        }
        let mut nodes = node_set_new();
        std::mem::swap(&mut nodes, &mut self.nodes);
        let ghost before = set_nodes(nodes);
        node_set_insert(&mut nodes, nid);
        let ghost inserted = set_nodes(nodes);
        node_set_sort(&mut nodes);
        let ghost sorted = set_nodes(nodes);
        proof {
            lemma_sorted_members(before, inserted, sorted, nid);
            if before.contains(nid) {
                assert(before.to_set().contains(nid));
                assert(before.to_set().insert(nid) =~= before.to_set());
                lemma_ordered_by_members(sorted, before);
            }
        }
        self.nodes = nodes;
        let len = node_set_len(&self.nodes);
        if len <= 1 {
            return Vec::new();
        }
        let idx = match node_set_get_index_of(&self.nodes, nid) {
            Some(i) => i,
            None => {
                proof {
                    assert(sorted.to_set().contains(nid));
                }
                return Vec::new();
            },
        };
        proof {
            lemma_ring_position(sorted, nid, idx as int);
        }
        let pred_idx: usize = if idx == 0 {
            len - 1
        } else {
            idx - 1
        };
        let succ_idx: usize = (idx + 1) % len;
        let pred = match node_set_get_index(&self.nodes, pred_idx) {
            Some(p) => p,
            None => {
                return Vec::new();
            },
        };
        let succ = match node_set_get_index(&self.nodes, succ_idx) {
            Some(s) => s,
            None => {
                return Vec::new();
            },
        };
        let mut notices: Vec<(NodeId, Message)> = Vec::new();
        notices.push((pred, Message::NewSuccessor(nid)));
        notices.push((nid, Message::NewPredecessor(pred)));
        notices.push((succ, Message::NewPredecessor(nid)));
        notices.push((nid, Message::NewSuccessor(succ)));
        assert(notices@ =~= join_notices(sorted, nid));
        notices
    }

    /// Where a client's request goes: to the ring's entry node, which passes
    /// it around the ring to its owner.
    pub fn drop_request(&self, msg: Message) -> (sent: (NodeId, Message))
        requires
            msg is REQUEST,
        ensures
            sent == (ENTRY_NODE, msg),
    {
        (ENTRY_NODE, msg)
    }

    /// What the bootstrap server does with a message it has heard: a join
    /// updates the ring and notifies the joining node's neighbourhood, a
    /// request goes to the ring's entry node, an answer to a request goes to
    /// the client, and anything else is dropped.
    pub fn dispatch(&mut self, msg: Message) -> (deliveries: Vec<Delivery>)
        ensures
            match msg {
                Message::Join(nid) => {
                    &&& ring_ordered(final(self)@)
                    &&& final(self)@.to_set() == old(self)@.to_set().insert(nid)
                    &&& deliveries@ == join_notices(final(self)@, nid).map_values(
                        |n: (NodeId, Message)| Delivery::ToNode(n.0, n.1),
                    )
                },
                Message::REQUEST(_, _, _, _) => {
                    &&& final(self)@ == old(self)@
                    &&& deliveries@ == seq![Delivery::ToNode(ENTRY_NODE, msg)]
                },
                _ => {
                    &&& final(self)@ == old(self)@
                    &&& deliveries@ == (if spec_is_obj_response(msg) {
                        seq![Delivery::ToClient(msg)]
                    } else {
                        seq![]
                    })
                },
            },
    {
        match msg {
            Message::Join(nid) => {
                let notices = self.respond_to_join(nid);
                let mut deliveries: Vec<Delivery> = Vec::new();
                let mut i: usize = 0;
                while i < notices.len()
                    invariant
                        i <= notices.len(),
                        deliveries@ == notices@.take(i as int).map_values(
                            |n: (NodeId, Message)| Delivery::ToNode(n.0, n.1),
                        ),
                    decreases notices.len() - i,
                {
                    let (target, note) = notices[i];
                    deliveries.push(Delivery::ToNode(target, note));
                    assert(notices@.take(i + 1) =~= notices@.take(i as int).push(notices@[i as int]));
                    i += 1;
                }
                assert(notices@.take(notices.len() as int) =~= notices@);
                deliveries
            },
            Message::REQUEST(_, _, _, _) => {
                let (target, req) = self.drop_request(msg);
                let mut deliveries: Vec<Delivery> = Vec::new();
                deliveries.push(Delivery::ToNode(target, req));
                deliveries
            },
            _ => {
                let mut deliveries: Vec<Delivery> = Vec::new();
                if msg.is_obj_response() {
                    deliveries.push(Delivery::ToClient(msg));
                }
                deliveries
            },
        }
    }
}

/// The node to which the bootstrap server hands every client request.
pub const ENTRY_NODE: NodeId = 1;

/// A message that the bootstrap server is to send, and to whom.
#[derive(Debug, Clone, Copy, PartialEq, Eq, Structural)]
pub enum Delivery {
    /// To the node with this id.
    ToNode(NodeId, Message),
    /// To the client whose request it answers.
    ToClient(Message),
}

/// The neighbours that a join names are the member's neighbours on the
/// ring: its predecessor is the largest member below it, or, for the
/// smallest member, the largest member of all; its successor is the smallest
/// member above it, or, for the largest member, the smallest of all. In a
/// ring of two or more they are other members than the one that joined.
pub proof fn lemma_ring_neighbours(members: Seq<NodeId>, nid: NodeId)
    requires
        ring_ordered(members),
        members.contains(nid),
        members.len() >= 2,
    ensures
        members.contains(ring_predecessor(members, nid)),
        members.contains(ring_successor(members, nid)),
        ring_predecessor(members, nid) != nid,
        ring_successor(members, nid) != nid,
        members.len() >= 3 ==> ring_predecessor(members, nid) != ring_successor(members, nid),
        (exists|i: int| 0 <= i < members.len() && members[i] < nid) ==> {
            &&& ring_predecessor(members, nid) < nid
            &&& forall|i: int|
                0 <= i < members.len() ==> !(ring_predecessor(members, nid) < #[trigger] members[i]
                    < nid)
        },
        (forall|i: int| 0 <= i < members.len() ==> nid <= #[trigger] members[i]) ==> forall|i: int|
            0 <= i < members.len() ==> #[trigger] members[i] <= ring_predecessor(members, nid),
        (exists|i: int| 0 <= i < members.len() && members[i] > nid) ==> {
            &&& nid < ring_successor(members, nid)
            &&& forall|i: int|
                0 <= i < members.len() ==> !(nid < #[trigger] members[i] < ring_successor(
                    members,
                    nid,
                ))
        },
        (forall|i: int| 0 <= i < members.len() ==> #[trigger] members[i] <= nid) ==> forall|i: int|
            0 <= i < members.len() ==> ring_successor(members, nid) <= #[trigger] members[i],
{
    let idx = choose|i: int| 0 <= i < members.len() && members[i] == nid;
    lemma_ring_position(members, nid, idx);
    let len = members.len() as int;
    let p = if idx == 0 { len - 1 } else { idx - 1 };
    let q = (idx + 1) % len;
    assert(ring_predecessor(members, nid) == members[p]);
    assert(ring_successor(members, nid) == members[q]);
    assert(members[p] != nid) by {
        if idx == 0 {
            assert(members[0] < members[len - 1]);
        } else {
            assert(members[idx - 1] < members[idx]);
        }
    }
    assert(q == if idx == len - 1 { 0 } else { idx + 1 }) by (nonlinear_arith)
        requires
            q == (idx + 1) % len,
            0 <= idx < len,
    ;
    assert(members[q] != nid) by {
        if idx == len - 1 {
            assert(members[0] < members[len - 1]);
        } else {
            assert(members[idx] < members[idx + 1]);
        }
    }
    if len >= 3 {
        assert(p != q);
        if p < q {
            assert(members[p] < members[q]);
        } else {
            assert(members[q] < members[p]);
        }
    }
    if exists|i: int| 0 <= i < members.len() && members[i] < nid {
        let w = choose|i: int| 0 <= i < members.len() && members[i] < nid;
        if idx == 0 {
            if w > 0 {
                assert(members[0] < members[w]);
            }
        }
        assert(idx > 0);
        assert forall|i: int| 0 <= i < members.len() implies !(ring_predecessor(members, nid)
            < #[trigger] members[i] < nid) by {
            if i < idx - 1 {
                assert(members[i] < members[idx - 1]);
            } else if i > idx {
                assert(members[idx] < members[i]);
            }
        }
    }
    if forall|i: int| 0 <= i < members.len() ==> nid <= #[trigger] members[i] {
        if idx > 0 {
            assert(nid <= members[0]);
            assert(members[0] < members[idx]);
        }
        assert forall|i: int| 0 <= i < members.len() implies #[trigger] members[i]
            <= ring_predecessor(members, nid) by {
            if i < len - 1 {
                assert(members[i] < members[len - 1]);
            }
        }
    }
    if exists|i: int| 0 <= i < members.len() && members[i] > nid {
        let w = choose|i: int| 0 <= i < members.len() && members[i] > nid;
        if idx == len - 1 {
            if w < len - 1 {
                assert(members[w] < members[len - 1]);
            }
        }
        assert(idx < len - 1);
        assert forall|i: int| 0 <= i < members.len() implies !(nid < #[trigger] members[i]
            < ring_successor(members, nid)) by {
            if i < idx {
                assert(members[i] < members[idx]);
            } else if i > idx + 1 {
                assert(members[idx + 1] < members[i]);
            }
        }
    }
    if forall|i: int| 0 <= i < members.len() ==> #[trigger] members[i] <= nid {
        if idx < len - 1 {
            assert(members[len - 1] <= nid);
            assert(members[idx] < members[len - 1]);
        }
        assert forall|i: int| 0 <= i < members.len() implies ring_successor(members, nid)
            <= #[trigger] members[i] by {
            if i > 0 {
                assert(members[0] < members[i]);
            }
        }
    }
}

/// The order in which nodes join does not matter: two joins in either order
/// leave the same ring.
pub proof fn lemma_join_order_irrelevant(
    start: Seq<NodeId>,
    a: NodeId,
    b: NodeId,
    after_a: Seq<NodeId>,
    after_ab: Seq<NodeId>,
    after_b: Seq<NodeId>,
    after_ba: Seq<NodeId>,
)
    requires
        ring_ordered(after_a),
        ring_ordered(after_ab),
        ring_ordered(after_b),
        ring_ordered(after_ba),
        after_a.to_set() == start.to_set().insert(a),
        after_ab.to_set() == after_a.to_set().insert(b),
        after_b.to_set() == start.to_set().insert(b),
        after_ba.to_set() == after_b.to_set().insert(a),
    ensures
        after_ab == after_ba,
{
    assert(after_ab.to_set() =~= after_ba.to_set());
    lemma_ordered_by_members(after_ab, after_ba);
}

/// Two rings in ring order with the same members are the same ring.
pub proof fn lemma_ordered_by_members(a: Seq<NodeId>, b: Seq<NodeId>)
    requires
        ring_ordered(a),
        ring_ordered(b),
        a.to_set() == b.to_set(),
    ensures
        a == b,
    decreases a.len(),
{
    if a.len() == 0 {
        if b.len() > 0 {
            assert(b.to_set().contains(b[0]));
            assert(!a.to_set().contains(b[0]));
        }
        assert(a =~= b);
    } else {
        assert(a.to_set().contains(a[0]));
        assert(b.len() > 0) by {
            if b.len() == 0 {
                assert(!b.to_set().contains(a[0]));
            }
        }
        assert(b.to_set().contains(b[0]));
        let j = choose|j: int| 0 <= j < b.len() && b[j] == a[0];
        let i = choose|i: int| 0 <= i < a.len() && a[i] == b[0];
        if j > 0 {
            assert(b[0] < b[j]);
            if i > 0 {
                assert(a[0] < a[i]);
            }
        }
        assert(a[0] == b[0]);
        let ta = a.drop_first();
        let tb = b.drop_first();
        assert(ring_ordered(ta)) by {
            assert forall|x: int, y: int| 0 <= x < y < ta.len() implies ta[x] < ta[y] by {
                assert(a[x + 1] < a[y + 1]);
            }
        }
        assert(ring_ordered(tb)) by {
            assert forall|x: int, y: int| 0 <= x < y < tb.len() implies tb[x] < tb[y] by {
                assert(b[x + 1] < b[y + 1]);
            }
        }
        assert forall|v: NodeId| ta.to_set().contains(v) <==> tb.to_set().contains(v) by {
            if ta.to_set().contains(v) {
                let k = choose|k: int| 0 <= k < ta.len() && ta[k] == v;
                assert(a[k + 1] == v);
                assert(a[0] < a[k + 1]);
                assert(a.to_set().contains(v));
                let m = choose|m: int| 0 <= m < b.len() && b[m] == v;
                assert(m != 0);
                assert(tb[m - 1] == v);
            }
            if tb.to_set().contains(v) {
                let k = choose|k: int| 0 <= k < tb.len() && tb[k] == v;
                assert(b[k + 1] == v);
                assert(b[0] < b[k + 1]);
                assert(b.to_set().contains(v));
                let m = choose|m: int| 0 <= m < a.len() && a[m] == v;
                assert(m != 0);
                assert(ta[m - 1] == v);
            }
        }
        assert(ta.to_set() =~= tb.to_set());
        lemma_ordered_by_members(ta, tb);
        assert(a =~= seq![a[0]] + ta);
        assert(b =~= seq![b[0]] + tb);
    }
}

/// Inserting a value into an ordered ring and sorting gives an ordered ring
/// holding the old members and the new one.
proof fn lemma_sorted_members(
    before: Seq<NodeId>,
    inserted: Seq<NodeId>,
    sorted: Seq<NodeId>,
    nid: NodeId,
)
    requires
        ring_ordered(before),
        inserted == (if before.contains(nid) {
            before
        } else {
            before.push(nid)
        }),
        sorted.to_multiset() == inserted.to_multiset(),
        forall|i: int, j: int| 0 <= i <= j < sorted.len() ==> sorted[i] <= sorted[j],
    ensures
        ring_ordered(sorted),
        sorted.to_set() == before.to_set().insert(nid),
{
    broadcast use vstd::seq_lib::group_to_multiset_ensures;

    assert(inserted.no_duplicates()) by {
        assert forall|i: int, j: int|
            0 <= i < inserted.len() && 0 <= j < inserted.len() && i != j implies inserted[i]
            != inserted[j] by {
            if i < before.len() && j < before.len() {
                if i < j {
                    assert(before[i] < before[j]);
                } else {
                    assert(before[j] < before[i]);
                }
            } else if i < before.len() {
                assert(before[i] == inserted[i]);
            } else {
                assert(before[j] == inserted[j]);
            }
        }
    }
    inserted.lemma_multiset_has_no_duplicates();
    sorted.lemma_multiset_has_no_duplicates_conv();
    assert(ring_ordered(sorted)) by {
        assert forall|i: int, j: int| 0 <= i < j < sorted.len() implies sorted[i] < sorted[j] by {
            assert(sorted[i] <= sorted[j]);
            assert(sorted[i] != sorted[j]);
        }
    }
    assert forall|x: NodeId| sorted.to_set().contains(x) <==> before.to_set().insert(nid).contains(x) by {
        assert(sorted.contains(x) <==> sorted.to_multiset().count(x) > 0);
        assert(inserted.contains(x) <==> inserted.to_multiset().count(x) > 0);
        if inserted.contains(x) && x != nid {
            let k = choose|k: int| 0 <= k < inserted.len() && inserted[k] == x;
            if k < before.len() {
                assert(before[k] == x);
            }
        }
        if before.contains(x) {
            let k = choose|k: int| 0 <= k < before.len() && before[k] == x;
            assert(inserted[k] == x);
        }
        if x == nid && !before.contains(nid) {
            assert(inserted[before.len() as int] == nid);
        }
    }
    assert(sorted.to_set() =~= before.to_set().insert(nid));
}

/// The object that a client stores in the store scenario; node 126 owns it.
pub const STORE_EXAMPLE: ObjectId = 115;

/// The object that a client retrieves in the retrieve scenario; node 50
/// holds it.
pub const RETRIEVE_EXAMPLE: ObjectId = 45;

/// The object that a client asks for in the missing-object scenario; node 66
/// owns it but holds no record of it.
pub const NOT_FOUND_EXAMPLE: ObjectId = 60;

/// The request that scenario `tno` makes: the object and what to do with
/// it. Only the scenarios 3, 4 and 5 make a request.
pub open spec fn scenario_request(tno: u64) -> Option<(ObjectId, Operation)> {
    if tno == 3 {
        Some((STORE_EXAMPLE, Operation::STORE))
    } else if tno == 4 {
        Some((RETRIEVE_EXAMPLE, Operation::RETRIEVE))
    } else if tno == 5 {
        Some((NOT_FOUND_EXAMPLE, Operation::RETRIEVE))
    } else {
        None
    }
}

/// A client's identity and how many requests it has made.
pub struct ClientView {
    pub id: ClientId,
    pub reqs_made: RequestId,
}

/// A client of the ring.
pub struct Client {
    id: ClientId,
    reqs_made: RequestId,
}

impl View for Client {
    type V = ClientView;

    closed spec fn view(&self) -> ClientView {
        ClientView { id: self.id, reqs_made: self.reqs_made }
    }
}

impl Client {
    /// Client 1, which has made no request yet.
    pub fn new() -> (client: Client)
        ensures
            client@ == (ClientView { id: 1, reqs_made: 0 }),
    {
        Client { id: 1, reqs_made: 0 }
    }

    /// This client's id.
    pub fn id(&self) -> (id: ClientId)
        ensures
            id == self@.id,
    {
        self.id
    }

    /// How many requests this client has made.
    pub fn reqs_made(&self) -> (n: RequestId)
        ensures
            n == self@.reqs_made,
    {
        self.reqs_made
    }

    /// The line a client shows for an answer it receives: `STORED: <id>`,
    /// `RETRIEVED: <id>` or `NOT FOUND: <id>` with the object's id; any
    /// other message shows nothing.
    pub fn response_report(msg: &Message) -> (line: Option<Vec<u8>>)
        ensures
            match *msg {
                Message::OBJ_RETRIEVED(o, _, _) => line matches Some(l) && l@ == "RETRIEVED: ".spec_bytes()
                    + decimal(o as nat),
                Message::OBJ_STORED(o, _, _) => line matches Some(l) && l@ == "STORED: ".spec_bytes()
                    + decimal(o as nat),
                Message::NOT_FOUND(o) => line matches Some(l) && l@ == "NOT FOUND: ".spec_bytes()
                    + decimal(o as nat),
                _ => line is None,
            },
    {
        let mut line: Vec<u8> = Vec::new();
        match msg {
            Message::OBJ_RETRIEVED(o, _, _) => {
                push_bytes(&mut line, "RETRIEVED: ".as_bytes());
                push_decimal(&mut line, *o);
            },
            Message::OBJ_STORED(o, _, _) => {
                push_bytes(&mut line, "STORED: ".as_bytes());
                push_decimal(&mut line, *o);
            },
            Message::NOT_FOUND(o) => {
                push_bytes(&mut line, "NOT FOUND: ".as_bytes());
                push_decimal(&mut line, *o);
            },
            _ => {
                return None;
            },
        }
        Some(line)
    }

    /// The request of scenario `tno` (3, 4 or 5), under the next request
    /// number: each request this client makes carries a number one above
    /// the last.
    pub fn send_req(&mut self, tno: u64) -> (msg: Message)
        requires
            3 <= tno <= 5,
            old(self)@.reqs_made < u64::MAX,
        ensures
            final(self)@.id == old(self)@.id,
            final(self)@.reqs_made == old(self)@.reqs_made + 1,
            msg == Message::REQUEST(
                final(self)@.reqs_made,
                old(self)@.id,
                scenario_request(tno).unwrap().0,
                scenario_request(tno).unwrap().1,
            ),
    {
        self.reqs_made = self.reqs_made + 1;
        let (oid, op) = if tno == 3 {
            (STORE_EXAMPLE, Operation::STORE)
        } else if tno == 4 {
            (RETRIEVE_EXAMPLE, Operation::RETRIEVE)
        } else {
            (NOT_FOUND_EXAMPLE, Operation::RETRIEVE)
        };
        Message::REQUEST(self.reqs_made, self.id, oid, op)
    }
}

} // verus!
