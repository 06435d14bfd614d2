//! A peer of the ring: it owns the objects between its predecessor and
//! itself, serves the requests for them and passes the others along.
pub mod bootstrap;
pub mod messaging;

use vstd::prelude::*;

use crate::setup::hostsfile::ObjectId;
use crate::setup::socketry::{node_id_of_host, spec_node_id_of_host};
use bootstrap::{
    join_notices, lemma_ring_neighbours, lemma_ring_position, ring_ordered, ring_predecessor,
    ring_successor, NodeId,
};
use crate::setup::hostsfile::ClientId;
use crate::text::{decimal, push_bytes, push_decimal};
use vstd::string::StringSliceAdditionalSpecFns;
use messaging::{spec_is_obj_response, Message, Operation, RequestId};

verus! {

/// A peer's place in the ring: its own id and the ids of its neighbours.
pub struct PeerView {
    pub nid: NodeId,
    pub predecessor: NodeId,
    pub successor: NodeId,
}

/// What a peer is to do once it has heard a message.
#[derive(Debug, Clone, Copy, PartialEq, Eq, Structural)]
pub enum PeerAction {
    /// Nothing.
    Idle,
    /// Its neighbours changed: show the ring as it now stands.
    RingChanged,
    /// The request is for an object it owns: serve it.
    Process(Message),
    /// The request is for an object it does not own: pass it to this node.
    Forward(NodeId, Message),
}

/// Whether the peer `p` owns object `oid`: by the chord rule, the objects
/// that lie on the ring after its predecessor, up to and including the peer
/// itself. Ids wrap around: the peer with the smallest id also owns the ids
/// above the largest, and a peer that is its own predecessor owns them all.
pub open spec fn spec_owns_object(p: PeerView, oid: ObjectId) -> bool {
    if p.predecessor < p.nid {
        p.predecessor < oid && oid <= p.nid
    } else {
        p.predecessor < oid || oid <= p.nid
    }
}

/// The chord rule on a single peer: a peer always owns its own id and,
/// unless it is alone, never its predecessor's; a peer below which another
/// lies owns exactly the ids from above that predecessor up to its own; the
/// peer whose predecessor lies above it owns the ids above the predecessor
/// and those up to its own; a peer that is its own predecessor owns every id.
pub proof fn lemma_ownership(p: PeerView, oid: ObjectId)
    ensures
        spec_owns_object(p, p.nid),
        spec_owns_object(p, p.predecessor) <==> p.predecessor == p.nid,
        p.predecessor < p.nid ==> (spec_owns_object(p, oid) <==> p.predecessor < oid <= p.nid),
        p.predecessor > p.nid ==> (spec_owns_object(p, oid) <==> (oid > p.predecessor || oid
            <= p.nid)),
        p.predecessor == p.nid ==> spec_owns_object(p, oid),
{
}

/// How peer `p` hears `msg`: the peer it then is, and what it is to do.
/// A new neighbour replaces the old one; a request is served if the peer
/// owns its object and passed to the successor otherwise; anything else is
/// ignored.
pub open spec fn peer_step(p: PeerView, msg: Message) -> (PeerView, PeerAction) {
    match msg {
        Message::NewSuccessor(n) => (
            PeerView { nid: p.nid, predecessor: p.predecessor, successor: n },
            PeerAction::RingChanged,
        ),
        Message::NewPredecessor(n) => (
            PeerView { nid: p.nid, predecessor: n, successor: p.successor },
            PeerAction::RingChanged,
        ),
        Message::REQUEST(_, _, oid, _) => if spec_owns_object(p, oid) {
            (p, PeerAction::Process(msg))
        } else {
            (p, PeerAction::Forward(p.successor, msg))
        },
        _ => (p, PeerAction::Idle),
    }
}

/// What peer `p` answers to the request `msg`, where `found` tells whether
/// its store holds the requested record (it matters to a retrieval only): a
/// store is acknowledged, a retrieval answered with the object or with its
/// absence. Anything but a request gets no answer.
pub open spec fn request_reply(p: PeerView, msg: Message, found: bool) -> Option<Message> {
    match msg {
        Message::REQUEST(_, cid, oid, op) => match op {
            Operation::STORE => Some(Message::OBJ_STORED(oid, cid, p.nid)),
            Operation::RETRIEVE => if found {
                Some(Message::OBJ_RETRIEVED(oid, cid, p.nid))
            } else {
                Some(Message::NOT_FOUND(oid))
            },
        },
        _ => None,
    }
}

/// A peer of the ring.
pub struct Peer {
    nid: NodeId,
    predecessor: NodeId,
    successor: NodeId,
}

impl View for Peer {
    type V = PeerView;

    closed spec fn view(&self) -> PeerView {
        PeerView { nid: self.nid, predecessor: self.predecessor, successor: self.successor }
    }
}

impl Peer {
    /// The peer that runs on host `host`: its id is the one its host name
    /// carries, and until it hears otherwise it is its own neighbour on both
    /// sides. A host name that carries no id gives `None`.
    pub fn new(host: &[u8]) -> (peer: Option<Peer>)
        ensures
            match peer {
                Some(p) => spec_node_id_of_host(host@) == Some(p@.nid) && p@.predecessor == p@.nid
                    && p@.successor == p@.nid,
                None => spec_node_id_of_host(host@) is None,
            },
    {
        match node_id_of_host(host) {
            Some(nid) => Some(Peer { nid, predecessor: nid, successor: nid }),
            None => None,
        }
    }

    /// This peer's id.
    pub fn nid(&self) -> (nid: NodeId)
        ensures
            nid == self@.nid,
    {
        self.nid
    }

    /// This peer's predecessor on the ring.
    pub fn predecessor(&self) -> (pred: NodeId)
        ensures
            pred == self@.predecessor,
    {
        self.predecessor
    }

    /// This peer's successor on the ring.
    pub fn successor(&self) -> (succ: NodeId)
        ensures
            succ == self@.successor,
    {
        self.successor
    }

    /// The line that shows this peer's place in the ring:
    /// `Predecessor: n<id>, Successor: n<id>`.
    pub fn ring_line(&self) -> (line: Vec<u8>)
        ensures
            line@ == "Predecessor: n".spec_bytes() + decimal(self@.predecessor as nat)
                + ", Successor: n".spec_bytes() + decimal(self@.successor as nat),
    {
        let mut line: Vec<u8> = Vec::new();
        push_bytes(&mut line, "Predecessor: n".as_bytes());
        push_decimal(&mut line, self.predecessor);
        push_bytes(&mut line, ", Successor: n".as_bytes());
        push_decimal(&mut line, self.successor);
        line
    }

    /// The message by which this peer asks the bootstrap server to join.
    pub fn join(&self) -> (msg: Message)
        ensures
            msg == Message::Join(self@.nid),
    {
        Message::Join(self.nid)
    }

    /// Hears `msg`: updates the neighbours it names and says what is to be
    /// done (see `peer_step`).
    pub fn hear(&mut self, msg: Message) -> (action: PeerAction)
        ensures
            (final(self)@, action) == peer_step(old(self)@, msg),
    {
        match msg {
            Message::NewSuccessor(n) => {
                self.successor = n;
                PeerAction::RingChanged
            },
            Message::NewPredecessor(n) => {
                self.predecessor = n;
                PeerAction::RingChanged
            },
            Message::REQUEST(_, _, oid, _) => {
                if self.owns_object(oid) {
                    PeerAction::Process(msg)
                } else {
                    let (succ, req) = self.propagate_request(msg);
                    PeerAction::Forward(succ, req)
                }
            },
            _ => PeerAction::Idle,
        }
    }

    /// The answer to the request `msg`, which this peer owns; `found` tells
    /// whether its store holds the requested record (see `request_reply`).
    pub fn process_request(&self, msg: &Message, found: bool) -> (reply: Option<Message>)
        ensures
            reply == request_reply(self@, *msg, found),
    {
        match msg {
            Message::REQUEST(_, cid, oid, op) => match op {
                Operation::STORE => Some(Message::OBJ_STORED(*oid, *cid, self.nid)),
                Operation::RETRIEVE => {
                    if found {
                        Some(Message::OBJ_RETRIEVED(*oid, *cid, self.nid))
                    } else {
                        Some(Message::NOT_FOUND(*oid))
                    }
                },
            },
            _ => None,
        }
    }

    /// Whether this peer owns object `oid`: it lies on the ring after the
    /// predecessor, up to and including this peer (see `spec_owns_object`).
    pub fn owns_object(&self, oid: ObjectId) -> (owns: bool)
        ensures
            owns == spec_owns_object(self@, oid),
    {
        if self.predecessor < self.nid {
            self.predecessor < oid && oid <= self.nid
        } else {
            self.predecessor < oid || oid <= self.nid
        }
    }

    /// Where a request that this peer does not own goes: on to its
    /// successor, unchanged.
    pub fn propagate_request(&self, req: Message) -> (sent: (NodeId, Message))
        ensures
            sent == (self@.successor, req),
    {
        (self.successor, req)
    }
}

/// The peer that the `notices` leave `p` as: each notice addressed to `p`'s
/// id is heard in turn, the others pass it by.
pub open spec fn deliver(p: PeerView, notices: Seq<(NodeId, Message)>) -> PeerView
    decreases notices.len(),
{
    if notices.len() == 0 {
        p
    } else {
        let rest = deliver(p, notices.drop_last());
        if notices.last().0 == p.nid {
            peer_step(rest, notices.last().1).0
        } else {
            rest
        }
    }
}

/// After a join, the joining node and its neighbours agree on their places:
/// once the notices of the join are heard, the joining peer's predecessor
/// and successor are its neighbours on the ring, its predecessor's successor
/// is the joining node and its successor's predecessor is the joining node,
/// whatever each of them held before.
pub proof fn lemma_join_makes_neighbours_agree(members: Seq<NodeId>, nid: NodeId, p: PeerView)
    requires
        ring_ordered(members),
        members.contains(nid),
        members.len() >= 2,
    ensures
        p.nid == nid ==> deliver(p, join_notices(members, nid)).predecessor == ring_predecessor(
            members,
            nid,
        ),
        p.nid == nid ==> deliver(p, join_notices(members, nid)).successor == ring_successor(
            members,
            nid,
        ),
        p.nid == ring_predecessor(members, nid) ==> deliver(p, join_notices(members, nid)).successor
            == nid,
        p.nid == ring_successor(members, nid) ==> deliver(p, join_notices(members, nid)).predecessor
            == nid,
{
    lemma_ring_neighbours(members, nid);
    let notices = join_notices(members, nid);
    assert(notices.len() == 4);
    assert(notices.drop_last().drop_last().drop_last().drop_last() =~= Seq::<(NodeId, Message)>::empty());
    reveal_with_fuel(deliver, 5);
}

/// A join touches only what it must: in a ring of three or more, the
/// joining node's predecessor keeps its own predecessor, its successor keeps
/// its own successor, and every other member is left as it was.
pub proof fn lemma_join_keeps_far_neighbours(members: Seq<NodeId>, nid: NodeId, p: PeerView)
    requires
        ring_ordered(members),
        members.contains(nid),
        members.len() >= 3,
    ensures
        p.nid == ring_predecessor(members, nid) ==> deliver(p, join_notices(members, nid)).predecessor
            == p.predecessor,
        p.nid == ring_successor(members, nid) ==> deliver(p, join_notices(members, nid)).successor
            == p.successor,
        deliver(p, join_notices(members, nid)).nid == p.nid,
        p.nid != nid && p.nid != ring_predecessor(members, nid) && p.nid != ring_successor(members, nid)
            ==> deliver(p, join_notices(members, nid)) == p,
{
    lemma_ring_neighbours(members, nid);
    let notices = join_notices(members, nid);
    assert(notices.len() == 4);
    assert(notices.drop_last().drop_last().drop_last().drop_last() =~= Seq::<(NodeId, Message)>::empty());
    reveal_with_fuel(deliver, 5);
}

/// Hearing of a new predecessor replaces the predecessor and nothing else.
pub proof fn lemma_hear_new_predecessor(p: PeerView, n: NodeId)
    ensures
        peer_step(p, Message::NewPredecessor(n)).0.predecessor == n,
        peer_step(p, Message::NewPredecessor(n)).0.successor == p.successor,
        peer_step(p, Message::NewPredecessor(n)).0.nid == p.nid,
        peer_step(p, Message::NewPredecessor(n)).1 == PeerAction::RingChanged,
{
}

/// Hearing of a new successor replaces the successor and nothing else.
pub proof fn lemma_hear_new_successor(p: PeerView, n: NodeId)
    ensures
        peer_step(p, Message::NewSuccessor(n)).0.successor == n,
        peer_step(p, Message::NewSuccessor(n)).0.predecessor == p.predecessor,
        peer_step(p, Message::NewSuccessor(n)).0.nid == p.nid,
        peer_step(p, Message::NewSuccessor(n)).1 == PeerAction::RingChanged,
{
}

/// Hearing a request changes nothing in the peer: the request itself is
/// served when the peer owns its object and passed unchanged to the
/// successor otherwise.
pub proof fn lemma_hear_request(
    p: PeerView,
    rid: RequestId,
    cid: ClientId,
    oid: ObjectId,
    op: Operation,
)
    ensures
        peer_step(p, Message::REQUEST(rid, cid, oid, op)).0 == p,
        spec_owns_object(p, oid) ==> peer_step(p, Message::REQUEST(rid, cid, oid, op)).1
            == PeerAction::Process(Message::REQUEST(rid, cid, oid, op)),
        !spec_owns_object(p, oid) ==> peer_step(p, Message::REQUEST(rid, cid, oid, op)).1
            == PeerAction::Forward(p.successor, Message::REQUEST(rid, cid, oid, op)),
{
}

/// A peer ignores joins and answers: they leave it as it was and ask
/// nothing of it.
pub proof fn lemma_hear_ignores_the_rest(p: PeerView, msg: Message)
    requires
        msg is Join || msg is OBJ_STORED || msg is OBJ_RETRIEVED || msg is NOT_FOUND,
    ensures
        peer_step(p, msg) == (p, PeerAction::Idle),
{
}

/// A store is always acknowledged, to the client that asked, for the object
/// it named, by this peer: neither the request number nor what the store
/// held beforehand changes the answer.
pub proof fn lemma_store_is_acknowledged(
    p: PeerView,
    rid: RequestId,
    cid: ClientId,
    oid: ObjectId,
    found: bool,
)
    ensures
        request_reply(p, Message::REQUEST(rid, cid, oid, Operation::STORE), found) == Some(
            Message::OBJ_STORED(oid, cid, p.nid),
        ),
{
}

/// A retrieval is answered with the object, for the client that asked and by
/// this peer, when the store holds its record, and with the object's absence
/// otherwise.
pub proof fn lemma_retrieval_is_answered(
    p: PeerView,
    rid: RequestId,
    cid: ClientId,
    oid: ObjectId,
    found: bool,
)
    ensures
        found ==> request_reply(p, Message::REQUEST(rid, cid, oid, Operation::RETRIEVE), found)
            == Some(Message::OBJ_RETRIEVED(oid, cid, p.nid)),
        !found ==> request_reply(p, Message::REQUEST(rid, cid, oid, Operation::RETRIEVE), found)
            == Some(Message::NOT_FOUND(oid)),
{
}

/// The answer to a request does not depend on the request's number.
pub proof fn lemma_reply_ignores_request_number(
    p: PeerView,
    r1: RequestId,
    r2: RequestId,
    cid: ClientId,
    oid: ObjectId,
    op: Operation,
    found: bool,
)
    ensures
        request_reply(p, Message::REQUEST(r1, cid, oid, op), found) == request_reply(
            p,
            Message::REQUEST(r2, cid, oid, op),
            found,
        ),
{
}

/// Every request gets an answer, the answer is one that goes back to the
/// client, and only requests get one.
pub proof fn lemma_only_requests_are_answered(p: PeerView, msg: Message, found: bool)
    ensures
        request_reply(p, msg, found) is Some <==> msg is REQUEST,
        request_reply(p, msg, found) matches Some(reply) ==> spec_is_obj_response(reply),
{
}

/// The peer that stands at position `i` of the ring `members`, with its
/// neighbours on the ring.
pub open spec fn ring_peer(members: Seq<NodeId>, i: int) -> PeerView {
    PeerView {
        nid: members[i],
        predecessor: ring_predecessor(members, members[i]),
        successor: ring_successor(members, members[i]),
    }
}

/// On a ring whose peers know their neighbours, no object has two owners.
pub proof fn lemma_single_owner(members: Seq<NodeId>, oid: ObjectId, i: int, j: int)
    requires
        ring_ordered(members),
        0 <= i < members.len(),
        0 <= j < members.len(),
        spec_owns_object(ring_peer(members, i), oid),
        spec_owns_object(ring_peer(members, j), oid),
    ensures
        i == j,
{
    if i < j {
        lemma_owners_apart(members, oid, i, j);
    } else if j < i {
        lemma_owners_apart(members, oid, j, i);
    }
}

/// An object that the peer at `i` owns is not owned by a peer further on.
proof fn lemma_owners_apart(members: Seq<NodeId>, oid: ObjectId, i: int, j: int)
    requires
        ring_ordered(members),
        0 <= i < j < members.len(),
        spec_owns_object(ring_peer(members, i), oid),
    ensures
        !spec_owns_object(ring_peer(members, j), oid),
{
    let last = members.len() - 1;
    lemma_ring_position(members, members[i], i);
    lemma_ring_position(members, members[j], j);
    // the peer at j owns (members[j - 1], members[j]]
    assert(ring_peer(members, j).predecessor == members[j - 1]);
    assert(members[j - 1] < members[j]);
    assert(members[i] <= members[j - 1]) by {
        if i < j - 1 {
            assert(members[i] < members[j - 1]);
        }
    }
    if i == 0 {
        // the peer at 0 owns the ids above members[last] or up to members[0]
        assert(ring_peer(members, 0).predecessor == members[last]);
        assert(members[0] < members[last]);
        assert(members[j] <= members[last]) by {
            if j < last {
                assert(members[j] < members[last]);
            }
        }
    } else {
        assert(ring_peer(members, i).predecessor == members[i - 1]);
        assert(members[i - 1] < members[i]);
    }
}

/// On a ring whose peers know their neighbours, every object has an owner.
pub proof fn lemma_every_object_owned(members: Seq<NodeId>, oid: ObjectId)
    requires
        ring_ordered(members),
        members.len() >= 1,
    ensures
        exists|i: int|
            0 <= i < members.len() && spec_owns_object(#[trigger] ring_peer(members, i), oid),
{
    let last = members.len() - 1;
    lemma_ring_position(members, members[0], 0);
    if members[0] < oid <= members[last] {
        lemma_owner_from(members, oid, 0);
    } else {
        assert(ring_peer(members, 0).predecessor == members[last]);
        if last > 0 {
            assert(members[0] < members[last]);
        }
        assert(spec_owns_object(ring_peer(members, 0), oid));
    }
}

/// Some peer at a position above `k` owns `oid`, if `oid` lies above the
/// member at `k` and not above the largest member.
proof fn lemma_owner_from(members: Seq<NodeId>, oid: ObjectId, k: int)
    requires
        ring_ordered(members),
        0 <= k < members.len(),
        members[k] < oid <= members[members.len() - 1],
    ensures
        exists|i: int|
            0 <= i < members.len() && spec_owns_object(#[trigger] ring_peer(members, i), oid),
    decreases members.len() - k,
{
    let last = members.len() - 1;
    if k == last {
        assert(false);
    } else if oid <= members[k + 1] {
        lemma_ring_position(members, members[k + 1], k + 1);
        assert(members[k] < members[k + 1]);
        assert(spec_owns_object(ring_peer(members, k + 1), oid));
    } else {
        lemma_owner_from(members, oid, k + 1);
    }
}

/// The position reached from position `k` after `t` steps along the ring,
/// for fewer steps than the ring has members.
pub open spec fn ring_step_index(members: Seq<NodeId>, k: int, t: int) -> int {
    if k + t < members.len() {
        k + t
    } else {
        k + t - members.len()
    }
}

/// The successor of the peer at position `idx` is the member at the next
/// position, the first one after the last.
proof fn lemma_successor_index(members: Seq<NodeId>, idx: int)
    requires
        ring_ordered(members),
        0 <= idx < members.len(),
    ensures
        ring_peer(members, idx).successor == members[if idx + 1 < members.len() {
            idx + 1
        } else {
            0
        }],
{
    lemma_ring_position(members, members[idx], idx);
    let len = members.len() as int;
    assert((idx + 1) % len == if idx + 1 < len { idx + 1 } else { 0 }) by (nonlinear_arith)
        requires
            0 <= idx < len,
    ;
}

/// Requests travel along the ring to their owner: on a ring whose peers know
/// their neighbours, a request heard first by the member at position `k` is
/// passed from each member to the next, fewer times than the ring has
/// members, until it reaches the one member that serves it.
pub proof fn lemma_requests_reach_owner(
    members: Seq<NodeId>,
    k: int,
    rid: RequestId,
    cid: ClientId,
    oid: ObjectId,
    op: Operation,
)
    requires
        ring_ordered(members),
        0 <= k < members.len(),
    ensures
        exists|h: int|
            #![trigger ring_step_index(members, k, h)]
            0 <= h < members.len() && peer_step(
                ring_peer(members, ring_step_index(members, k, h)),
                Message::REQUEST(rid, cid, oid, op),
            ).1 == PeerAction::Process(Message::REQUEST(rid, cid, oid, op)) && forall|t: int|
                0 <= t < h ==> #[trigger] peer_step(
                    ring_peer(members, ring_step_index(members, k, t)),
                    Message::REQUEST(rid, cid, oid, op),
                ).1 == PeerAction::Forward(
                    members[ring_step_index(members, k, t + 1)],
                    Message::REQUEST(rid, cid, oid, op),
                ),
{
    let msg = Message::REQUEST(rid, cid, oid, op);
    let len = members.len() as int;
    lemma_every_object_owned(members, oid);
    let j = choose|i: int|
        0 <= i < members.len() && spec_owns_object(#[trigger] ring_peer(members, i), oid);
    let h = if j >= k {
        j - k
    } else {
        j - k + len
    };
    assert(ring_step_index(members, k, h) == j);
    lemma_owner_processes(members, j, msg);
    lemma_path_forwards(members, k, h, j, msg);
}

/// Every peer met on the way from position `k` to the owner at `j`, `h`
/// steps on, passes the request to the member at the next position.
proof fn lemma_path_forwards(members: Seq<NodeId>, k: int, h: int, j: int, msg: Message)
    requires
        ring_ordered(members),
        0 <= k < members.len(),
        0 <= j < members.len(),
        0 <= h < members.len(),
        ring_step_index(members, k, h) == j,
        msg matches Message::REQUEST(_, _, oid, _) && spec_owns_object(ring_peer(members, j), oid),
    ensures
        forall|t: int|
            #![trigger peer_step(ring_peer(members, ring_step_index(members, k, t)), msg)]
            0 <= t < h ==> peer_step(ring_peer(members, ring_step_index(members, k, t)), msg).1
                == PeerAction::Forward(members[ring_step_index(members, k, t + 1)], msg),
{
    let len = members.len() as int;
    assert forall|t: int| 0 <= t < h implies #[trigger] peer_step(
        ring_peer(members, ring_step_index(members, k, t)),
        msg,
    ).1 == PeerAction::Forward(members[ring_step_index(members, k, t + 1)], msg) by {
        let idx = ring_step_index(members, k, t);
        assert(0 <= idx < len && idx != j);
        lemma_others_forward(members, idx, j, msg);
        if idx + 1 < len {
            assert(ring_step_index(members, k, t + 1) == idx + 1);
        } else {
            assert(ring_step_index(members, k, t + 1) == 0);
        }
    }
}

/// The owner of a request's object serves it.
proof fn lemma_owner_processes(members: Seq<NodeId>, j: int, msg: Message)
    requires
        0 <= j < members.len(),
        msg matches Message::REQUEST(_, _, oid, _) && spec_owns_object(ring_peer(members, j), oid),
    ensures
        peer_step(ring_peer(members, j), msg).1 == PeerAction::Process(msg),
{
}

/// A peer that does not own a request's object passes the request to the
/// member at the next position.
proof fn lemma_others_forward(members: Seq<NodeId>, idx: int, j: int, msg: Message)
    requires
        ring_ordered(members),
        0 <= idx < members.len(),
        0 <= j < members.len(),
        idx != j,
        msg matches Message::REQUEST(_, _, oid, _) && spec_owns_object(ring_peer(members, j), oid),
    ensures
        peer_step(ring_peer(members, idx), msg).1 == PeerAction::Forward(
            members[if idx + 1 < members.len() {
                idx + 1
            } else {
                0
            }],
            msg,
        ),
{
    let oid = msg->REQUEST_2;
    if spec_owns_object(ring_peer(members, idx), oid) {
        lemma_single_owner(members, oid, idx, j);
    }
    lemma_successor_index(members, idx);
}

} // verus!
