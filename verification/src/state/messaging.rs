//! The messages that travel between the bootstrap server, the peers and the
//! client.
use vstd::prelude::*;

use crate::setup::hostsfile::{ClientId, ObjectId};
use crate::state::bootstrap::NodeId;

verus! {

/// What a client asks of the ring for an object.
#[derive(Debug, Clone, Copy, PartialEq, Eq, Structural)]
pub enum Operation {
    STORE,
    RETRIEVE,
}

/// The number a client gives each of its requests, counting from 1.
pub type RequestId = u64;

/// A message of the ring's protocol.
///
/// A request carries, in this order, the request's number, the id of the
/// client that made it, the object's id and the operation: that is how the
/// client fills it and how the peers read it.
#[derive(Debug, Clone, Copy, PartialEq, Eq, Structural)]
#[allow(non_camel_case_types)]
pub enum Message {
    Join(NodeId),
    NewPredecessor(NodeId),
    NewSuccessor(NodeId),
    // Object manipulation
    REQUEST(RequestId, ClientId, ObjectId, Operation),
    OBJ_STORED(ObjectId, ClientId, NodeId),
    OBJ_RETRIEVED(ObjectId, ClientId, NodeId),
    NOT_FOUND(ObjectId),
}

/// Whether `msg` is one of the answers to a request that go back to the
/// client.
pub open spec fn spec_is_obj_response(msg: Message) -> bool {
    ||| msg is OBJ_STORED
    ||| msg is OBJ_RETRIEVED
    ||| msg is NOT_FOUND
}

/// Whether a message answers a client depends on its kind alone: every
/// store acknowledgement, retrieved object and not-found answer does,
/// whatever it carries, and no other message does.
pub proof fn lemma_obj_responses_by_kind(msg: Message)
    ensures
        (msg matches Message::OBJ_STORED(_, _, _)) ==> spec_is_obj_response(msg),
        (msg matches Message::OBJ_RETRIEVED(_, _, _)) ==> spec_is_obj_response(msg),
        (msg matches Message::NOT_FOUND(_)) ==> spec_is_obj_response(msg),
        (msg matches Message::Join(_)) ==> !spec_is_obj_response(msg),
        (msg matches Message::NewPredecessor(_)) ==> !spec_is_obj_response(msg),
        (msg matches Message::NewSuccessor(_)) ==> !spec_is_obj_response(msg),
        (msg matches Message::REQUEST(_, _, _, _)) ==> !spec_is_obj_response(msg),
{
}

impl Message {
    /// Whether this message answers a client's request.
    pub fn is_obj_response(&self) -> (answer: bool)
        ensures
            answer == spec_is_obj_response(*self),
    {
        match self {
            Message::OBJ_STORED(_, _, _) | Message::OBJ_RETRIEVED(_, _, _) | Message::NOT_FOUND(_) => true,
            _ => false,
        }
    }
}

} // verus!
