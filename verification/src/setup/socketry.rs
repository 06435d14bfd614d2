//! How the hosts of the ring are named and addressed.
use vstd::prelude::*;

use crate::state::bootstrap::NodeId;
use crate::text::{decimal, parse_decimal, parse_u64, push_bytes, push_decimal};

verus! {

/// The port on which the bootstrap server accepts the peers' streams.
pub const BOOTSTRAP_PORT: u64 = 6969;

/// The port on which every node hears datagrams from the ring.
pub const NODE_PORT: u64 = 6970;

/// The port on which the bootstrap server and the client exchange datagrams.
pub const CLIENT_PORT: u64 = 6971;

/// The ASCII code of `n`, with which every node's host name starts.
pub const NODE_PREFIX: u8 = 110u8;

/// The ASCII code of `:`, which parts a host from a port.
pub const COLON: u8 = 58u8;

/// The host name of node `nid`: `n` and the node's id in decimal.
pub open spec fn spec_node_host(nid: NodeId) -> Seq<u8> {
    seq![NODE_PREFIX] + decimal(nid as nat)
}

/// The node id that a host name carries: what follows a leading `n`, read
/// as a `u64` is read from text.
pub open spec fn spec_node_id_of_host(host: Seq<u8>) -> Option<NodeId> {
    if host.len() > 0 && host[0] == NODE_PREFIX {
        parse_u64(host.drop_first())
    } else {
        None
    }
}

/// The address of `port` on `host`: the host, a colon, the port in decimal.
pub open spec fn spec_socket_address(host: Seq<u8>, port: u64) -> Seq<u8> {
    host + seq![COLON] + decimal(port as nat)
}

/// The host name of node `nid`.
pub fn node_host(nid: NodeId) -> (host: Vec<u8>)
    ensures
        host@ == spec_node_host(nid),
{
    let mut host: Vec<u8> = Vec::new();
    host.push(NODE_PREFIX);
    push_decimal(&mut host, nid);
    host
}

/// The id of the node whose host name is `host`, if the name has the form
/// of one; a node finds its own id in its host name this way.
pub fn node_id_of_host(host: &[u8]) -> (nid: Option<NodeId>)
    ensures
        nid == spec_node_id_of_host(host@),
{
    if host.len() > 0 && host[0] == NODE_PREFIX {
        let digits = slice_skip_first(host);
        parse_decimal(digits)
    } else {
        None
    }
}

/// All of `s` but its first byte.
fn slice_skip_first(s: &[u8]) -> (rest: &[u8])
    requires
        s@.len() > 0,
    ensures
        rest@ == s@.drop_first(),
{
    let rest = s.split_at(1).1;
    assert(rest@ =~= s@.drop_first());
    rest
}

/// The address of `port` on `host`.
pub fn socket_address(host: &[u8], port: u64) -> (address: Vec<u8>)
    ensures
        address@ == spec_socket_address(host@, port),
{
    let mut address: Vec<u8> = Vec::new();
    push_bytes(&mut address, host);
    address.push(COLON);
    push_decimal(&mut address, port);
    assert(address@ =~= spec_socket_address(host@, port));
    address
}

/// The address at which node `nid` hears the ring.
pub fn node_address(nid: NodeId) -> (address: Vec<u8>)
    ensures
        address@ == spec_socket_address(spec_node_host(nid), NODE_PORT),
{
    let host = node_host(nid);
    socket_address(host.as_slice(), NODE_PORT)
}

/// The host name of a node carries the node's id: a node that reads its id
/// from its host name finds the id by which the ring addresses it.
pub proof fn lemma_node_host_names_node(nid: NodeId)
    ensures
        spec_node_id_of_host(spec_node_host(nid)) == Some(nid),
{
    crate::text::lemma_parse_decimal(nid);
    assert(spec_node_host(nid).drop_first() =~= decimal(nid as nat));
}

} // verus!
