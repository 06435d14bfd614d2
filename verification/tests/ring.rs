use chord_ring::state::bootstrap::{Client, Delivery, Ring, ENTRY_NODE, NOT_FOUND_EXAMPLE, RETRIEVE_EXAMPLE, STORE_EXAMPLE};
use chord_ring::state::messaging::{Message, Operation};
use chord_ring::state::{Peer, PeerAction};

fn joined(ids: &[u64]) -> Ring {
    let mut ring = Ring::new();
    for id in ids {
        ring.respond_to_join(*id);
    }
    ring
}

#[test]
fn first_join_notifies_nobody() {
    let mut ring = Ring::new();
    assert!(ring.respond_to_join(50).is_empty());
}

#[test]
fn second_join_links_both_nodes() {
    let mut ring = joined(&[50]);
    let notices = ring.respond_to_join(10);
    assert_eq!(
        notices,
        vec![
            (50, Message::NewSuccessor(10)),
            (10, Message::NewPredecessor(50)),
            (50, Message::NewPredecessor(10)),
            (10, Message::NewSuccessor(50)),
        ]
    );
}

#[test]
fn join_in_the_middle_names_ring_neighbours() {
    // Joined out of order: the ring is kept sorted, so 66 sits between 50 and 126.
    let mut ring = joined(&[126, 1, 50]);
    let notices = ring.respond_to_join(66);
    assert_eq!(
        notices,
        vec![
            (50, Message::NewSuccessor(66)),
            (66, Message::NewPredecessor(50)),
            (126, Message::NewPredecessor(66)),
            (66, Message::NewSuccessor(126)),
        ]
    );
}

#[test]
fn join_of_smallest_wraps_to_largest() {
    let mut ring = joined(&[50, 66, 126]);
    let notices = ring.respond_to_join(1);
    assert_eq!(notices[0], (126, Message::NewSuccessor(1)));
    assert_eq!(notices[1], (1, Message::NewPredecessor(126)));
    assert_eq!(notices[2], (50, Message::NewPredecessor(1)));
    assert_eq!(notices[3], (1, Message::NewSuccessor(50)));
}

#[test]
fn join_of_largest_wraps_to_smallest() {
    let mut ring = joined(&[1, 50, 66]);
    let notices = ring.respond_to_join(126);
    assert_eq!(notices[0], (66, Message::NewSuccessor(126)));
    assert_eq!(notices[3], (126, Message::NewSuccessor(1)));
}

#[test]
fn rejoin_repeats_the_same_notices() {
    let mut ring = joined(&[1, 50, 66, 126]);
    let again = ring.respond_to_join(66);
    assert_eq!(
        again,
        vec![
            (50, Message::NewSuccessor(66)),
            (66, Message::NewPredecessor(50)),
            (126, Message::NewPredecessor(66)),
            (66, Message::NewSuccessor(126)),
        ]
    );
}

#[test]
fn join_order_does_not_matter() {
    let mut a = joined(&[1, 126, 50, 66]);
    let mut b = joined(&[66, 50, 126, 1]);
    for probe in [1u64, 50, 66, 126, 80] {
        assert_eq!(a.respond_to_join(probe), b.respond_to_join(probe));
    }
}

#[test]
fn dispatch_routes_each_kind_of_message() {
    let mut ring = joined(&[1]);
    let req = Message::REQUEST(1, 1, 45, Operation::RETRIEVE);
    assert_eq!(ring.dispatch(req), vec![Delivery::ToNode(ENTRY_NODE, req)]);
    let answer = Message::OBJ_STORED(115, 1, 126);
    assert_eq!(ring.dispatch(answer), vec![Delivery::ToClient(answer)]);
    assert_eq!(ring.dispatch(Message::NOT_FOUND(60)), vec![Delivery::ToClient(Message::NOT_FOUND(60))]);
    assert!(ring.dispatch(Message::NewSuccessor(3)).is_empty());
    assert_eq!(
        ring.dispatch(Message::Join(50)),
        vec![
            Delivery::ToNode(1, Message::NewSuccessor(50)),
            Delivery::ToNode(50, Message::NewPredecessor(1)),
            Delivery::ToNode(1, Message::NewPredecessor(50)),
            Delivery::ToNode(50, Message::NewSuccessor(1)),
        ]
    );
}

#[test]
fn drop_request_goes_to_node_one() {
    let ring = Ring::new();
    let req = Message::REQUEST(7, 1, 115, Operation::STORE);
    assert_eq!(ring.drop_request(req), (1, req));
}

#[test]
fn obj_responses_are_recognised() {
    assert!(Message::OBJ_STORED(1, 2, 3).is_obj_response());
    assert!(Message::OBJ_RETRIEVED(1, 2, 3).is_obj_response());
    assert!(Message::NOT_FOUND(1).is_obj_response());
    assert!(!Message::Join(1).is_obj_response());
    assert!(!Message::NewPredecessor(1).is_obj_response());
    assert!(!Message::NewSuccessor(1).is_obj_response());
    assert!(!Message::REQUEST(1, 1, 1, Operation::STORE).is_obj_response());
}

fn peer(nid: u64, pred: u64, succ: u64) -> Peer {
    let mut p = Peer::new(format!("n{nid}").as_bytes()).unwrap();
    p.hear(Message::NewPredecessor(pred));
    p.hear(Message::NewSuccessor(succ));
    p
}

#[test]
fn peer_reads_its_id_from_its_host_name() {
    let p = Peer::new(b"n66").unwrap();
    assert_eq!(p.nid(), 66);
    assert_eq!(p.predecessor(), 66);
    assert_eq!(p.successor(), 66);
    assert_eq!(p.join(), Message::Join(66));
    assert!(Peer::new(b"m66").is_none());
    assert!(Peer::new(b"n").is_none());
    assert!(Peer::new(b"n6x").is_none());
}

#[test]
fn peer_learns_its_neighbours() {
    let mut p = Peer::new(b"n66").unwrap();
    assert_eq!(p.hear(Message::NewPredecessor(50)), PeerAction::RingChanged);
    assert_eq!(p.predecessor(), 50);
    assert_eq!(p.successor(), 66);
    assert_eq!(p.hear(Message::NewSuccessor(126)), PeerAction::RingChanged);
    assert_eq!(p.successor(), 126);
    assert_eq!(p.hear(Message::Join(3)), PeerAction::Idle);
    assert_eq!(p.hear(Message::NOT_FOUND(3)), PeerAction::Idle);
    assert_eq!((p.predecessor(), p.successor()), (50, 126));
}

#[test]
fn peer_owns_the_objects_above_its_predecessor() {
    let p = peer(66, 50, 126);
    assert!(!p.owns_object(50));
    assert!(p.owns_object(51));
    assert!(p.owns_object(60));
    assert!(p.owns_object(66));
    assert!(!p.owns_object(67));
}

#[test]
fn peer_serves_owned_requests_and_forwards_others() {
    let mut p = peer(66, 50, 126);
    let mine = Message::REQUEST(1, 1, NOT_FOUND_EXAMPLE, Operation::RETRIEVE);
    assert_eq!(p.hear(mine), PeerAction::Process(mine));
    let theirs = Message::REQUEST(2, 1, STORE_EXAMPLE, Operation::STORE);
    assert_eq!(p.hear(theirs), PeerAction::Forward(126, theirs));
    assert_eq!(p.propagate_request(theirs), (126, theirs));
}

#[test]
fn peer_answers_requests() {
    let p = peer(126, 66, 1);
    let store = Message::REQUEST(1, 1, 115, Operation::STORE);
    assert_eq!(p.process_request(&store, false), Some(Message::OBJ_STORED(115, 1, 126)));
    let q = peer(50, 1, 66);
    let fetch = Message::REQUEST(2, 1, 45, Operation::RETRIEVE);
    assert_eq!(q.process_request(&fetch, true), Some(Message::OBJ_RETRIEVED(45, 1, 50)));
    assert_eq!(q.process_request(&fetch, false), Some(Message::NOT_FOUND(45)));
    assert_eq!(q.process_request(&Message::Join(4), true), None);
}

#[test]
fn join_notices_make_neighbours_agree() {
    let mut ring = joined(&[1, 50, 126]);
    let notices = ring.respond_to_join(66);
    let mut joiner = Peer::new(b"n66").unwrap();
    let mut left = peer(50, 1, 126);
    let mut right = peer(126, 50, 1);
    for (target, msg) in notices {
        for p in [&mut joiner, &mut left, &mut right] {
            if p.nid() == target {
                p.hear(msg);
            }
        }
    }
    assert_eq!((joiner.predecessor(), joiner.successor()), (50, 126));
    assert_eq!(left.successor(), 66);
    assert_eq!(right.predecessor(), 66);
}

#[test]
fn exactly_one_peer_owns_each_object() {
    let ring = [(1, 126), (50, 1), (66, 50), (126, 66)];
    let peers: Vec<Peer> = ring.iter().map(|&(n, p)| peer(n, p, n)).collect();
    for oid in (0u64..140).chain([u64::MAX - 1, u64::MAX]) {
        let owners: Vec<u64> = peers.iter().filter(|p| p.owns_object(oid)).map(|p| p.nid()).collect();
        let expected = if oid <= 1 || oid > 126 {
            1
        } else if oid <= 50 {
            50
        } else if oid <= 66 {
            66
        } else {
            126
        };
        assert_eq!(owners, vec![expected], "object {oid}");
    }
}

#[test]
fn first_peer_owns_the_ids_that_wrap_around() {
    let first = peer(1, 126, 50);
    assert!(first.owns_object(0));
    assert!(first.owns_object(1));
    assert!(!first.owns_object(2));
    assert!(!first.owns_object(126));
    assert!(first.owns_object(127));
    assert!(first.owns_object(130));
    assert!(first.owns_object(u64::MAX));
}

#[test]
fn lone_peer_owns_every_object() {
    let mut alone = Peer::new(b"n7").unwrap();
    for oid in [0u64, 6, 7, 8, u64::MAX] {
        assert!(alone.owns_object(oid));
    }
    let req = Message::REQUEST(1, 1, 100, Operation::STORE);
    assert_eq!(alone.hear(req), PeerAction::Process(req));
}

#[test]
fn request_for_a_wrapped_id_reaches_the_first_peer() {
    let ring = [(1u64, 126u64, 50u64), (50, 1, 66), (66, 50, 126), (126, 66, 1)];
    let mut peers: Vec<Peer> = ring.iter().map(|&(n, p, s)| peer(n, p, s)).collect();
    for (start, oid, owner) in [(50u64, 0u64, 1u64), (66, 200, 1), (1, 0, 1), (126, 60, 66)] {
        let req = Message::REQUEST(1, 1, oid, Operation::RETRIEVE);
        let mut at = start;
        let mut hops = 0;
        loop {
            let p = peers.iter_mut().find(|p| p.nid() == at).unwrap();
            match p.hear(req) {
                PeerAction::Forward(next, _) => {
                    at = next;
                    hops += 1;
                    assert!(hops < 4, "request for {oid} circles the ring");
                }
                PeerAction::Process(_) => break,
                other => panic!("unexpected {other:?}"),
            }
        }
        assert_eq!(at, owner, "object {oid} from n{start}");
    }
}

#[test]
fn peer_shows_its_place_in_the_ring() {
    let p = peer(66, 50, 126);
    assert_eq!(p.ring_line(), b"Predecessor: n50, Successor: n126".to_vec());
}

#[test]
fn client_reports_the_answers() {
    assert_eq!(Client::response_report(&Message::OBJ_STORED(115, 1, 126)), Some(b"STORED: 115".to_vec()));
    assert_eq!(Client::response_report(&Message::OBJ_RETRIEVED(45, 1, 50)), Some(b"RETRIEVED: 45".to_vec()));
    assert_eq!(Client::response_report(&Message::NOT_FOUND(60)), Some(b"NOT FOUND: 60".to_vec()));
    assert_eq!(Client::response_report(&Message::Join(60)), None);
    assert_eq!(Client::response_report(&Message::REQUEST(1, 1, 60, Operation::STORE)), None);
}

#[test]
fn client_requests_count_up() {
    let mut c = Client::new();
    assert_eq!(c.id(), 1);
    assert_eq!(c.reqs_made(), 0);
    assert_eq!(c.send_req(3), Message::REQUEST(1, 1, STORE_EXAMPLE, Operation::STORE));
    assert_eq!(c.send_req(4), Message::REQUEST(2, 1, RETRIEVE_EXAMPLE, Operation::RETRIEVE));
    assert_eq!(c.send_req(5), Message::REQUEST(3, 1, NOT_FOUND_EXAMPLE, Operation::RETRIEVE));
    assert_eq!(c.reqs_made(), 3);
    assert_eq!((STORE_EXAMPLE, RETRIEVE_EXAMPLE, NOT_FOUND_EXAMPLE), (115, 45, 60));
}

#[test]
fn scenario_objects_have_their_documented_owners() {
    let n126 = peer(126, 66, 1);
    let n50 = peer(50, 1, 66);
    let n66 = peer(66, 50, 126);
    assert!(n126.owns_object(STORE_EXAMPLE));
    assert!(n50.owns_object(RETRIEVE_EXAMPLE));
    assert!(n66.owns_object(NOT_FOUND_EXAMPLE));
}

#[test]
fn requests_travel_from_the_entry_node_to_their_owner() {
    let ring = [(1u64, 126u64, 50u64), (50, 1, 66), (66, 50, 126), (126, 66, 1)];
    let mut peers: Vec<Peer> = ring.iter().map(|&(n, p, s)| peer(n, p, s)).collect();
    let req = Message::REQUEST(1, 1, STORE_EXAMPLE, Operation::STORE);
    let mut at = ENTRY_NODE;
    let mut hops = 0;
    loop {
        let p = peers.iter_mut().find(|p| p.nid() == at).unwrap();
        match p.hear(req) {
            PeerAction::Forward(next, m) => {
                assert_eq!(m, req);
                at = next;
                hops += 1;
            }
            PeerAction::Process(m) => {
                assert_eq!(m, req);
                break;
            }
            other => panic!("unexpected {other:?}"),
        }
    }
    assert_eq!((at, hops), (126, 3));
}
