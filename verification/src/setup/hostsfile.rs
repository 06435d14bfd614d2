//! The text format of a peer's object store: one record per line, holding
//! the id of the client that stored the object and the object's id.
use vstd::prelude::*;

use crate::setup::socketry::COLON;
use crate::text::{decimal, lemma_decimal_digits, lemma_decimal_injective, push_decimal};

verus! {

/// The id of a client.
pub type ClientId = u64;

/// The id of an object; objects and nodes share one id space.
pub type ObjectId = u64;

/// The ASCII code of the line feed that ends a stored record.
pub const NEWLINE: u8 = 10u8;

/// The record of object `oid` stored for client `cid`: the client's id, two
/// colons, the object's id, all in decimal, without the line's end.
pub open spec fn spec_record(cid: ClientId, oid: ObjectId) -> Seq<u8> {
    decimal(cid as nat) + seq![COLON, COLON] + decimal(oid as nat)
}

/// Whether one of the `lines` read from a store is the record of `oid`
/// stored for `cid`.
pub open spec fn spec_holds_record(lines: Seq<Seq<u8>>, cid: ClientId, oid: ObjectId) -> bool {
    exists|i: int| 0 <= i < lines.len() && lines[i] == spec_record(cid, oid)
}

/// The record of object `oid` stored for client `cid`.
pub fn record_entry(cid: ClientId, oid: ObjectId) -> (entry: Vec<u8>)
    ensures
        entry@ == spec_record(cid, oid),
{
    let mut entry: Vec<u8> = Vec::new();
    push_decimal(&mut entry, cid);
    entry.push(COLON);
    entry.push(COLON);
    push_decimal(&mut entry, oid);
    assert(entry@ =~= spec_record(cid, oid));
    entry
}

/// The line that storing object `oid` for client `cid` appends to the store:
/// the record and a line feed.
pub fn record_line(cid: ClientId, oid: ObjectId) -> (line: Vec<u8>)
    ensures
        line@ == spec_record(cid, oid).push(NEWLINE),
{
    let mut line = record_entry(cid, oid);
    line.push(NEWLINE);
    line
}

/// Whether `a` and `b` hold the same bytes.
fn bytes_equal(a: &[u8], b: &[u8]) -> (same: bool)
    ensures
        same == (a@ == b@),
{
    if a.len() != b.len() {
        return false;
    }
    let mut i: usize = 0;
    while i < a.len()
        invariant
            i <= a.len(),
            a.len() == b.len(),
            forall|k: int| 0 <= k < i ==> a@[k] == b@[k],
        decreases a.len() - i,
    {
        if a[i] != b[i] {
            return false;
        }
        i += 1;
    }
    assert(a@ =~= b@);
    true
}

/// Whether one of the `lines` read from a store is the record of `oid`
/// stored for `cid`; a line is compared whole, without its line end.
pub fn holds_record(lines: &Vec<Vec<u8>>, cid: ClientId, oid: ObjectId) -> (found: bool)
    ensures
        found == spec_holds_record(lines@.map_values(|line: Vec<u8>| line@), cid, oid),
{
    let entry = record_entry(cid, oid);
    let ghost seen = lines@.map_values(|line: Vec<u8>| line@);
    let mut i: usize = 0;
    while i < lines.len()
        invariant
            i <= lines.len(),
            seen == lines@.map_values(|line: Vec<u8>| line@),
            entry@ == spec_record(cid, oid),
            forall|k: int| 0 <= k < i ==> seen[k] != spec_record(cid, oid),
        decreases lines.len() - i,
    {
        if bytes_equal(lines[i].as_slice(), entry.as_slice()) {
            assert(seen[i as int] == spec_record(cid, oid));
            return true;
        }
        i += 1;
    }
    false
}

/// Records are told apart by what they hold: two records that read the same
/// were stored for the same client and name the same object.
pub proof fn lemma_record_injective(c1: ClientId, o1: ObjectId, c2: ClientId, o2: ObjectId)
    requires
        spec_record(c1, o1) == spec_record(c2, o2),
    ensures
        c1 == c2,
        o1 == o2,
{
    let a1 = decimal(c1 as nat);
    let a2 = decimal(c2 as nat);
    let r = spec_record(c1, o1);
    lemma_decimal_digits(c1 as nat);
    lemma_decimal_digits(c2 as nat);
    if a1.len() < a2.len() {
        assert(r[a1.len() as int] == COLON);
        assert(spec_record(c2, o2)[a1.len() as int] == a2[a1.len() as int]);
        assert(crate::text::is_digit(a2[a1.len() as int]));
    } else if a2.len() < a1.len() {
        assert(spec_record(c2, o2)[a2.len() as int] == COLON);
        assert(r[a2.len() as int] == a1[a2.len() as int]);
        assert(crate::text::is_digit(a1[a2.len() as int]));
    }
    assert(a1 =~= r.take(a1.len() as int));
    assert(a2 =~= spec_record(c2, o2).take(a2.len() as int));
    lemma_decimal_injective(c1 as nat, c2 as nat);
    assert(decimal(o1 as nat) =~= r.skip(a1.len() + 2int));
    assert(decimal(o2 as nat) =~= spec_record(c2, o2).skip(a2.len() + 2int));
    lemma_decimal_injective(o1 as nat, o2 as nat);
}

/// A record is never an empty line.
pub proof fn lemma_record_not_empty(cid: ClientId, oid: ObjectId)
    ensures
        spec_record(cid, oid).len() > 0,
{
    lemma_decimal_digits(cid as nat);
}

/// A store with no lines holds no record.
pub proof fn lemma_empty_store_holds_nothing(cid: ClientId, oid: ObjectId)
    ensures
        !spec_holds_record(Seq::<Seq<u8>>::empty(), cid, oid),
{
}

/// A line that is not the record of `oid` for `cid`, a blank line among
/// them, does not change whether the store holds that record.
pub proof fn lemma_other_lines_do_not_count(
    lines: Seq<Seq<u8>>,
    line: Seq<u8>,
    cid: ClientId,
    oid: ObjectId,
)
    requires
        line != spec_record(cid, oid),
    ensures
        spec_holds_record(lines.push(line), cid, oid) == spec_holds_record(lines, cid, oid),
{
    if spec_holds_record(lines.push(line), cid, oid) {
        let i = choose|i: int|
            0 <= i < lines.push(line).len() && lines.push(line)[i] == spec_record(cid, oid);
        assert(i < lines.len());
        assert(lines[i] == spec_record(cid, oid));
    }
    if spec_holds_record(lines, cid, oid) {
        let i = choose|i: int| 0 <= i < lines.len() && lines[i] == spec_record(cid, oid);
        assert(lines.push(line)[i] == spec_record(cid, oid));
    }
}

/// Blank lines in a store never make a record found.
pub proof fn lemma_blank_lines_do_not_count(lines: Seq<Seq<u8>>, cid: ClientId, oid: ObjectId)
    ensures
        spec_holds_record(lines.push(Seq::<u8>::empty()), cid, oid) == spec_holds_record(
            lines,
            cid,
            oid,
        ),
{
    lemma_record_not_empty(cid, oid);
    lemma_other_lines_do_not_count(lines, Seq::<u8>::empty(), cid, oid);
}

/// What is stored can be found: once the record of `oid` for `cid` has been
/// added to a store's lines, the store holds it, whatever it held before.
pub proof fn lemma_stored_record_is_found(lines: Seq<Seq<u8>>, cid: ClientId, oid: ObjectId)
    ensures
        spec_holds_record(lines.push(spec_record(cid, oid)), cid, oid),
{
    assert(lines.push(spec_record(cid, oid))[lines.len() as int] == spec_record(cid, oid));
}

/// A store finds only what was stored: a store whose lines are records finds
/// the record of `oid` for `cid` only if that very pair was stored.
pub proof fn lemma_found_record_was_stored(
    stored: Seq<(ClientId, ObjectId)>,
    cid: ClientId,
    oid: ObjectId,
)
    ensures
        spec_holds_record(stored.map_values(|p: (ClientId, ObjectId)| spec_record(p.0, p.1)), cid, oid)
            <==> stored.contains((cid, oid)),
{
    let lines = stored.map_values(|p: (ClientId, ObjectId)| spec_record(p.0, p.1));
    if spec_holds_record(lines, cid, oid) {
        let i = choose|i: int| 0 <= i < lines.len() && lines[i] == spec_record(cid, oid);
        lemma_record_injective(stored[i].0, stored[i].1, cid, oid);
        assert(stored[i] == (cid, oid));
    }
    if stored.contains((cid, oid)) {
        let i = choose|i: int| 0 <= i < stored.len() && stored[i] == (cid, oid);
        assert(lines[i] == spec_record(cid, oid));
    }
}

} // verus!
