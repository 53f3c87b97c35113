//! The write-ahead log's record format, and replay of a log into a MemTable.
//!
//! A record is `op (1) | key_len (4, LE) | key | val_len (4, LE) | value | crc (4, LE)`,
//! the CRC-32 taken over everything before it. A delete carries an empty value.
use crate::error::OblivionError;
use crate::memtable::MemTable;
use vstd::prelude::*;
use vstd::slice::slice_to_vec;

verus! {

/// Record tag of a write.
pub const OP_PUT: u8 = 1;

/// Record tag of a deletion.
pub const OP_DELETE: u8 = 2;

/// The IEEE CRC-32 of a byte string.
pub uninterp spec fn crc32_of(data: Seq<u8>) -> u32;

/// Relies on `crc32fast::hash`: the IEEE CRC-32 of the bytes, which depends on them alone.
#[verifier::external_body]
pub(crate) fn crc32(data: &[u8]) -> (r: u32)
    ensures
        r == crc32_of(data@),
{
    crc32fast::hash(data)
}

/// Four bytes, least significant first.
pub open spec fn le32(x: u32) -> Seq<u8> {
    seq![(x & 0xff) as u8, ((x >> 8) & 0xff) as u8, ((x >> 16) & 0xff) as u8, ((x >> 24) & 0xff) as u8]
}

/// The number that four bytes hold, least significant first.
pub open spec fn le32_value(b: Seq<u8>) -> u32 {
    (b[0] as u32) | ((b[1] as u32) << 8) | ((b[2] as u32) << 16) | ((b[3] as u32) << 24)
}

pub proof fn lemma_le32_round_trip(x: u32)
    ensures
        le32(x).len() == 4,
        le32_value(le32(x)) == x,
{
    let b = le32(x);
    let b0 = b[0];
    let b1 = b[1];
    let b2 = b[2];
    let b3 = b[3];
    assert(((b0 as u32) | ((b1 as u32) << 8) | ((b2 as u32) << 16) | ((b3 as u32) << 24)) == x)
        by (bit_vector)
        requires
            b0 == (x & 0xff) as u8,
            b1 == ((x >> 8) & 0xff) as u8,
            b2 == ((x >> 16) & 0xff) as u8,
            b3 == ((x >> 24) & 0xff) as u8,
    ;
}

/// A mutation as the log records it.
#[derive(Debug, Clone)]
pub enum Mutation {
    Put(Vec<u8>, Vec<u8>),
    Delete(Vec<u8>),
}

/// The bytes of a record that the checksum covers.
pub open spec fn record_body(op: u8, k: Seq<u8>, v: Seq<u8>) -> Seq<u8> {
    seq![op] + le32(k.len() as u32) + k + le32(v.len() as u32) + v
}

/// A whole record: body, then the checksum of the body.
pub open spec fn record_bytes(op: u8, k: Seq<u8>, v: Seq<u8>) -> Seq<u8> {
    record_body(op, k, v) + le32(crc32_of(record_body(op, k, v)))
}

/// The record of a mutation.
pub open spec fn mutation_bytes(m: Mutation) -> Seq<u8> {
    match m {
        Mutation::Put(k, v) => record_bytes(OP_PUT, k@, v@),
        Mutation::Delete(k) => record_bytes(OP_DELETE, k@, Seq::empty()),
    }
}

/// Whether a mutation fits the format: key and value lengths within 32 bits.
pub open spec fn encodable(m: Mutation) -> bool {
    match m {
        Mutation::Put(k, v) => k@.len() <= u32::MAX && v@.len() <= u32::MAX,
        Mutation::Delete(k) => k@.len() <= u32::MAX,
    }
}

/// A MemTable map after one mutation.
pub open spec fn apply_mutation(t: Map<Seq<u8>, Option<Seq<u8>>>, m: Mutation) -> Map<
    Seq<u8>,
    Option<Seq<u8>>,
> {
    match m {
        Mutation::Put(k, v) => t.insert(k@, Some(v@)),
        Mutation::Delete(k) => t.insert(k@, None),
    }
}

/// A MemTable map after a sequence of mutations, in order.
pub open spec fn apply_all(t: Map<Seq<u8>, Option<Seq<u8>>>, ops: Seq<Mutation>) -> Map<
    Seq<u8>,
    Option<Seq<u8>>,
>
    decreases ops.len(),
{
    if ops.len() == 0 {
        t
    } else {
        apply_all(apply_mutation(t, ops[0]), ops.drop_first())
    }
}

/// The log that records a sequence of mutations, in order.
pub open spec fn log_bytes(ops: Seq<Mutation>) -> Seq<u8>
    decreases ops.len(),
{
    if ops.len() == 0 {
        Seq::empty()
    } else {
        mutation_bytes(ops[0]) + log_bytes(ops.drop_first())
    }
}

/// Key length field of the record at the start of `d`.
pub open spec fn key_len_at(d: Seq<u8>) -> int {
    le32_value(d.subrange(1, 5)) as int
}

/// Value length field of the record at the start of `d`.
pub open spec fn val_len_at(d: Seq<u8>) -> int {
    le32_value(d.subrange(5 + key_len_at(d), 9 + key_len_at(d))) as int
}

/// Length of the record at the start of `d`, checksum included.
pub open spec fn record_len(d: Seq<u8>) -> int {
    13 + key_len_at(d) + val_len_at(d)
}

/// `d` begins with a whole record whose checksum matches and whose tag is known.
pub open spec fn record_ok(d: Seq<u8>) -> bool {
    &&& d.len() >= 5
    &&& d.len() >= 9 + key_len_at(d)
    &&& d.len() >= record_len(d)
    &&& le32_value(d.subrange(record_len(d) - 4, record_len(d))) == crc32_of(
        d.subrange(0, record_len(d) - 4),
    )
    &&& (d[0] == OP_PUT || d[0] == OP_DELETE)
}

/// The mutation that a well-formed record at the start of `d` holds, applied to `t`.
pub open spec fn apply_record(t: Map<Seq<u8>, Option<Seq<u8>>>, d: Seq<u8>) -> Map<
    Seq<u8>,
    Option<Seq<u8>>,
> {
    let kl = key_len_at(d);
    let k = d.subrange(5, 5 + kl);
    if d[0] == OP_PUT {
        t.insert(k, Some(d.subrange(9 + kl, 9 + kl + val_len_at(d))))
    } else {
        t.insert(k, None)
    }
}

/// Replays the log `d` onto `t`, record by record, up to the first record that is
/// cut short, fails its checksum or has an unknown tag.
pub open spec fn replay_from(d: Seq<u8>, t: Map<Seq<u8>, Option<Seq<u8>>>) -> Map<
    Seq<u8>,
    Option<Seq<u8>>,
>
    decreases d.len(),
{
    if record_ok(d) {
        replay_from(d.skip(record_len(d)), apply_record(t, d))
    } else {
        t
    }
}

/// A record followed by anything parses back to its own fields.
proof fn lemma_record_parses(op: u8, k: Seq<u8>, v: Seq<u8>, tail: Seq<u8>)
    requires
        k.len() <= u32::MAX,
        v.len() <= u32::MAX,
        op == OP_PUT || op == OP_DELETE,
    ensures
        record_ok(record_bytes(op, k, v) + tail),
        record_len(record_bytes(op, k, v) + tail) == record_bytes(op, k, v).len(),
        (record_bytes(op, k, v) + tail)[0] == op,
        key_len_at(record_bytes(op, k, v) + tail) == k.len(),
        val_len_at(record_bytes(op, k, v) + tail) == v.len(),
        (record_bytes(op, k, v) + tail).subrange(5, 5 + k.len() as int) == k,
        (record_bytes(op, k, v) + tail).subrange(9 + k.len() as int, 9 + k.len() + v.len() as int) == v,
{
    let body = record_body(op, k, v);
    let d = record_bytes(op, k, v) + tail;
    let kl = k.len() as int;
    let vl = v.len() as int;
    lemma_le32_round_trip(k.len() as u32);
    lemma_le32_round_trip(v.len() as u32);
    lemma_le32_round_trip(crc32_of(body));
    assert(body.len() == 9 + kl + vl);
    assert(d.subrange(1, 5) =~= le32(k.len() as u32));
    assert(d.subrange(5, 5 + kl) =~= k);
    assert(d.subrange(5 + kl, 9 + kl) =~= le32(v.len() as u32));
    assert(d.subrange(9 + kl, 9 + kl + vl) =~= v);
    assert(d.subrange(9 + kl + vl, 13 + kl + vl) =~= le32(crc32_of(body)));
    assert(d.subrange(0, 9 + kl + vl) =~= body);
}

/// Replaying the log of any sequence of encodable mutations rebuilds the map that
/// applying them in order gives: each acknowledged write survives a restart, and of
/// two writes to one key the later one wins.
pub proof fn lemma_log_replays(ops: Seq<Mutation>, t: Map<Seq<u8>, Option<Seq<u8>>>)
    requires
        forall|i: int| 0 <= i < ops.len() ==> encodable(#[trigger] ops[i]),
    ensures
        replay_from(log_bytes(ops), t) == apply_all(t, ops),
    decreases ops.len(),
{
    if ops.len() > 0 {
        let m = ops[0];
        let rest = ops.drop_first();
        assert(encodable(m));
        assert forall|i: int| 0 <= i < rest.len() implies encodable(#[trigger] rest[i]) by {
            assert(rest[i] == ops[i + 1]);
        }
        let tail = log_bytes(rest);
        let d = mutation_bytes(m) + tail;
        assert(log_bytes(ops) == d);
        match m {
            Mutation::Put(k, v) => {
                lemma_record_parses(OP_PUT, k@, v@, tail);
            },
            Mutation::Delete(k) => {
                lemma_record_parses(OP_DELETE, k@, Seq::empty(), tail);
            },
        }
        assert(d.skip(record_len(d)) =~= tail);
        assert(apply_record(t, d) == apply_mutation(t, m));
        lemma_log_replays(rest, apply_mutation(t, m));
    }
}

pub(crate) fn push_u32_le(buf: &mut Vec<u8>, x: u32)
    ensures
        final(buf)@ == old(buf)@ + le32(x),
{
    buf.push((x & 0xff) as u8);
    buf.push(((x >> 8) & 0xff) as u8);
    buf.push(((x >> 16) & 0xff) as u8);
    buf.push(((x >> 24) & 0xff) as u8);
    assert(final(buf)@ =~= old(buf)@ + le32(x));
}

pub(crate) fn push_bytes(buf: &mut Vec<u8>, b: &[u8])
    ensures
        final(buf)@ == old(buf)@ + b@,
{
    let mut i: usize = 0;
    while i < b.len()
        invariant
            i <= b@.len(),
            buf@ == old(buf)@ + b@.subrange(0, i as int),
        decreases b@.len() - i,
    {
        buf.push(b[i]);
        assert(b@.subrange(0, i + 1) =~= b@.subrange(0, i as int).push(b@[i as int]));
        i = i + 1;
    }
    assert(b@.subrange(0, i as int) =~= b@);
}

pub(crate) fn read_u32_le(data: &[u8], pos: usize) -> (r: u32)
    requires
        pos + 4 <= data@.len(),
    ensures
        r == le32_value(data@.subrange(pos as int, pos + 4)),
{
    let ghost b = data@.subrange(pos as int, pos + 4);
    assert(b[0] == data@[pos as int] && b[1] == data@[pos + 1] && b[2] == data@[pos + 2] && b[3]
        == data@[pos + 3]);
    (data[pos] as u32) | ((data[pos + 1] as u32) << 8) | ((data[pos + 2] as u32) << 16) | ((
    data[pos + 3] as u32) << 24)
}

fn encode_record(op: u8, key: &[u8], value: &[u8]) -> (r: Vec<u8>)
    requires
        key@.len() <= u32::MAX,
        value@.len() <= u32::MAX,
    ensures
        r@ == record_bytes(op, key@, value@),
{
    let mut buf: Vec<u8> = Vec::new();
    buf.push(op);
    push_u32_le(&mut buf, key.len() as u32);
    push_bytes(&mut buf, key);
    push_u32_le(&mut buf, value.len() as u32);
    push_bytes(&mut buf, value);
    assert(buf@ =~= record_body(op, key@, value@));
    let crc = crc32(buf.as_slice());
    push_u32_le(&mut buf, crc);
    buf
}

/// Encodes a write as one log record; a key or value longer than the 32-bit length
/// field allows is refused.
pub fn encode_put(key: &[u8], value: &[u8]) -> (r: Result<Vec<u8>, OblivionError>)
    ensures
        match r {
            Ok(bytes) => key@.len() <= u32::MAX && value@.len() <= u32::MAX && bytes@
                == record_bytes(OP_PUT, key@, value@),
            Err(e) => (key@.len() > u32::MAX || value@.len() > u32::MAX) && e is Serialization,
        },
{
    if key.len() > u32::MAX as usize || value.len() > u32::MAX as usize {
        return Err(OblivionError::Serialization("key or value longer than 2^32 - 1 bytes".to_owned()));
    }
    Ok(encode_record(OP_PUT, key, value))
}

/// Encodes a deletion as one log record, with an empty value; a key longer than the
/// 32-bit length field allows is refused.
pub fn encode_delete(key: &[u8]) -> (r: Result<Vec<u8>, OblivionError>)
    ensures
        match r {
            Ok(bytes) => key@.len() <= u32::MAX && bytes@ == record_bytes(
                OP_DELETE,
                key@,
                Seq::empty(),
            ),
            Err(e) => key@.len() > u32::MAX && e is Serialization,
        },
{
    if key.len() > u32::MAX as usize {
        return Err(OblivionError::Serialization("key longer than 2^32 - 1 bytes".to_owned()));
    }
    let empty: [u8; 0] = [];
    let r = encode_record(OP_DELETE, key, empty.as_slice());
    assert(empty@ =~= Seq::<u8>::empty());
    Ok(r)
}

/// Encodes a mutation as one log record.
pub fn encode(m: &Mutation) -> (r: Result<Vec<u8>, OblivionError>)
    ensures
        match r {
            Ok(bytes) => encodable(*m) && bytes@ == mutation_bytes(*m),
            Err(e) => !encodable(*m) && e is Serialization,
        },
{
    match m {
        Mutation::Put(k, v) => encode_put(k.as_slice(), v.as_slice()),
        Mutation::Delete(k) => encode_delete(k.as_slice()),
    }
}

/// Rebuilds the MemTable that a log describes: records are applied in order, and
/// replay stops cleanly at the first record that is cut short, fails its checksum or
/// carries an unknown tag.
#[verifier::rlimit(40)]
pub fn replay_log(data: &[u8]) -> (r: MemTable)
    ensures
        r.wf(),
        r@ == replay_from(data@, Map::empty()),
{
    let mut table = MemTable::new();
    let len = data.len();
    let mut cursor: usize = 0;
    let mut done = false;
    assert(data@.skip(0) =~= data@);
    while !done && cursor < len
        invariant
            len == data@.len(),
            cursor <= len,
            table.wf(),
            table.size_spec() <= cursor,
            replay_from(data@.skip(cursor as int), table@) == replay_from(data@, Map::empty()),
            done ==> !record_ok(data@.skip(cursor as int)),
        decreases len - cursor + (if done { 0int } else { 1int }),
    {
        let ghost d = data@.skip(cursor as int);
        let rem = len - cursor;
        if rem < 5 {
            done = true;
        } else {
            assert(d.subrange(1, 5) =~= data@.subrange(cursor + 1, cursor + 5));
            let kl = read_u32_le(data, cursor + 1) as usize;
            if rem - 5 < kl || rem - 5 - kl < 4 {
                done = true;
            } else {
                let vpos = cursor + 5 + kl;
                assert(d.subrange(5 + kl, 9 + kl) =~= data@.subrange(vpos as int, vpos + 4));
                let vl = read_u32_le(data, vpos) as usize;
                if rem - 9 - kl < vl || rem - 9 - kl - vl < 4 {
                    done = true;
                } else {
                    let body_end = vpos + 4 + vl;
                    assert(d.subrange(record_len(d) - 4, record_len(d)) =~= data@.subrange(
                        body_end as int,
                        body_end + 4,
                    ));
                    assert(d.subrange(0, record_len(d) - 4) =~= data@.subrange(
                        cursor as int,
                        body_end as int,
                    ));
                    let stored = read_u32_le(data, body_end);
                    let computed = crc32(&data[cursor..body_end]);
                    let op = data[cursor];
                    if stored != computed || (op != OP_PUT && op != OP_DELETE) {
                        done = true;
                    } else {
                        assert(record_ok(d));
                        let key = slice_to_vec(&data[cursor + 5..vpos]);
                        assert(key@ =~= d.subrange(5, 5 + kl));
                        if op == OP_PUT {
                            let value = slice_to_vec(&data[vpos + 4..body_end]);
                            assert(value@ =~= d.subrange(9 + kl, 9 + kl + vl));
                            table.insert(key, value);
                        } else {
                            table.delete(key);
                        }
                        assert(d.skip(record_len(d)) =~= data@.skip(body_end + 4));
                        cursor = body_end + 4;
                    }
                }
            }
        }
    }
    if !done {
        assert(data@.skip(cursor as int).len() == 0);
    }
    table
}

} // verus!
