use vstd::prelude::*;
use vstd::arithmetic::div_mod::{lemma_breakdown, lemma_small_mod};
use bytes::Bytes;
use crate::bytes_support::{bytes_index, bytes_view};

verus! {

/// The four big-endian base-256 digits of `n`, most significant first.
pub open spec fn be32(n: int) -> Seq<u8>
    recommends
        0 <= n < 0x100000000,
{
    seq![
        ((n / 0x1000000) % 0x100) as u8,
        ((n / 0x10000) % 0x100) as u8,
        ((n / 0x100) % 0x100) as u8,
        (n % 0x100) as u8,
    ]
}

/// The value of four bytes read as a big-endian unsigned integer.
pub open spec fn be32_val(s: Seq<u8>) -> int
    recommends
        s.len() == 4,
{
    (s[0] as int) * 0x1000000 + (s[1] as int) * 0x10000 + (s[2] as int) * 0x100 + (s[3] as int)
}

/// Reading back the four big-endian digits of `n` gives `n` again.
pub proof fn lemma_be32_round_trip(n: int)
    requires
        0 <= n < 0x100000000,
    ensures
        be32(n).len() == 4,
        be32_val(be32(n)) == n,
{
    lemma_small_mod(n as nat, 0x100000000);
    lemma_breakdown(n, 0x1000000, 0x100);
    lemma_breakdown(n, 0x10000, 0x100);
    lemma_breakdown(n, 0x100, 0x100);
}

/// One encoded field record: the type byte, the value's length as a
/// big-endian u32, then the value itself.
pub open spec fn record_bytes(t: u8, v: Seq<u8>) -> Seq<u8>
    recommends
        v.len() <= u32::MAX,
{
    seq![t] + be32(v.len() as int) + v
}

/// The number of encoded bytes one slot contributes: a full record for an
/// occupied slot, nothing for a vacant one.
pub open spec fn slot_cost(slot: Option<Seq<u8>>) -> int {
    match slot {
        Some(v) => 5 + v.len() as int,
        None => 0,
    }
}

/// The bytes slot `i` contributes to the encoding.
pub open spec fn slot_bytes(s: Seq<Option<Seq<u8>>>, i: int) -> Seq<u8>
    recommends
        0 <= i < s.len(),
{
    match s[i] {
        Some(v) => record_bytes(i as u8, v),
        None => Seq::<u8>::empty(),
    }
}

/// Total encoded cost of slots `0 .. i`.
pub open spec fn cost_upto(s: Seq<Option<Seq<u8>>>, i: int) -> int
    decreases i,
{
    if i <= 0 {
        0
    } else {
        cost_upto(s, i - 1) + slot_cost(s[i - 1])
    }
}

/// The length in bytes of a message's encoding: four length bytes, one
/// event-type byte, then every field record.
pub open spec fn encoded_len(s: Seq<Option<Seq<u8>>>) -> int {
    5 + cost_upto(s, 256)
}

/// The concatenated records of slots `0 .. i`, in ascending slot order.
pub open spec fn records_upto(s: Seq<Option<Seq<u8>>>, i: int) -> Seq<u8>
    decreases i,
{
    if i <= 0 {
        Seq::<u8>::empty()
    } else {
        records_upto(s, i - 1) + slot_bytes(s, i - 1)
    }
}

/// The concatenated records of slots `i .. 256`, in ascending slot order.
pub open spec fn records_from(s: Seq<Option<Seq<u8>>>, i: int) -> Seq<u8>
    decreases 256 - i,
{
    if 0 <= i < 256 {
        slot_bytes(s, i) + records_from(s, i + 1)
    } else {
        Seq::<u8>::empty()
    }
}

/// The canonical encoding of a message: its total length (including these
/// four bytes) as a big-endian u32, the event type, then the field
/// records in ascending field-type order.
pub open spec fn message_bytes(ev: u8, s: Seq<Option<Seq<u8>>>) -> Seq<u8>
    recommends
        slots_well_formed(s),
{
    be32(encoded_len(s)) + seq![ev] + records_upto(s, 256)
}

/// A slot table with every slot vacant.
pub open spec fn vacant_slots() -> Seq<Option<Seq<u8>>> {
    Seq::new(256, |i: int| None::<Seq<u8>>)
}

/// Slot tables the encoder can serialize: 256 slots whose total encoding
/// fits the four-byte length prefix.
pub open spec fn slots_well_formed(s: Seq<Option<Seq<u8>>>) -> bool {
    s.len() == 256 && encoded_len(s) <= u32::MAX
}

/// The parser's field loop, as a function on bytes: starting at `off`,
/// consume complete records while at least five bytes remain, store each
/// value under its type byte (a later record overwrites an earlier one of
/// the same type), fail when a record claims more value bytes than the
/// buffer still holds, and silently ignore a trailing fragment shorter
/// than a record header.
pub open spec fn scan_fields(b: Seq<u8>, off: int, acc: Seq<Option<Seq<u8>>>) -> Option<
    Seq<Option<Seq<u8>>>,
>
    recommends
        0 <= off,
        acc.len() == 256,
    decreases b.len() - off,
{
    if 0 <= off && off + 5 <= b.len() {
        let l = be32_val(b.subrange(off + 1, off + 5));
        if off + 5 + l > b.len() {
            None
        } else {
            scan_fields(
                b,
                off + 5 + l,
                acc.update(b[off] as int, Some(b.subrange(off + 5, off + 5 + l))),
            )
        }
    } else {
        Some(acc)
    }
}

/// The whole parse routine, as a function on bytes: reject a buffer of
/// fewer than five bytes, reject one whose length prefix does not equal
/// its exact length, then scan the field records.
pub open spec fn parse_result(b: Seq<u8>) -> Option<(u8, Seq<Option<Seq<u8>>>)> {
    if b.len() < 5 {
        None
    } else if be32_val(b.subrange(0, 4)) != b.len() {
        None
    } else {
        match scan_fields(b, 5, vacant_slots()) {
            Some(s) => Some((b[4], s)),
            None => None,
        }
    }
}

/// Every value stored in slots `i ..` is small enough for its four-byte
/// length field.
pub open spec fn slot_values_fit(s: Seq<Option<Seq<u8>>>, i: int) -> bool {
    forall|j: int|
        i <= j < s.len() ==> match #[trigger] s[j] {
            Some(v) => v.len() <= u32::MAX,
            None => true,
        }
}

pub proof fn lemma_cost_upto_nonneg(s: Seq<Option<Seq<u8>>>, i: int)
    ensures
        0 <= cost_upto(s, i),
    decreases i,
{
    if i > 0 {
        lemma_cost_upto_nonneg(s, i - 1);
    }
}

pub proof fn lemma_cost_upto_mono(s: Seq<Option<Seq<u8>>>, i: int, j: int)
    requires
        i <= j,
    ensures
        cost_upto(s, i) <= cost_upto(s, j),
    decreases j - i,
{
    if i < j {
        lemma_cost_upto_mono(s, i, j - 1);
    }
}

proof fn lemma_cost_upto_update(s: Seq<Option<Seq<u8>>>, t: int, x: Option<Seq<u8>>, i: int)
    requires
        0 <= t < s.len(),
        0 <= i <= s.len(),
    ensures
        cost_upto(s.update(t, x), i) == cost_upto(s, i) + if t < i {
            slot_cost(x) - slot_cost(s[t])
        } else {
            0
        },
    decreases i,
{
    if i > 0 {
        lemma_cost_upto_update(s, t, x, i - 1);
    }
}

/// How updating one slot changes the total encoded length: the old
/// slot's cost goes away and the new slot's cost comes in.
pub proof fn lemma_encoded_len_update(s: Seq<Option<Seq<u8>>>, t: int, x: Option<Seq<u8>>)
    requires
        s.len() == 256,
        0 <= t < 256,
    ensures
        encoded_len(s.update(t, x)) == encoded_len(s) - slot_cost(s[t]) + slot_cost(x),
{
    lemma_cost_upto_update(s, t, x, 256);
}

proof fn lemma_cost_upto_vacant(i: int)
    ensures
        0 <= i <= 256 ==> cost_upto(vacant_slots(), i) == 0,
    decreases i,
{
    if 0 < i <= 256 {
        lemma_cost_upto_vacant(i - 1);
    }
}

/// An empty slot table encodes to the five header bytes alone.
pub proof fn lemma_encoded_len_vacant()
    ensures
        encoded_len(vacant_slots()) == 5,
{
    lemma_cost_upto_vacant(256);
}

/// The records of slots `0 .. i` take exactly `cost_upto(s, i)` bytes.
pub proof fn lemma_records_upto_len(s: Seq<Option<Seq<u8>>>, i: int)
    ensures
        records_upto(s, i).len() == cost_upto(s, i),
    decreases i,
{
    if i > 0 {
        lemma_records_upto_len(s, i - 1);
    }
}

/// Splitting the record stream at slot `i` changes nothing.
pub(crate) proof fn lemma_records_split(s: Seq<Option<Seq<u8>>>, i: int)
    requires
        0 <= i <= 256,
    ensures
        records_upto(s, i) + records_from(s, i) == records_from(s, 0),
    decreases i,
{
    if i == 0 {
        assert(Seq::<u8>::empty() + records_from(s, 0) =~= records_from(s, 0));
    } else {
        lemma_records_split(s, i - 1);
        assert((records_upto(s, i - 1) + slot_bytes(s, i - 1)) + records_from(s, i)
            =~= records_upto(s, i - 1) + (slot_bytes(s, i - 1) + records_from(s, i)));
    }
}

/// In a well-formed slot table every stored value fits its length field.
pub proof fn lemma_well_formed_values_fit(s: Seq<Option<Seq<u8>>>)
    requires
        slots_well_formed(s),
    ensures
        slot_values_fit(s, 0),
{
    assert forall|j: int| 0 <= j < s.len() implies match #[trigger] s[j] {
        Some(v) => v.len() <= u32::MAX,
        None => true,
    } by {
        lemma_cost_upto_nonneg(s, j);
        assert(cost_upto(s, j + 1) == cost_upto(s, j) + slot_cost(s[j]));
        lemma_cost_upto_mono(s, j + 1, 256);
    }
}

/// Consuming one complete record advances the scan by the record's length
/// and stores its value under its type byte.
pub(crate) proof fn lemma_scan_step(b: Seq<u8>, off: int, t: u8, v: Seq<u8>, acc: Seq<Option<Seq<u8>>>)
    requires
        0 <= off,
        off + 5 + v.len() <= b.len(),
        v.len() <= u32::MAX,
        b.subrange(off, off + 5 + v.len() as int) == record_bytes(t, v),
    ensures
        scan_fields(b, off, acc) == scan_fields(
            b,
            off + 5 + v.len() as int,
            acc.update(t as int, Some(v)),
        ),
{
    let l = v.len() as int;
    let rec = record_bytes(t, v);
    lemma_be32_round_trip(l);
    assert(rec.len() == 5 + l);
    assert(b[off] == t) by {
        assert(b.subrange(off, off + 5 + l)[0] == b[off]);
    }
    assert(b.subrange(off + 1, off + 5) =~= be32(l)) by {
        assert forall|k: int| 0 <= k < 4 implies b.subrange(off + 1, off + 5)[k] == be32(l)[k] by {
            assert(b.subrange(off, off + 5 + l)[k + 1] == b[off + k + 1]);
            assert(rec[k + 1] == be32(l)[k]);
        }
    }
    assert(b.subrange(off + 5, off + 5 + l) =~= v) by {
        assert forall|k: int| 0 <= k < l implies b.subrange(off + 5, off + 5 + l)[k] == v[k] by {
            assert(b.subrange(off, off + 5 + l)[k + 5] == b[off + 5 + k]);
            assert(rec[k + 5] == v[k]);
        }
    }
    assert(be32_val(b.subrange(off + 1, off + 5)) == l);
}

/// The slot table after scanning the records of slots `i ..` on top of an
/// already accumulated table: later slots take their values from `s`,
/// everything else keeps the accumulated value.
pub(crate) open spec fn merged(
    acc: Seq<Option<Seq<u8>>>,
    s: Seq<Option<Seq<u8>>>,
    i: int,
) -> Seq<Option<Seq<u8>>> {
    Seq::new(256, |t: int| if i <= t && s[t] is Some {
        s[t]
    } else {
        acc[t]
    })
}

/// Scanning exactly the records of slots `i ..` succeeds and fills in
/// those slots' values.
pub(crate) proof fn lemma_scan_records(
    b: Seq<u8>,
    off: int,
    s: Seq<Option<Seq<u8>>>,
    i: int,
    acc: Seq<Option<Seq<u8>>>,
)
    requires
        s.len() == 256,
        acc.len() == 256,
        0 <= i <= 256,
        0 <= off <= b.len(),
        b.subrange(off, b.len() as int) == records_from(s, i),
        slot_values_fit(s, i),
    ensures
        scan_fields(b, off, acc) == Some(merged(acc, s, i)),
    decreases 256 - i,
{
    if i == 256 {
        assert(b.len() - off == records_from(s, i).len());
        assert(merged(acc, s, 256) =~= acc);
    } else {
        match s[i] {
            None => {
                assert(records_from(s, i) == records_from(s, i + 1)) by {
                    assert(Seq::<u8>::empty() + records_from(s, i + 1) =~= records_from(s, i + 1));
                }
                assert(merged(acc, s, i) =~= merged(acc, s, i + 1));
                lemma_scan_records(b, off, s, i + 1, acc);
            },
            Some(v) => {
                let l = v.len() as int;
                let rec = record_bytes(i as u8, v);
                let rest = records_from(s, i + 1);
                assert(records_from(s, i) == rec + rest);
                assert(rec.len() == 5 + l);
                assert(b.len() - off == 5 + l + rest.len());
                assert(b.subrange(off, off + 5 + l) =~= rec) by {
                    assert forall|k: int| 0 <= k < 5 + l implies b.subrange(off, off + 5 + l)[k]
                        == rec[k] by {
                        assert(b.subrange(off, b.len() as int)[k] == b[off + k]);
                        assert((rec + rest)[k] == rec[k]);
                    }
                }
                lemma_scan_step(b, off, i as u8, v, acc);
                let acc2 = acc.update(i as int, Some(v));
                assert(b.subrange(off + 5 + l, b.len() as int) =~= rest) by {
                    assert forall|k: int| 0 <= k < rest.len() implies b.subrange(
                        off + 5 + l,
                        b.len() as int,
                    )[k] == rest[k] by {
                        assert(b.subrange(off, b.len() as int)[k + 5 + l] == b[off + 5 + l + k]);
                        assert((rec + rest)[k + 5 + l] == rest[k]);
                    }
                }
                lemma_scan_records(b, off + 5 + l, s, i + 1, acc2);
                assert(merged(acc2, s, i + 1) =~= merged(acc, s, i));
            },
        }
    }
}

/// Parsing the canonical encoding of any well-formed slot table yields
/// exactly the event type and slot table that were encoded: nothing is
/// lost or changed on the way through the wire form.
pub proof fn lemma_parse_of_message_bytes(ev: u8, s: Seq<Option<Seq<u8>>>)
    requires
        slots_well_formed(s),
    ensures
        parse_result(message_bytes(ev, s)) == Some((ev, s)),
{
    let b = message_bytes(ev, s);
    let n = encoded_len(s);
    lemma_cost_upto_nonneg(s, 256);
    lemma_be32_round_trip(n);
    lemma_records_upto_len(s, 256);
    assert(b.len() == n);
    assert(b.subrange(0, 4) =~= be32(n));
    assert(b[4] == ev);
    lemma_records_split(s, 256);
    assert(records_upto(s, 256) + records_from(s, 256) =~= records_upto(s, 256));
    assert(b.subrange(5, b.len() as int) =~= records_from(s, 0)) by {
        assert forall|k: int| 0 <= k < b.len() - 5 implies b.subrange(5, b.len() as int)[k]
            == records_from(s, 0)[k] by {
            assert(b[k + 5] == records_upto(s, 256)[k]);
        }
    }
    lemma_well_formed_values_fit(s);
    lemma_scan_records(b, 5, s, 0, vacant_slots());
    assert(merged(vacant_slots(), s, 0) =~= s);
}

/// The canonical encoding depends only on which value sits in which
/// slot, so two fields of different types may be added in either order
/// without changing a single output byte.
pub proof fn lemma_insertion_order_irrelevant(
    ev: u8,
    s: Seq<Option<Seq<u8>>>,
    t1: u8,
    v1: Seq<u8>,
    t2: u8,
    v2: Seq<u8>,
)
    requires
        s.len() == 256,
        t1 != t2,
    ensures
        message_bytes(ev, s.update(t1 as int, Some(v1)).update(t2 as int, Some(v2)))
            == message_bytes(ev, s.update(t2 as int, Some(v2)).update(t1 as int, Some(v1))),
{
    assert(s.update(t1 as int, Some(v1)).update(t2 as int, Some(v2)) =~= s.update(
        t2 as int,
        Some(v2),
    ).update(t1 as int, Some(v1)));
}

/// In a wire message holding two records with the same type byte, the
/// later record's value is the one the parser keeps.
pub proof fn lemma_duplicate_type_last_wins(ev: u8, t: u8, v1: Seq<u8>, v2: Seq<u8>)
    requires
        15 + v1.len() + v2.len() <= u32::MAX,
    ensures
        parse_result(
            be32(15 + v1.len() as int + v2.len() as int) + seq![ev] + record_bytes(t, v1)
                + record_bytes(t, v2),
        ) == Some((ev, vacant_slots().update(t as int, Some(v2)))),
{
    let n = 15 + v1.len() as int + v2.len() as int;
    let b = be32(n) + seq![ev] + record_bytes(t, v1) + record_bytes(t, v2);
    lemma_be32_round_trip(n);
    assert(b.len() == n);
    assert(b.subrange(0, 4) =~= be32(n));
    assert(b[4] == ev);
    let l1 = v1.len() as int;
    let l2 = v2.len() as int;
    assert(b.subrange(5, 10 + l1) =~= record_bytes(t, v1));
    lemma_scan_step(b, 5, t, v1, vacant_slots());
    let acc1 = vacant_slots().update(t as int, Some(v1));
    assert(b.subrange(10 + l1, 15 + l1 + l2) =~= record_bytes(t, v2));
    lemma_scan_step(b, 10 + l1, t, v2, acc1);
    let acc2 = acc1.update(t as int, Some(v2));
    assert(scan_fields(b, 15 + l1 + l2, acc2) == Some(acc2));
    assert(acc2 =~= vacant_slots().update(t as int, Some(v2)));
}

/// Append the four big-endian digits of `n` to `buf`.
pub(crate) fn push_be32(buf: &mut Vec<u8>, n: u32)
    ensures
        final(buf)@ == old(buf)@ + be32(n as int),
{
    buf.push((n / 0x1000000 % 0x100) as u8);
    buf.push((n / 0x10000 % 0x100) as u8);
    buf.push((n / 0x100 % 0x100) as u8);
    buf.push((n % 0x100) as u8);
    proof {
        assert(buf@ =~= old(buf)@ + be32(n as int));
    }
}

/// Read the four bytes at `off` as a big-endian u32.
pub(crate) fn read_be32(b: &Bytes, off: usize) -> (r: u32)
    requires
        off + 4 <= bytes_view(*b).len(),
        bytes_view(*b).len() <= usize::MAX,
    ensures
        r as int == be32_val(bytes_view(*b).subrange(off as int, off as int + 4)),
{
    let b0 = bytes_index(b, off);
    let b1 = bytes_index(b, off + 1);
    let b2 = bytes_index(b, off + 2);
    let b3 = bytes_index(b, off + 3);
    (b0 as u32) * 0x1000000 + (b1 as u32) * 0x10000 + (b2 as u32) * 0x100 + (b3 as u32)
}

/// Append all of `b`'s bytes to `buf`.
pub(crate) fn push_bytes(buf: &mut Vec<u8>, b: &Bytes)
    ensures
        final(buf)@ == old(buf)@ + bytes_view(*b),
{
    let n = crate::bytes_support::bytes_len(b);
    let mut j: usize = 0;
    while j < n
        invariant
            j <= n,
            n == bytes_view(*b).len(),
            buf@ == old(buf)@ + bytes_view(*b).subrange(0, j as int),
        decreases n - j,
    {
        buf.push(bytes_index(b, j));
        proof {
            assert(buf@ =~= old(buf)@ + bytes_view(*b).subrange(0, j as int + 1));
        }
        j += 1;
    }
    proof {
        assert(bytes_view(*b).subrange(0, n as int) =~= bytes_view(*b));
    }
}

} // verus!
