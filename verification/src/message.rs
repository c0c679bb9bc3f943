use vstd::prelude::*;
use bytes::Bytes;
use crate::bytes_support::{bytes_from_vec, bytes_index, bytes_len, bytes_new, bytes_slice, bytes_view};
use crate::error::{Error, ErrorCode};
use crate::field::{Field, FieldType};
use crate::wire::{
    be32, be32_val, cost_upto, encoded_len, lemma_cost_upto_mono, lemma_cost_upto_nonneg,
    lemma_encoded_len_update, lemma_encoded_len_vacant, lemma_parse_of_message_bytes,
    message_bytes, parse_result, push_be32, push_bytes, read_be32, records_upto, scan_fields,
    slot_cost, vacant_slots,
};

verus! {

/// A message's one-byte semantic tag.
pub type EventType = u8;

/// The slot table's wire-level contents: the value bytes of every
/// occupied slot, indexed by field type.
pub open spec fn table_slots(t: Seq<Option<Field>>) -> Seq<Option<Seq<u8>>> {
    Seq::new(256, |i: int| match t[i] {
        Some(f) => Some(f.spec_value()),
        None => None::<Seq<u8>>,
    })
}

/// The TLV message container: an event type, at most one field per
/// possible field-type byte, and a lazily cached encoding that every
/// mutation invalidates.
#[derive(Debug, Clone)]
pub struct Message {
    raw_data: Bytes,
    pub event_type: EventType,
    fields: Vec<Option<Field>>,
}

impl Message {
    /// The field table as it looks on the wire.
    pub closed spec fn slots(self) -> Seq<Option<Seq<u8>>> {
        table_slots(self.fields@)
    }

    /// The message's event-type byte.
    pub closed spec fn spec_event_type(self) -> u8 {
        self.event_type
    }

    /// The cached encoding's bytes; empty whenever the cache is invalid.
    pub closed spec fn cache(self) -> Seq<u8> {
        bytes_view(self.raw_data)
    }

    /// Structural soundness: 256 slots, each field stored under its own
    /// type byte, and a cache that, when present, parses back to exactly
    /// the live event type and field table.
    pub closed spec fn wf(self) -> bool {
        &&& self.fields@.len() == 256
        &&& forall|i: int|
            0 <= i < 256 ==> match #[trigger] self.fields@[i] {
                Some(f) => f.spec_type() == i as u8,
                None => true,
            }
        &&& (self.cache().len() == 0 || parse_result(self.cache()) == Some(
            (self.event_type, self.slots()),
        ))
    }

    pub fn new(event_type: EventType) -> (r: Message)
        ensures
            r.wf(),
            r.spec_event_type() == event_type,
            r.slots() == vacant_slots(),
            r.cache().len() == 0,
    {
        let m = Message { raw_data: bytes_new(), event_type, fields: vacant_table() };
        proof {
            assert(m.slots() =~= vacant_slots());
        }
        m
    }

    /// Parse one complete wire message. Succeeds exactly when the buffer
    /// holds at least the five header bytes and its four-byte length
    /// prefix equals the buffer's exact length and no field record claims
    /// more value bytes than remain; every failure is a `Malformed`
    /// error. On success the parsed message keeps the input buffer as its
    /// encode cache.
    pub fn parse(raw: Bytes) -> (r: Result<Message, Error>)
        ensures
            match r {
                Ok(m) => {
                    &&& m.wf()
                    &&& parse_result(bytes_view(raw)) == Some((m.spec_event_type(), m.slots()))
                    &&& m.cache() == bytes_view(raw)
                    &&& be32_val(bytes_view(raw).subrange(0, 4)) == bytes_view(raw).len()
                    &&& encoded_len(m.slots()) <= bytes_view(raw).len() <= u32::MAX
                },
                Err(e) => {
                    &&& parse_result(bytes_view(raw)) is None
                    &&& e.spec_code() is Malformed
                },
            },
    {
        let raw_len = bytes_len(&raw);
        if raw_len < 5 {
            return Err(
                Error::new(ErrorCode::Malformed, "Not enough data for TLV header".to_string()),
            );
        }
        // The declared message length must match the actual length exactly.
        let declared_length = read_be32(&raw, 0) as usize;
        if declared_length != raw_len {
            return Err(
                Error::new(
                    ErrorCode::Malformed,
                    "Malformed tlv field: Declared length doesn't match actual length".to_string(),
                ),
            );
        }
        let event_type = bytes_index(&raw, 4);
        let mut fields = vacant_table();
        proof {
            assert(table_slots(fields@) =~= vacant_slots());
            lemma_encoded_len_vacant();
        }
        let mut offset: usize = 5;
        while offset <= raw_len - 5
            invariant
                raw_len == bytes_view(raw).len(),
                5 <= raw_len <= u32::MAX,
                5 <= offset <= raw_len,
                fields@.len() == 256,
                forall|i: int|
                    0 <= i < 256 ==> match #[trigger] fields@[i] {
                        Some(f) => f.spec_type() == i as u8,
                        None => true,
                    },
                scan_fields(bytes_view(raw), 5, vacant_slots()) == scan_fields(
                    bytes_view(raw),
                    offset as int,
                    table_slots(fields@),
                ),
                encoded_len(table_slots(fields@)) <= offset as int,
            decreases raw_len - offset,
        {
            let field_typ = bytes_index(&raw, offset);
            let length = read_be32(&raw, offset + 1) as usize;
            if length > raw_len - (offset + 5) {
                // A field claiming more value bytes than exist.
                return Err(
                    Error::new(ErrorCode::Malformed, "Not enough data for field value".to_string()),
                );
            }
            let value = bytes_slice(&raw, offset + 5, offset + 5 + length);
            let ghost prev = table_slots(fields@);
            fields[field_typ as usize] = Some(Field::new(field_typ, value));
            proof {
                assert(table_slots(fields@) =~= prev.update(
                    field_typ as int,
                    Some(
                        bytes_view(raw).subrange(
                            offset as int + 5,
                            offset as int + 5 + length as int,
                        ),
                    ),
                ));
                lemma_encoded_len_update(
                    prev,
                    field_typ as int,
                    Some(
                        bytes_view(raw).subrange(
                            offset as int + 5,
                            offset as int + 5 + length as int,
                        ),
                    ),
                );
            }
            offset = offset + 5 + length;
        }
        let m = Message { raw_data: raw, event_type, fields };
        Ok(m)
    }

    /// Read-only lookup; always reflects the live table, never the cache.
    pub fn get_field(&self, field_type: &FieldType) -> (r: Option<&Field>)
        requires
            self.wf(),
        ensures
            match r {
                Some(f) => {
                    &&& self.slots()[*field_type as int] == Some(f.spec_value())
                    &&& f.spec_type() == *field_type
                },
                None => self.slots()[*field_type as int] is None,
            },
    {
        self.fields[*field_type as usize].as_ref()
    }

    /// Insert or overwrite the slot for `field_type`; the cache is
    /// invalidated unconditionally.
    pub fn add_field(&mut self, field_type: FieldType, value: Bytes)
        requires
            old(self).wf(),
        ensures
            final(self).wf(),
            final(self).spec_event_type() == old(self).spec_event_type(),
            final(self).slots() == old(self).slots().update(
                field_type as int,
                Some(bytes_view(value)),
            ),
            final(self).cache().len() == 0,
    {
        self.fields[field_type as usize] = Some(Field::new(field_type, value));
        self.raw_data = bytes_new();
        proof {
            assert(self.slots() =~= old(self).slots().update(
                field_type as int,
                Some(bytes_view(value)),
            ));
        }
    }

    /// Builder-style variant of `add_field`: same effect, returns the
    /// mutated message for chaining.
    pub fn with_field(self, field_type: FieldType, value: Bytes) -> (r: Message)
        requires
            self.wf(),
        ensures
            r.wf(),
            r.spec_event_type() == self.spec_event_type(),
            r.slots() == self.slots().update(field_type as int, Some(bytes_view(value))),
            r.cache().len() == 0,
    {
        let mut m = self;
        m.add_field(field_type, value);
        m
    }

    /// Clear the slot for `field_type`; reports whether a field was
    /// present. The cache is invalidated whether or not one was.
    pub fn remove_field(&mut self, field_type: FieldType) -> (r: bool)
        requires
            old(self).wf(),
        ensures
            final(self).wf(),
            final(self).spec_event_type() == old(self).spec_event_type(),
            final(self).slots() == old(self).slots().update(field_type as int, None::<Seq<u8>>),
            final(self).cache().len() == 0,
            r == (old(self).slots()[field_type as int] is Some),
    {
        let had_field = self.fields[field_type as usize].is_some();
        self.fields[field_type as usize] = None;
        self.raw_data = bytes_new();
        proof {
            assert(self.slots() =~= old(self).slots().update(field_type as int, None::<Seq<u8>>));
        }
        had_field
    }

    /// Serialize the message: the total length (including these four
    /// bytes) as a big-endian u32, the event type, then every present
    /// field's record in ascending field-type order. A valid cache is
    /// returned unchanged; otherwise the encoding is rebuilt and cached.
    pub fn encode(&mut self) -> (r: Result<Bytes, Error>)
        requires
            old(self).wf(),
            encoded_len(old(self).slots()) <= u32::MAX,
        ensures
            final(self).wf(),
            final(self).spec_event_type() == old(self).spec_event_type(),
            final(self).slots() == old(self).slots(),
            r is Ok,
            bytes_view(r->Ok_0) == final(self).cache(),
            final(self).cache().len() != 0,
            old(self).cache().len() == 0 ==> bytes_view(r->Ok_0) == message_bytes(
                old(self).spec_event_type(),
                old(self).slots(),
            ),
            old(self).cache().len() != 0 ==> bytes_view(r->Ok_0) == old(self).cache(),
            parse_result(bytes_view(r->Ok_0)) == Some((old(self).spec_event_type(), old(self).slots())),
    {
        // Only rebuild the encoding if the cache has been invalidated.
        if bytes_len(&self.raw_data) != 0 {
            return Ok(self.raw_data.clone());
        }
        let ghost s = self.slots();
        let ghost ev = self.event_type;

        // Total length: 4 length bytes + 1 event-type byte + all records.
        let mut total: usize = 5;
        let mut i: usize = 0;
        while i < 256
            invariant
                *self == *old(self),
                self.wf(),
                s == self.slots(),
                encoded_len(s) <= u32::MAX,
                i <= 256,
                total == 5 + cost_upto(s, i as int),
            decreases 256 - i,
        {
            proof {
                lemma_cost_upto_nonneg(s, i as int);
                assert(cost_upto(s, i as int + 1) == cost_upto(s, i as int) + slot_cost(
                    s[i as int],
                ));
                lemma_cost_upto_mono(s, i as int + 1, 256);
            }
            match &self.fields[i] {
                Some(field) => {
                    total = total + field.len();
                },
                None => {},
            }
            i += 1;
        }
        proof {
            lemma_cost_upto_nonneg(s, 256);
        }

        let mut buffer: Vec<u8> = Vec::with_capacity(total);

        // 1. the total length (including the event type and all fields)
        push_be32(&mut buffer, total as u32);

        // 2. the event type
        buffer.push(self.event_type);

        // 3. every present field's record, in ascending type order
        let mut i: usize = 0;
        while i < 256
            invariant
                *self == *old(self),
                self.wf(),
                s == self.slots(),
                ev == self.event_type,
                encoded_len(s) <= u32::MAX,
                total == encoded_len(s),
                i <= 256,
                buffer@ == be32(total as int) + seq![ev] + records_upto(s, i as int),
            decreases 256 - i,
        {
            proof {
                lemma_cost_upto_nonneg(s, i as int);
                assert(cost_upto(s, i as int + 1) == cost_upto(s, i as int) + slot_cost(
                    s[i as int],
                ));
                lemma_cost_upto_mono(s, i as int + 1, 256);
            }
            match &self.fields[i] {
                Some(field) => {
                    let encoded = field.encode()?;
                    push_bytes(&mut buffer, &encoded);
                },
                None => {},
            }
            proof {
                assert(buffer@ =~= be32(total as int) + seq![ev] + records_upto(s, i as int + 1));
            }
            i += 1;
        }
        proof {
            assert(buffer@ == message_bytes(ev, s));
            lemma_parse_of_message_bytes(ev, s);
        }

        let encoded = bytes_from_vec(buffer);
        self.raw_data = encoded.clone();
        Ok(encoded)
    }
}

/// A 256-entry field table with every slot empty.
fn vacant_table() -> (r: Vec<Option<Field>>)
    ensures
        r@.len() == 256,
        forall|j: int| 0 <= j < 256 ==> (#[trigger] r@[j]) is None,
{
    let mut fields: Vec<Option<Field>> = Vec::with_capacity(256);
    let mut i: usize = 0;
    while i < 256
        invariant
            i <= 256,
            fields@.len() == i,
            forall|j: int| 0 <= j < i ==> (#[trigger] fields@[j]) is None,
        decreases 256 - i,
    {
        fields.push(None);
        i += 1;
    }
    fields
}

} // verus!
