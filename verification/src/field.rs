use vstd::prelude::*;
use bytes::Bytes;
use crate::bytes_support::{bytes_as_slice, bytes_from_vec, bytes_index, bytes_len, bytes_view};
use crate::error::Error;
use crate::wire::{be32, push_be32, record_bytes};

verus! {

/// A field's one-byte semantic tag; inside a message it is also the
/// field's slot index.
pub type FieldType = u8;

/// One typed value blob: the atomic TLV encoding unit.
#[derive(Debug, Clone)]
pub struct Field {
    field_type: FieldType,
    value: Bytes,
}

impl Field {
    /// The field's tag.
    pub closed spec fn spec_type(self) -> u8 {
        self.field_type
    }

    /// The field's value bytes.
    pub closed spec fn spec_value(self) -> Seq<u8> {
        bytes_view(self.value)
    }

    pub fn new(field_type: FieldType, value: Bytes) -> (r: Field)
        ensures
            r.spec_type() == field_type,
            r.spec_value() == bytes_view(value),
    {
        Field { field_type, value }
    }

    pub fn field_type(&self) -> (r: &FieldType)
        ensures
            *r == self.spec_type(),
    {
        &self.field_type
    }

    /// A read-only view of the value bytes; no copy is made.
    pub fn value(&self) -> (r: &[u8])
        ensures
            r@ == self.spec_value(),
    {
        bytes_as_slice(&self.value)
    }

    /// Replace the value blob; the tag is untouched.
    pub fn update_value(&mut self, value: Bytes)
        ensures
            final(self).spec_type() == old(self).spec_type(),
            final(self).spec_value() == bytes_view(value),
    {
        self.value = value;
    }

    /// The field's encoded length: one type byte, four length bytes, then
    /// the value. Must stay in exact sync with `encode`'s output size.
    pub fn len(&self) -> (r: usize)
        requires
            self.spec_value().len() + 5 <= usize::MAX,
        ensures
            r == 5 + self.spec_value().len(),
    {
        bytes_len(&self.value) + 1 + 4
    }

    /// Serialize the field: the type byte, the value length as a
    /// big-endian u32, then the raw value bytes.
    pub fn encode(&self) -> (r: Result<Bytes, Error>)
        requires
            self.spec_value().len() <= u32::MAX,
            self.spec_value().len() + 5 <= usize::MAX,
        ensures
            r is Ok,
            bytes_view(r->Ok_0) == record_bytes(self.spec_type(), self.spec_value()),
    {
        let n = bytes_len(&self.value);
        let mut buffer: Vec<u8> = Vec::with_capacity(1 + 4 + n);

        // write the field type
        buffer.push(self.field_type);

        // write the value length (big endian)
        push_be32(&mut buffer, n as u32);

        // write the value
        let mut j: usize = 0;
        while j < n
            invariant
                j <= n,
                n == self.spec_value().len(),
                buffer@ == seq![self.spec_type()] + be32(n as int) + self.spec_value().subrange(
                    0,
                    j as int,
                ),
            decreases n - j,
        {
            buffer.push(bytes_index(&self.value, j));
            proof {
                assert(buffer@ =~= seq![self.spec_type()] + be32(n as int)
                    + self.spec_value().subrange(0, j as int + 1));
            }
            j += 1;
        }
        proof {
            assert(self.spec_value().subrange(0, n as int) =~= self.spec_value());
        }
        Ok(bytes_from_vec(buffer))
    }
}

} // verus!
