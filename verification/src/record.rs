//! The packed record: a fixed-size byte buffer holding every field of one
//! resolved schema, with read and write access per field.
//!
//! A record is created zero-initialized and mutated in place through
//! `set_field`; a setter touches only the bits of its own field, so fields
//! that share a byte never disturb one another.

use vstd::prelude::*;

verus! {

use vstd::arithmetic::div_mod::lemma_small_mod;
use vstd::arithmetic::power2::{lemma_pow2_pos, pow2};
use crate::bits::{field_val, lemma_field_val_congruence, nth_bit, read_bits, write_bits};
use crate::layout::Layout;

/// A byte buffer sized to one schema, owning every field of one record.
pub struct PackedRecord {
    data: Vec<u8>,
}

impl View for PackedRecord {
    type V = Seq<u8>;

    closed spec fn view(&self) -> Seq<u8> {
        self.data@
    }
}

impl PackedRecord {
    /// True when this record's buffer has the size the layout prescribes.
    pub open spec fn fits(&self, layout: Layout) -> bool {
        self@.len() == layout.total_bytes
    }

    /// The value stored in field `i` of the layout, as this record holds it.
    pub open spec fn spec_field(&self, layout: Layout, i: int) -> nat {
        field_val(self@, layout.spec_offset(i), layout.spec_width(i))
    }

    /// Creates a record for the given layout with every byte zero.
    pub fn new(layout: &Layout) -> (r: PackedRecord)
        ensures
            r.fits(*layout),
            forall|i: int| 0 <= i < r@.len() ==> r@[i] == 0,
    {
        let mut data: Vec<u8> = Vec::new();
        let mut i: usize = 0;
        while i < layout.total_bytes
            invariant
                i <= layout.total_bytes,
                data@.len() == i,
                forall|k: int| 0 <= k < i ==> data@[k] == 0,
            decreases layout.total_bytes - i,
        {
            data.push(0u8);
            i = i + 1;
        }
        PackedRecord { data }
    }

    /// The buffer size in bytes.
    pub fn num_bytes(&self) -> (r: usize)
        ensures
            r == self@.len(),
    {
        self.data.len()
    }

    /// One byte of the buffer.
    pub fn byte_at(&self, i: usize) -> (r: u8)
        requires
            i < self@.len(),
        ensures
            r == self@[i as int],
    {
        self.data[i]
    }

    /// Reads field `i`: returns the field's stored bits as an unsigned
    /// value, zero-extended. Reading never fails and reads only the
    /// field's own bits.
    pub fn get_field(&self, layout: &Layout, i: usize) -> (r: u64)
        requires
            layout.wf(),
            self.fits(*layout),
            i < layout.fields@.len(),
        ensures
            r as nat == self.spec_field(*layout, i as int),
            (r as nat) < pow2(layout.spec_width(i as int)),
    {
        proof {
            layout.lemma_field_in_range(i as int);
        }
        let f = &layout.fields[i];
        read_bits(&self.data, f.offset, f.width as usize)
    }

    /// Writes field `i`: stores the low `width` bits of `value` — the value
    /// reduced modulo `2^width` — into the field's bit range. Writing never
    /// fails; bits of `value` above the field's width are discarded, and
    /// every bit of the buffer outside the field, including bits of other
    /// fields sharing a byte with it, keeps its value.
    pub fn set_field(&mut self, layout: &Layout, i: usize, value: u64)
        requires
            layout.wf(),
            old(self).fits(*layout),
            i < layout.fields@.len(),
        ensures
            final(self).fits(*layout),
            final(self).spec_field(*layout, i as int) == (value as nat) % pow2(
                layout.spec_width(i as int),
            ),
            forall|j: int|
                0 <= j < layout.fields@.len() && j != i ==> final(self).spec_field(*layout, j)
                    == old(self).spec_field(*layout, j),
            forall|t: nat|
                t < 8 * old(self)@.len() && !(layout.spec_offset(i as int) <= t
                    < layout.spec_offset(i as int) + layout.spec_width(i as int)) ==> nth_bit(
                    final(self)@,
                    t,
                ) == nth_bit(old(self)@, t),
    {
        proof {
            layout.lemma_field_in_range(i as int);
        }
        let f = &layout.fields[i];
        write_bits(&mut self.data, f.offset, f.width as usize, value);
        proof {
            let dold = old(self)@;
            let dnew = self@;
            let off_i = layout.spec_offset(i as int);
            let w_i = layout.spec_width(i as int);
            assert forall|j: int| 0 <= j < layout.fields@.len() && j != i implies self.spec_field(
                *layout,
                j,
            ) == old(self).spec_field(*layout, j) by {
                layout.lemma_field_in_range(j);
                let off_j = layout.spec_offset(j);
                let w_j = layout.spec_width(j);
                if j < i {
                    layout.lemma_fields_disjoint(j, i as int);
                } else {
                    layout.lemma_fields_disjoint(i as int, j);
                }
                assert forall|t: nat| t < w_j implies #[trigger] nth_bit(dnew, off_j + t)
                    == nth_bit(dold, off_j + t) by {
                    assert(off_j + t < 8 * dold.len());
                    assert(!(off_i <= off_j + t < off_i + w_i));
                }
                lemma_field_val_congruence(dnew, dold, off_j, w_j);
            }
        }
    }
}

/// Round trip: a value below `2^width` written to a field is read back
/// unchanged. What `set_field` leaves in the field's bits — the value
/// modulo `2^width` — is the value itself, which is exactly what
/// `get_field` returns.
pub proof fn lemma_set_then_get(layout: Layout, after: Seq<u8>, i: int, value: u64)
    requires
        layout.wf(),
        0 <= i < layout.fields@.len(),
        (value as nat) < pow2(layout.spec_width(i)),
        field_val(after, layout.spec_offset(i), layout.spec_width(i)) == (value as nat) % pow2(
            layout.spec_width(i),
        ),
    ensures
        field_val(after, layout.spec_offset(i), layout.spec_width(i)) == value,
{
    lemma_pow2_pos(layout.spec_width(i));
    lemma_small_mod(value as nat, pow2(layout.spec_width(i)));
}

} // verus!
