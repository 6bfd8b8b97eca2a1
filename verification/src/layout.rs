//! The schema resolver: turns an ordered list of `(name, width)` pairs into
//! a validated layout with a bit offset for every field.
//!
//! Validation happens here, once, before any record exists: every width must
//! lie between 1 and 64 bits, and the widths must add up to a whole number
//! of bytes. Field storage is contiguous in declaration order, with no
//! padding and no overlap.

use vstd::prelude::*;

verus! {

use crate::widths::{dedup_first, marker_widths, WidthMarker};

/// A width is representable when it lies between one bit and one 64-bit word.
pub open spec fn valid_width(w: u8) -> bool {
    1 <= w <= 64
}

/// The sum of the first `i` widths of a schema: the bit offset at which
/// field `i` starts.
pub open spec fn sum_widths_prefix(ws: Seq<u8>, i: int) -> nat
    decreases i,
{
    if i <= 0 {
        0
    } else {
        sum_widths_prefix(ws, i - 1) + ws[i - 1] as nat
    }
}

/// The prefix sums of a width sequence never decrease.
pub proof fn lemma_sum_widths_prefix_monotone(ws: Seq<u8>, i: int, j: int)
    requires
        0 <= i <= j,
    ensures
        sum_widths_prefix(ws, i) <= sum_widths_prefix(ws, j),
    decreases j - i,
{
    if i < j {
        lemma_sum_widths_prefix_monotone(ws, i, j - 1);
    }
}

/// One resolved field: its name, its width in bits, and the global bit
/// offset of its least significant stored bit.
pub struct FieldSpec {
    pub name: String,
    pub width: u8,
    pub offset: usize,
}

/// Why a schema was rejected.
#[derive(Debug)]
pub enum SchemaError {
    /// A field's width lies outside 1 to 64 bits; carries the field's name
    /// and the offending width.
    InvalidWidth(String, u8),
    /// The widths do not add up to a whole number of bytes; carries the
    /// total number of bits.
    MisalignedTotal(usize),
}

/// The widths of a schema, in declaration order.
pub open spec fn schema_widths(fields: Seq<(String, u8)>) -> Seq<u8> {
    fields.map_values(|p: (String, u8)| p.1)
}

/// The total bit count of a schema.
pub open spec fn schema_total_bits(fields: Seq<(String, u8)>) -> nat {
    sum_widths_prefix(schema_widths(fields), fields.len() as int)
}

/// True when every width of the schema is representable.
pub open spec fn schema_widths_valid(fields: Seq<(String, u8)>) -> bool {
    forall|i: int| 0 <= i < fields.len() ==> valid_width(#[trigger] fields[i].1)
}

/// The index of the first field with an unrepresentable width, or -1 when
/// every width is representable.
pub open spec fn first_invalid_width(fields: Seq<(String, u8)>) -> int
    decreases fields.len(),
{
    if fields.len() == 0 {
        -1
    } else if !valid_width(fields[0].1) {
        0
    } else {
        let rest = first_invalid_width(fields.drop_first());
        if rest < 0 {
            -1
        } else {
            rest + 1
        }
    }
}

/// A forward scan that stops at the first bad width finds exactly
/// `first_invalid_width`.
proof fn lemma_first_invalid_width_at(fields: Seq<(String, u8)>, i: int)
    requires
        0 <= i < fields.len(),
        forall|j: int| 0 <= j < i ==> valid_width(#[trigger] fields[j].1),
        !valid_width(fields[i].1),
    ensures
        first_invalid_width(fields) == i,
    decreases i,
{
    if i == 0 {
    } else {
        assert(valid_width(fields[0].1));
        assert forall|j: int| 0 <= j < i - 1 implies valid_width(
            #[trigger] fields.drop_first()[j].1,
        ) by {
            assert(fields.drop_first()[j] == fields[j + 1]);
        }
        assert(fields.drop_first()[i - 1] == fields[i]);
        lemma_first_invalid_width_at(fields.drop_first(), i - 1);
    }
}

/// A resolved schema.
///
/// `fields` keeps the declaration order; `total_bytes` is the size of the
/// byte buffer every record of this schema occupies; `markers` carries one
/// tag per distinct width, in order of first appearance.
pub struct Layout {
    pub fields: Vec<FieldSpec>,
    pub total_bytes: usize,
    pub markers: Vec<WidthMarker>,
}

impl Layout {
    /// The widths of the resolved fields, in declaration order.
    pub open spec fn widths_seq(&self) -> Seq<u8> {
        self.fields@.map_values(|f: FieldSpec| f.width)
    }

    /// The total bit count of the resolved fields.
    pub open spec fn total_bits(&self) -> nat {
        sum_widths_prefix(self.widths_seq(), self.fields@.len() as int)
    }

    /// Well-formedness: every width is representable, every offset is the
    /// sum of the widths before it, the total is a whole number of bytes,
    /// and the markers list the distinct widths in order of first
    /// appearance.
    pub open spec fn wf(&self) -> bool {
        &&& forall|i: int|
            0 <= i < self.fields@.len() ==> valid_width(#[trigger] self.fields@[i].width)
        &&& forall|i: int|
            0 <= i < self.fields@.len() ==> (#[trigger] self.fields@[i].offset) as nat
                == sum_widths_prefix(self.widths_seq(), i)
        &&& self.total_bits() % 8 == 0
        &&& self.total_bytes as nat == self.total_bits() / 8
        &&& marker_widths(self.markers@) == dedup_first(self.widths_seq())
    }

    /// The bit offset of field `i`.
    pub open spec fn spec_offset(&self, i: int) -> nat {
        self.fields@[i].offset as nat
    }

    /// The bit width of field `i`.
    pub open spec fn spec_width(&self, i: int) -> nat {
        self.fields@[i].width as nat
    }

    /// Every field of a well-formed layout lies inside the buffer: its
    /// bits end at or before the total bit count.
    pub proof fn lemma_field_in_range(&self, i: int)
        requires
            self.wf(),
            0 <= i < self.fields@.len(),
        ensures
            self.spec_offset(i) + self.spec_width(i) <= self.total_bits(),
            self.total_bits() == 8 * self.total_bytes as nat,
    {
        let ws = self.widths_seq();
        assert(sum_widths_prefix(ws, i + 1) == sum_widths_prefix(ws, i) + ws[i] as nat);
        lemma_sum_widths_prefix_monotone(ws, i + 1, self.fields@.len() as int);
    }

    /// Two distinct fields of a well-formed layout occupy disjoint bit
    /// ranges; the earlier field ends at or before the later one starts.
    pub proof fn lemma_fields_disjoint(&self, i: int, j: int)
        requires
            self.wf(),
            0 <= i < self.fields@.len(),
            0 <= j < self.fields@.len(),
            i < j,
        ensures
            self.spec_offset(i) + self.spec_width(i) <= self.spec_offset(j),
    {
        let ws = self.widths_seq();
        assert(sum_widths_prefix(ws, i + 1) == sum_widths_prefix(ws, i) + ws[i] as nat);
        lemma_sum_widths_prefix_monotone(ws, i + 1, j);
    }
}

/// Two well-formed layouts whose schemas list the same names and widths in
/// the same order agree on every field offset and on the buffer size.
pub proof fn lemma_layout_deterministic(l1: Layout, l2: Layout)
    requires
        l1.wf(),
        l2.wf(),
        l1.fields@.len() == l2.fields@.len(),
        forall|i: int|
            0 <= i < l1.fields@.len() ==> (#[trigger] l1.fields@[i].name)@ == (
            #[trigger] l2.fields@[i].name)@,
        forall|i: int|
            0 <= i < l1.fields@.len() ==> (#[trigger] l1.fields@[i].width) == (
            #[trigger] l2.fields@[i].width),
    ensures
        forall|i: int|
            0 <= i < l1.fields@.len() ==> (#[trigger] l1.fields@[i].offset) == (
            #[trigger] l2.fields@[i].offset),
        l1.total_bytes == l2.total_bytes,
        l1.markers@ == l2.markers@,
{
    assert(l1.widths_seq() =~= l2.widths_seq());
    assert(l1.total_bits() == l2.total_bits());
    assert forall|i: int| 0 <= i < l1.fields@.len() implies (#[trigger] l1.fields@[i].offset) == (
    #[trigger] l2.fields@[i].offset) by {
        assert(l1.fields@[i].offset as nat == sum_widths_prefix(l1.widths_seq(), i));
        assert(l2.fields@[i].offset as nat == sum_widths_prefix(l2.widths_seq(), i));
    }
    assert(marker_widths(l1.markers@) == marker_widths(l2.markers@));
    assert(marker_widths(l1.markers@).len() == l1.markers@.len());
    assert(marker_widths(l2.markers@).len() == l2.markers@.len());
    assert forall|k: int| 0 <= k < l1.markers@.len() implies l1.markers@[k] == l2.markers@[k] by {
        assert(marker_widths(l1.markers@)[k] == l1.markers@[k].width);
        assert(marker_widths(l2.markers@)[k] == l2.markers@[k].width);
    }
    assert(l1.markers@ =~= l2.markers@);
}

/// Resolves a schema: validates every width, assigns each field the bit
/// offset at which it starts, and derives the buffer size and the width
/// marker registry.
///
/// The first field with a width outside 1 to 64 bits is reported as
/// `InvalidWidth` with its name; otherwise, when the widths do not add up
/// to a whole number of bytes, the total is reported as `MisalignedTotal`.
/// Resolution is a pure function of the schema: it reads nothing else.
pub fn resolve(fields: &Vec<(String, u8)>) -> (r: Result<Layout, SchemaError>)
    requires
        64 * fields@.len() <= usize::MAX,
    ensures
        r is Ok <==> schema_widths_valid(fields@) && schema_total_bits(fields@) % 8 == 0,
        r matches Ok(l) ==> {
            &&& l.wf()
            &&& l.fields@.len() == fields@.len()
            &&& forall|i: int|
                0 <= i < fields@.len() ==> (#[trigger] l.fields@[i]).name@ == fields@[i].0@
            &&& forall|i: int|
                0 <= i < fields@.len() ==> (#[trigger] l.fields@[i]).width == fields@[i].1
            &&& l.total_bytes as nat == schema_total_bits(fields@) / 8
        },
        r matches Err(SchemaError::InvalidWidth(nm, w)) ==> {
            let k = first_invalid_width(fields@);
            &&& !schema_widths_valid(fields@)
            &&& 0 <= k < fields@.len()
            &&& nm@ == fields@[k].0@
            &&& w == fields@[k].1
            &&& !valid_width(w)
        },
        r matches Err(SchemaError::MisalignedTotal(t)) ==> schema_widths_valid(fields@) && t as nat
            == schema_total_bits(fields@) && t as nat % 8 != 0,
{
    let mut specs: Vec<FieldSpec> = Vec::new();
    let mut offset: usize = 0;
    let mut i: usize = 0;
    while i < fields.len()
        invariant
            64 * fields@.len() <= usize::MAX,
            i <= fields@.len(),
            specs@.len() == i,
            forall|j: int| 0 <= j < i ==> valid_width(#[trigger] fields@[j].1),
            forall|j: int| 0 <= j < i ==> (#[trigger] specs@[j]).name@ == fields@[j].0@,
            forall|j: int| 0 <= j < i ==> (#[trigger] specs@[j]).width == fields@[j].1,
            forall|j: int|
                0 <= j < i ==> (#[trigger] specs@[j]).offset as nat == sum_widths_prefix(
                    schema_widths(fields@),
                    j,
                ),
            offset as nat == sum_widths_prefix(schema_widths(fields@), i as int),
            offset <= 64 * i,
        decreases fields@.len() - i,
    {
        let p: &(String, u8) = &fields[i];
        let name: String = p.0.clone();
        let w: u8 = p.1;
        if w < 1 || w > 64 {
            proof {
                lemma_first_invalid_width_at(fields@, i as int);
            }
            return Err(SchemaError::InvalidWidth(name, w));
        }
        proof {
            assert(schema_widths(fields@)[i as int] == w);
            assert(sum_widths_prefix(schema_widths(fields@), i as int + 1) == sum_widths_prefix(
                schema_widths(fields@),
                i as int,
            ) + w as nat);
        }
        specs.push(FieldSpec { name, width: w, offset });
        offset = offset + (w as usize);
        i = i + 1;
    }
    if offset % 8 != 0 {
        return Err(SchemaError::MisalignedTotal(offset));
    }
    let markers = crate::widths::width_markers(fields);
    let total_bytes: usize = offset / 8;
    let l = Layout { fields: specs, total_bytes, markers };
    proof {
        assert(l.widths_seq().len() == fields@.len());
        assert forall|j: int| 0 <= j < fields@.len() implies l.widths_seq()[j] == schema_widths(
            fields@,
        )[j] by {
            assert(l.widths_seq()[j] == l.fields@[j].width);
            assert(schema_widths(fields@)[j] == fields@[j].1);
        }
        assert(l.widths_seq() =~= schema_widths(fields@));
        assert(l.total_bits() == schema_total_bits(fields@));
    }
    Ok(l)
}

/// The smallest standard unsigned integer width able to hold a field's
/// value for external get and set calls: 8, 16, 32 or 64 bits. The stored
/// form still occupies exactly the field's width.
#[derive(Clone, Copy, Debug, PartialEq, Eq, Structural)]
pub enum RepresentationClass {
    R8,
    R16,
    R32,
    R64,
}

impl RepresentationClass {
    /// The number of bits of this class.
    pub open spec fn spec_bits(&self) -> u8 {
        match self {
            RepresentationClass::R8 => 8,
            RepresentationClass::R16 => 16,
            RepresentationClass::R32 => 32,
            RepresentationClass::R64 => 64,
        }
    }

    /// The number of bits of this class.
    pub fn bits(&self) -> (r: u8)
        ensures
            r == self.spec_bits(),
    {
        match self {
            RepresentationClass::R8 => 8,
            RepresentationClass::R16 => 16,
            RepresentationClass::R32 => 32,
            RepresentationClass::R64 => 64,
        }
    }
}

/// The representation class of a representable width: the smallest class
/// whose bit count is at least the width.
pub open spec fn spec_class_of(w: u8) -> RepresentationClass {
    if w <= 8 {
        RepresentationClass::R8
    } else if w <= 16 {
        RepresentationClass::R16
    } else if w <= 32 {
        RepresentationClass::R32
    } else {
        RepresentationClass::R64
    }
}

/// The representation class of a width, or nothing when the width is not
/// representable (zero, or above 64 bits).
pub fn representation_class(width: u8) -> (r: Option<RepresentationClass>)
    ensures
        r is Some <==> valid_width(width),
        r matches Some(c) ==> c == spec_class_of(width) && width <= c.spec_bits(),
{
    if width == 0 {
        None
    } else if width <= 8 {
        Some(RepresentationClass::R8)
    } else if width <= 16 {
        Some(RepresentationClass::R16)
    } else if width <= 32 {
        Some(RepresentationClass::R32)
    } else if width <= 64 {
        Some(RepresentationClass::R64)
    } else {
        None
    }
}

/// Chooses the name of the unsigned integer type a caller uses to pass a
/// field of `size` bits in and out of a record: the smallest of `u8`,
/// `u16`, `u32` and `u64` that holds the field losslessly.
pub fn get_function_param_ty(size: u8) -> (r: Result<String, String>)
    ensures
        1 <= size <= 8 ==> (r matches Ok(s) && s@ == "u8"@),
        9 <= size <= 16 ==> (r matches Ok(s) && s@ == "u16"@),
        17 <= size <= 32 ==> (r matches Ok(s) && s@ == "u32"@),
        33 <= size <= 64 ==> (r matches Ok(s) && s@ == "u64"@),
        !valid_width(size) ==> (r matches Err(m) && m@ == "field size must between 1 to 64 "@),
        r is Ok <==> valid_width(size),
{
    if 1 <= size && size <= 8 {
        Ok("u8".to_string())
    } else if 9 <= size && size <= 16 {
        Ok("u16".to_string())
    } else if 17 <= size && size <= 32 {
        Ok("u32".to_string())
    } else if 33 <= size && size <= 64 {
        Ok("u64".to_string())
    } else {
        Err("field size must between 1 to 64 ".to_string())
    }
}

} // verus!
