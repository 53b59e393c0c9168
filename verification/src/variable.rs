use vstd::prelude::*;
use crate::bytes::{
    byte_range, le_bytes, le_bytes_of, le_value, lemma_byte_range_monotonic, lemma_byte_range_step,
    lemma_byte_range_values, lemma_le_bytes_len,
};
use crate::copy::{copy_into, fill_zero};
use crate::error::DataLayoutError;
use crate::implicit::{unique_subset_sums, length_table, lemma_table_unique, subset_sum, table_ok, table_view, total_size};
use crate::decode::{
    check_slot, decoded_field, lemma_validate_slot_end, lemma_validate_truncate, lemma_validate_walk,
    present_covers, slot_end_of, slot_read, slot_start, validate_from, FieldRead,
};
use crate::residue::{alignment_check_from, check_alignment};
use crate::schema::{
    lemma_first_decl_error_kind, lemma_option_count_bound,
    is_first_vec,
    fields_of, lemma_implicit_count, lemma_implicit_sizes_step, lemma_option_count_step,
    lemma_take_full, option_count, first_decl_error, decl_error, field_of, structure_error, structure_ok, FieldDecl,
    SchemaError,
};
use crate::value::{flatten, items_view, lemma_flatten_len, payload_ok, values_view, FieldData, FieldValue, ValueKind};

verus! {

/// How an `Option<T>` field of a variable-offset layout is encoded.
#[derive(Clone, Copy, Debug, PartialEq, Eq, Structural)]
pub enum OptionalKind {
    /// Not an option.
    No,
    /// One tag byte (`0` or `1`) followed, when present, by the payload.
    Tagged,
    /// No tag: presence is inferred from the total encoded length. The index
    /// numbers the implicit options of the layout in order.
    Implicit(usize),
}

/// The layout of one field of a variable-offset layout.
#[derive(Clone, Copy, Debug, PartialEq, Eq, Structural)]
pub enum FieldLayout {
    Value { value: ValueKind, optional: OptionalKind },
    /// A `Vec<T>` whose element count is stored in `len_width` little-endian
    /// bytes before the elements.
    Vec { elem: ValueKind, len_width: usize },
}

/// The most elements a `Vec` field with a `len_width`-byte header may hold.
/// An 8-byte header is still capped at `u32::MAX` elements.
pub open spec fn capacity(len_width: nat) -> nat {
    if len_width == 8 {
        0xFFFF_FFFF
    } else {
        (byte_range(len_width) - 1) as nat
    }
}

/// The largest number of bytes the slot of a field can take.
pub open spec fn slot_max_len(f: FieldLayout) -> nat {
    match f {
        FieldLayout::Value { value, optional } => match optional {
            OptionalKind::Tagged => 1 + value.spec_size(),
            _ => value.spec_size(),
        },
        FieldLayout::Vec { elem, len_width } => len_width as nat + elem.spec_size() * capacity(
            len_width as nat,
        ),
    }
}

/// The smallest number of bytes the slot of a field can take.
pub open spec fn slot_min_len(f: FieldLayout) -> nat {
    match f {
        FieldLayout::Value { value, optional } => match optional {
            OptionalKind::No => value.spec_size(),
            OptionalKind::Tagged => 1,
            OptionalKind::Implicit(_) => 0,
        },
        FieldLayout::Vec { len_width, .. } => len_width as nat,
    }
}

pub open spec fn max_len(fields: Seq<FieldLayout>) -> nat
    decreases fields.len(),
{
    if fields.len() == 0 {
        0
    } else {
        max_len(fields.drop_last()) + slot_max_len(fields.last())
    }
}

pub open spec fn min_len(fields: Seq<FieldLayout>) -> nat
    decreases fields.len(),
{
    if fields.len() == 0 {
        0
    } else {
        min_len(fields.drop_last()) + slot_min_len(fields.last())
    }
}

pub open spec fn field_wf(f: FieldLayout) -> bool {
    match f {
        FieldLayout::Value { value, .. } => value.wf(),
        FieldLayout::Vec { elem, len_width } => elem.wf() && !(elem is Bool) && 1 <= len_width
            <= 8,
    }
}

/// Whether `d` has the shape of a value of field `f`, with payloads of the
/// right size.
pub open spec fn data_shape_ok(f: FieldLayout, d: FieldData) -> bool {
    match f {
        FieldLayout::Value { value, optional } => match optional {
            OptionalKind::No => d matches FieldData::Value(p) && payload_ok(value, p),
            _ => d matches FieldData::Optional(o) && (o matches Some(p) ==> payload_ok(value, p)),
        },
        FieldLayout::Vec { elem, .. } => d matches FieldData::Items(items) && forall|i: int|
            0 <= i < items.len() ==> payload_ok(elem, #[trigger] items[i]),
    }
}

/// Whether a `Vec` value respects the capacity of its length header.
pub open spec fn data_fits(f: FieldLayout, d: FieldData) -> bool {
    match (f, d) {
        (FieldLayout::Vec { len_width, .. }, FieldData::Items(items)) => items.len() <= capacity(
            len_width as nat,
        ),
        _ => true,
    }
}

pub open spec fn shapes_ok(fields: Seq<FieldLayout>, data: Seq<FieldData>) -> bool {
    &&& data.len() == fields.len()
    &&& forall|i: int| 0 <= i < fields.len() ==> data_shape_ok(fields[i], data[i])
}

/// Whether every `Vec` value has at most `usize::MAX` elements, as every
/// `Vec` in memory has.
pub open spec fn counts_fit(fields: Seq<FieldLayout>, data: Seq<FieldData>) -> bool {
    forall|i: int|
        0 <= i < fields.len() ==> (#[trigger] data[i] matches FieldData::Items(items) ==> items.len()
            <= usize::MAX)
}

pub open spec fn all_fit(fields: Seq<FieldLayout>, data: Seq<FieldData>) -> bool {
    forall|i: int| 0 <= i < fields.len() ==> data_fits(fields[i], data[i])
}

/// The bytes of one field's slot.
pub open spec fn slot_encoding(f: FieldLayout, d: FieldData) -> Seq<u8> {
    match (f, d) {
        (FieldLayout::Value { optional: OptionalKind::No, .. }, FieldData::Value(p)) => p,
        (FieldLayout::Value { optional: OptionalKind::Tagged, .. }, FieldData::Optional(o)) => {
            match o {
                Some(p) => seq![1u8] + p,
                None => seq![0u8],
            }
        },
        (FieldLayout::Value { optional: OptionalKind::Implicit(_), .. }, FieldData::Optional(o)) => {
            match o {
                Some(p) => p,
                None => Seq::empty(),
            }
        },
        (FieldLayout::Vec { len_width, .. }, FieldData::Items(items)) => le_bytes(
            items.len(),
            len_width as nat,
        ) + flatten(items),
        _ => Seq::empty(),
    }
}

/// The encoding of a record: the slots of its fields, in order, with no padding.
pub open spec fn encoding(fields: Seq<FieldLayout>, data: Seq<FieldData>) -> Seq<u8>
    decreases fields.len(),
{
    if fields.len() == 0 {
        Seq::empty()
    } else {
        encoding(fields.drop_last(), data.take(fields.len() - 1)) + slot_encoding(
            fields.last(),
            data[fields.len() - 1],
        )
    }
}

pub proof fn lemma_slot_len(f: FieldLayout, d: FieldData)
    requires
        data_shape_ok(f, d),
        data_fits(f, d),
    ensures
        slot_min_len(f) <= slot_encoding(f, d).len() <= slot_max_len(f),
{
    match (f, d) {
        (FieldLayout::Vec { elem, len_width }, FieldData::Items(items)) => {
            lemma_le_bytes_len(items.len(), len_width as nat);
            lemma_flatten_len(items, elem.spec_size());
            let c = capacity(len_width as nat);
            assert(items.len() * elem.spec_size() <= c * elem.spec_size()) by (nonlinear_arith)
                requires
                    items.len() <= c,
            ;
            assert(items.len() * elem.spec_size() == elem.spec_size() * items.len()) by (nonlinear_arith);
            assert(c * elem.spec_size() == elem.spec_size() * c) by (nonlinear_arith);
        },
        _ => {},
    }
}

/// An encoding of values that fit is no longer than the largest encoding.
pub proof fn lemma_encoding_max(fields: Seq<FieldLayout>, data: Seq<FieldData>)
    requires
        shapes_ok(fields, data),
        all_fit(fields, data),
    ensures
        encoding(fields, data).len() <= max_len(fields),
    decreases fields.len(),
{
    if fields.len() > 0 {
        let n = fields.len() - 1;
        let f2 = fields.drop_last();
        let d2 = data.take(n);
        assert forall|i: int| 0 <= i < f2.len() implies data_shape_ok(f2[i], d2[i]) && data_fits(
            f2[i],
            d2[i],
        ) by {
            assert(data_shape_ok(fields[i], data[i]));
            assert(data_fits(fields[i], data[i]));
        }
        lemma_encoding_max(f2, d2);
        assert(data_shape_ok(fields[n], data[n]));
        assert(data_fits(fields[n], data[n]));
        lemma_slot_len(fields.last(), data[n]);
    }
}

pub proof fn lemma_max_len_prefix(fields: Seq<FieldLayout>, i: int)
    requires
        0 <= i <= fields.len(),
    ensures
        max_len(fields.take(i)) <= max_len(fields),
        min_len(fields.take(i)) <= min_len(fields),
    decreases fields.len() - i,
{
    if i < fields.len() {
        lemma_max_len_prefix(fields, i + 1);
        assert(fields.take(i + 1).drop_last() =~= fields.take(i));
    } else {
        assert(fields.take(i) =~= fields);
    }
}

pub proof fn lemma_encoding_step(fields: Seq<FieldLayout>, data: Seq<FieldData>, i: int)
    requires
        0 <= i < fields.len(),
        data.len() == fields.len(),
    ensures
        encoding(fields.take(i + 1), data.take(i + 1)) == encoding(fields.take(i), data.take(i))
            + slot_encoding(fields[i], data[i]),
        max_len(fields.take(i + 1)) == max_len(fields.take(i)) + slot_max_len(fields[i]),
        min_len(fields.take(i + 1)) == min_len(fields.take(i)) + slot_min_len(fields[i]),
{
    assert(fields.take(i + 1).drop_last() =~= fields.take(i));
    assert(data.take(i + 1).take(i) =~= data.take(i));
}

pub proof fn lemma_encoding_step_fields(fields: Seq<FieldLayout>, i: int)
    requires
        0 <= i < fields.len(),
    ensures
        max_len(fields.take(i + 1)) == max_len(fields.take(i)) + slot_max_len(fields[i]),
        min_len(fields.take(i + 1)) == min_len(fields.take(i)) + slot_min_len(fields[i]),
{
    assert(fields.take(i + 1).drop_last() =~= fields.take(i));
}

pub proof fn lemma_encoding_full(fields: Seq<FieldLayout>, data: Seq<FieldData>)
    requires
        data.len() == fields.len(),
    ensures
        encoding(fields.take(fields.len() as int), data.take(fields.len() as int)) == encoding(
            fields,
            data,
        ),
{
    assert(fields.take(fields.len() as int) =~= fields);
    assert(data.take(fields.len() as int) =~= data);
}

/// The payload sizes of the implicit options, in order.
pub open spec fn implicit_sizes(fields: Seq<FieldLayout>) -> Seq<nat>
    decreases fields.len(),
{
    if fields.len() == 0 {
        Seq::empty()
    } else {
        let prev = implicit_sizes(fields.drop_last());
        match fields.last() {
            FieldLayout::Value { value, optional: OptionalKind::Implicit(_) } => prev.push(
                value.spec_size(),
            ),
            _ => prev,
        }
    }
}

/// Whether each implicit option is numbered by the count of implicit options
/// before it.
pub open spec fn bits_ok(fields: Seq<FieldLayout>) -> bool {
    forall|i: int|
        0 <= i < fields.len() ==> match #[trigger] fields[i] {
            FieldLayout::Value { optional: OptionalKind::Implicit(bit), .. } => bit
                == implicit_sizes(fields.take(i)).len(),
            _ => true,
        }
}

/// The kind of option every `Option<T>` field of the layout uses.
pub open spec fn options_match(fields: Seq<FieldLayout>, e: OptionEncoding) -> bool {
    forall|i: int|
        0 <= i < fields.len() ==> match #[trigger] fields[i] {
            FieldLayout::Value { optional: OptionalKind::Tagged, .. } => e == OptionEncoding::Tagged,
            FieldLayout::Value { optional: OptionalKind::Implicit(_), .. } => e
                == OptionEncoding::Implicit,
            _ => true,
        }
}

/// The structural invariant of an accepted layout.
pub open spec fn fields_wf(l: LayoutSpec) -> bool {
    &&& forall|i: int| 0 <= i < l.fields.len() ==> field_wf(#[trigger] l.fields[i])
    &&& max_len(l.fields) <= usize::MAX
    &&& bits_ok(l.fields)
    &&& options_match(l.fields, l.option_encoding)
    &&& l.option_encoding == OptionEncoding::Implicit ==> forall|i: int|
        0 <= i < l.fields.len() ==> !(#[trigger] l.fields[i] is Vec)
    &&& l.buffer_offset matches BufferOffset::Fixed(b) ==> b < 8
}

/// Where a layout expects its input slice to start, relative to an 8-byte
/// aligned base address.
#[derive(Clone, Copy, Debug, PartialEq, Eq, Structural)]
pub enum BufferOffset {
    /// The slice starts this many bytes (0..=7) past an 8-byte aligned address.
    Fixed(usize),
    /// The slice may start anywhere.
    Unaligned,
}

/// How the `Option<T>` fields of a layout are encoded.
#[derive(Clone, Copy, Debug, PartialEq, Eq, Structural)]
pub enum OptionEncoding {
    Tagged,
    Implicit,
}

/// The abstract content of a variable-offset layout.
pub struct LayoutSpec {
    pub fields: Seq<FieldLayout>,
    pub buffer_offset: BufferOffset,
    pub option_encoding: OptionEncoding,
}

/// A variable-offset layout: fields are stored one after another with no
/// padding, so the offset of a field depends on the sizes of the optional and
/// `Vec` fields before it.
#[derive(Debug)]
pub struct VariableLayout {
    fields: Vec<FieldLayout>,
    buffer_offset: BufferOffset,
    option_encoding: OptionEncoding,
    /// For implicit options: every valid encoded length with the presence of
    /// each option at that length.
    lengths: Vec<(usize, Vec<bool>)>,
}

impl View for VariableLayout {
    type V = LayoutSpec;

    closed spec fn view(&self) -> LayoutSpec {
        LayoutSpec {
            fields: self.fields@,
            buffer_offset: self.buffer_offset,
            option_encoding: self.option_encoding,
        }
    }
}

impl VariableLayout {
    /// The invariant of a layout that `new` accepted.
    pub closed spec fn wf(&self) -> bool {
        &&& fields_wf(self@)
        &&& self.option_encoding == OptionEncoding::Implicit ==> table_ok(
            table_view(self.lengths@),
            implicit_sizes(self@.fields),
            implicit_sizes(self@.fields).len(),
            min_len(self@.fields),
        )
    }

    pub proof fn lemma_wf(&self)
        requires
            self.wf(),
        ensures
            fields_wf(self@),
            self@.option_encoding == OptionEncoding::Implicit ==> unique_subset_sums(
                implicit_sizes(self@.fields),
                implicit_sizes(self@.fields).len(),
            ),
    {
        if self@.option_encoding == OptionEncoding::Implicit {
            lemma_table_unique(
                table_view(self.lengths@),
                implicit_sizes(self@.fields),
                implicit_sizes(self@.fields).len(),
                min_len(self@.fields),
            );
        }
    }

    /// The fields of this layout.
    pub fn fields(&self) -> (f: &[FieldLayout])
        ensures
            f@ == self@.fields,
    {
        self.fields.as_slice()
    }

    /// The number of bytes needed to encode `values`, or
    /// `LengthExceedsCapacity` when a `Vec` value has more elements than its
    /// length header can count.
    pub fn encoded_len(&self, values: &[FieldValue]) -> (r: Result<usize, DataLayoutError>)
        requires
            self.wf(),
            shapes_ok(self@.fields, values_view(values@)),
        ensures
            match r {
                Ok(n) => all_fit(self@.fields, values_view(values@)) && n == encoding(
                    self@.fields,
                    values_view(values@),
                ).len() && counts_fit(self@.fields, values_view(values@)),
                Err(e) => e == DataLayoutError::LengthExceedsCapacity && !all_fit(
                    self@.fields,
                    values_view(values@),
                ),
            },
    {
        let ghost fields = self@.fields;
        let ghost data = values_view(values@);
        let mut len: usize = 0;
        let mut i: usize = 0;
        let n = self.fields.len();
        while i < n
            invariant
                self.wf(),
                n == fields.len(),
                fields == self@.fields,
                data == values_view(values@),
                shapes_ok(fields, data),
                i <= n,
                all_fit(fields.take(i as int), data.take(i as int)),
                len == encoding(fields.take(i as int), data.take(i as int)).len(),
                len <= max_len(fields.take(i as int)),
                forall|j: int|
                    0 <= j < i ==> (#[trigger] data[j] matches FieldData::Items(items) ==> items.len()
                        <= usize::MAX),
            decreases n - i,
        {
            proof {
                lemma_encoding_step(fields, data, i as int);
                lemma_max_len_prefix(fields, i + 1);
                assert(data_shape_ok(fields[i as int], data[i as int]));
            }
            let slot = match self.fields[i] {
                FieldLayout::Value { value, optional } => match optional {
                    OptionalKind::No => value.size(),
                    OptionalKind::Tagged => match &values[i] {
                        FieldValue::Optional(Some(_)) => 1 + value.size(),
                        _ => 1,
                    },
                    OptionalKind::Implicit(_) => match &values[i] {
                        FieldValue::Optional(Some(_)) => value.size(),
                        _ => 0,
                    },
                },
                FieldLayout::Vec { elem, len_width } => {
                    let count = match &values[i] {
                        FieldValue::Items(items) => items.len(),
                        _ => 0,
                    };
                    proof {
                        assert(data[i as int] == values@[i as int]@);
                    }
                    let cap = capacity_of(len_width);
                    if count as u64 > cap {
                        proof {
                            assert(!data_fits(fields[i as int], data[i as int]));
                        }
                        return Err(DataLayoutError::LengthExceedsCapacity);
                    }
                    proof {
                        assert(data_fits(fields[i as int], data[i as int]));
                        lemma_slot_len(fields[i as int], data[i as int]);
                        match data[i as int] {
                            FieldData::Items(items) => {
                                lemma_le_bytes_len(items.len(), len_width as nat);
                                lemma_flatten_len(items, elem.spec_size());
                            },
                            _ => {},
                        }
                        assert(count * elem.spec_size() <= cap * elem.spec_size()) by (nonlinear_arith)
                            requires count <= cap;
                        assert(cap * elem.spec_size() == elem.spec_size() * cap) by (nonlinear_arith);
                    }
                    len_width + count * elem.size()
                },
            };
            proof {
                assert(data_fits(fields[i as int], data[i as int]));
                lemma_slot_len(fields[i as int], data[i as int]);
                assert(slot == slot_encoding(fields[i as int], data[i as int]).len()) by {
                    match data[i as int] {
                        FieldData::Items(items) => {
                            lemma_le_bytes_len(items.len(), (fields[i as int]->len_width) as nat);
                            lemma_flatten_len(items, (fields[i as int]->elem).spec_size());
                            assert(items.len() * (fields[i as int]->elem).spec_size()
                                == (fields[i as int]->elem).spec_size() * items.len()) by (nonlinear_arith);
                        },
                        _ => {},
                    }
                }
                assert(all_fit(fields.take(i + 1), data.take(i + 1)));
                assert(data[i as int] == values@[i as int]@);
            }
            len = len + slot;
            i = i + 1;
        }
        proof {
            lemma_encoding_full(fields, data);
            assert(fields.take(n as int) =~= fields);
            assert(data.take(n as int) =~= data);
        }
        Ok(len)
    }
}

impl VariableLayout {
    /// Writes the encoding of `values` to the front of `out` and returns its
    /// length; the bytes of `out` after it are left as they were.
    ///
    /// Fails with `LengthExceedsCapacity` as `encoded_len` does, and with
    /// `OutputBufferTooSmall` when `out` is shorter than the encoding.
    pub fn encode_to(&self, values: &[FieldValue], out: &mut [u8]) -> (r: Result<
        usize,
        DataLayoutError,
    >)
        requires
            self.wf(),
            shapes_ok(self@.fields, values_view(values@)),
        ensures
            match r {
                Ok(n) => {
                    let enc = encoding(self@.fields, values_view(values@));
                    &&& all_fit(self@.fields, values_view(values@))
                    &&& counts_fit(self@.fields, values_view(values@))
                    &&& n == enc.len()
                    &&& n <= old(out)@.len()
                    &&& final(out)@ == enc + old(out)@.skip(n as int)
                },
                Err(e) => {
                    &&& final(out)@ == old(out)@
                    &&& e == DataLayoutError::LengthExceedsCapacity ==> !all_fit(
                        self@.fields,
                        values_view(values@),
                    )
                    &&& e == DataLayoutError::OutputBufferTooSmall ==> all_fit(
                        self@.fields,
                        values_view(values@),
                    ) && encoding(self@.fields, values_view(values@)).len() > old(out)@.len()
                    &&& e == DataLayoutError::LengthExceedsCapacity || e
                        == DataLayoutError::OutputBufferTooSmall
                },
            },
    {
        let total = match self.encoded_len(values) {
            Ok(n) => n,
            Err(e) => {
                return Err(e);
            },
        };
        if out.len() < total {
            return Err(DataLayoutError::OutputBufferTooSmall);
        }
        let ghost fields = self@.fields;
        let ghost data = values_view(values@);
        let ghost o = out@;
        let mut off: usize = 0;
        let mut i: usize = 0;
        let n = self.fields.len();
        proof {
            assert(o.skip(0) =~= o);
            assert(encoding(fields.take(0), data.take(0)) =~= Seq::<u8>::empty());
        }
        while i < n
            invariant
                self.wf(),
                n == fields.len(),
                fields == self@.fields,
                data == values_view(values@),
                shapes_ok(fields, data),
                all_fit(fields, data),
                total == encoding(fields, data).len(),
                total <= o.len(),
                i <= n,
                off == encoding(fields.take(i as int), data.take(i as int)).len(),
                off <= total,
                out@ == encoding(fields.take(i as int), data.take(i as int)) + o.skip(off as int),
            decreases n - i,
        {
            proof {
                lemma_encoding_step(fields, data, i as int);
                lemma_encoding_prefix_len(fields, data, i + 1);
                assert(data_shape_ok(fields[i as int], data[i as int]));
                assert(data_fits(fields[i as int], data[i as int]));
                assert(values@[i as int]@ == data[i as int]);
            }
            let ghost before = out@;
            let next = write_slot(self.fields[i], &values[i], out, off);
            proof {
                let slot = slot_encoding(fields[i as int], data[i as int]);
                assert(before.take(off as int) =~= encoding(fields.take(i as int), data.take(i as int)));
                assert(before.skip(off + slot.len()) =~= o.skip(next as int));
                assert(out@ =~= encoding(fields.take(i + 1), data.take(i + 1)) + o.skip(next as int));
            }
            off = next;
            i = i + 1;
        }
        proof {
            lemma_encoding_full(fields, data);
        }
        Ok(off)
    }

    /// The encoding of `values` in a new buffer of exactly its length.
    pub fn encode(&self, values: &[FieldValue]) -> (r: Result<Vec<u8>, DataLayoutError>)
        requires
            self.wf(),
            shapes_ok(self@.fields, values_view(values@)),
        ensures
            match r {
                Ok(bytes) => all_fit(self@.fields, values_view(values@)) && counts_fit(
                    self@.fields,
                    values_view(values@),
                ) && bytes@ == encoding(self@.fields, values_view(values@)),
                Err(e) => e == DataLayoutError::LengthExceedsCapacity && !all_fit(
                    self@.fields,
                    values_view(values@),
                ),
            },
    {
        let total = match self.encoded_len(values) {
            Ok(n) => n,
            Err(e) => {
                return Err(e);
            },
        };
        let mut bytes: Vec<u8> = vec![0u8; total];
        let r = self.encode_to(values, bytes.as_mut_slice());
        match r {
            Ok(n) => {
                proof {
                    assert(bytes@.skip(n as int) =~= Seq::<u8>::empty()) by {
                        assert(n == total);
                    }
                    let enc = encoding(self@.fields, values_view(values@));
                    assert(bytes@ =~= enc);
                }
                Ok(bytes)
            },
            Err(e) => Err(e),
        }
    }
}

pub proof fn lemma_encoding_prefix_len(fields: Seq<FieldLayout>, data: Seq<FieldData>, i: int)
    requires
        0 <= i <= fields.len(),
        data.len() == fields.len(),
    ensures
        encoding(fields.take(i), data.take(i)).len() <= encoding(fields, data).len(),
    decreases fields.len() - i,
{
    if i < fields.len() {
        lemma_encoding_step(fields, data, i);
        lemma_encoding_prefix_len(fields, data, i + 1);
    } else {
        lemma_encoding_full(fields, data);
    }
}

/// Writes the slot of one field at `off` and returns the offset after it.
pub(crate) fn write_slot(f: FieldLayout, v: &FieldValue, out: &mut [u8], off: usize) -> (next: usize)
    requires
        field_wf(f),
        data_shape_ok(f, v@),
        off + slot_encoding(f, v@).len() <= old(out)@.len(),
    ensures
        next == off + slot_encoding(f, v@).len(),
        final(out)@ == old(out)@.take(off as int) + slot_encoding(f, v@) + old(out)@.skip(
            next as int,
        ),
{
    let ghost o = out@;
    let out_len = out.len();
    match f {
        FieldLayout::Value { value, optional } => match optional {
            OptionalKind::No => match v {
                FieldValue::Value(p) => {
                    copy_into(out, off, p.as_slice());
                    off + p.len()
                },
                _ => off,
            },
            OptionalKind::Tagged => match v {
                FieldValue::Optional(Some(p)) => {
                    out[off] = 1;
                    let ghost mid = out@;
                    copy_into(out, off + 1, p.as_slice());
                    proof {
                        assert(out@ =~= o.take(off as int) + (seq![1u8] + p@) + o.skip(
                            off + 1 + p@.len(),
                        ));
                    }
                    off + 1 + p.len()
                },
                _ => {
                    out[off] = 0;
                    proof {
                        assert(out@ =~= o.take(off as int) + seq![0u8] + o.skip(off + 1));
                    }
                    off + 1
                },
            },
            OptionalKind::Implicit(_) => match v {
                FieldValue::Optional(Some(p)) => {
                    copy_into(out, off, p.as_slice());
                    off + p.len()
                },
                _ => {
                    proof {
                        assert(out@ =~= o.take(off as int) + Seq::<u8>::empty() + o.skip(off as int));
                    }
                    off
                },
            },
        },
        FieldLayout::Vec { elem, len_width } => match v {
            FieldValue::Items(items) => {
                let ghost its = items_view(*items);
                let header = le_bytes_of(items.len() as u64, len_width);
                proof {
                    lemma_le_bytes_len(items.len() as nat, len_width as nat);
                    assert(v@ == FieldData::Items(its));
                    assert(slot_encoding(f, v@) == le_bytes(items@.len() as nat, len_width as nat)
                        + flatten(its));
                }
                copy_into(out, off, header.as_slice());
                let mut pos: usize = off + len_width;
                let mut k: usize = 0;
                let cnt = items.len();
                proof {
                    assert(flatten(its.take(0)) =~= Seq::<u8>::empty());
                    assert(out@ =~= o.take(off as int) + le_bytes(cnt as nat, len_width as nat)
                        + flatten(its.take(0)) + o.skip(pos as int));
                }
                while k < cnt
                    invariant
                        cnt == items@.len(),
                        its == items_view(*items),
                        k <= cnt,
                        data_shape_ok(f, v@),
                        f == (FieldLayout::Vec { elem, len_width }),
                        *v == FieldValue::Items(*items),
                        off + slot_encoding(f, v@).len() <= o.len(),
                        out@.len() == o.len(),
                        o.len() == out_len,
                        v@ == FieldData::Items(its),
                        slot_encoding(f, v@).len() == len_width + flatten(its).len(),
                        pos == off + len_width + flatten(its.take(k as int)).len(),
                        out@ == o.take(off as int) + le_bytes(cnt as nat, len_width as nat)
                            + flatten(its.take(k as int)) + o.skip(pos as int),
                    decreases cnt - k,
                {
                    proof {
                        assert(its.take(k + 1).drop_last() =~= its.take(k as int));
                        assert(payload_ok(elem, its[k as int]));
                        lemma_flatten_prefix_len(its, k + 1);
                        lemma_le_bytes_len(cnt as nat, len_width as nat);
                    }
                    let ghost before = out@;
                    copy_into(out, pos, items[k].as_slice());
                    proof {
                        assert(out@ =~= o.take(off as int) + le_bytes(cnt as nat, len_width as nat)
                            + flatten(its.take(k + 1)) + o.skip(pos + items@[k as int]@.len()));
                    }
                    pos = pos + items[k].len();
                    k = k + 1;
                }
                proof {
                    assert(its.take(cnt as int) =~= its);
                }
                pos
            },
            _ => off,
        },
    }
}

pub proof fn lemma_flatten_prefix_len(items: Seq<Seq<u8>>, k: int)
    requires
        0 <= k <= items.len(),
    ensures
        flatten(items.take(k)).len() <= flatten(items).len(),
    decreases items.len() - k,
{
    if k < items.len() {
        lemma_flatten_prefix_len(items, k + 1);
        assert(items.take(k + 1).drop_last() =~= items.take(k));
    } else {
        assert(items.take(k) =~= items);
    }
}

/// The element capacity of a `len_width`-byte length header.
pub fn capacity_of(len_width: usize) -> (c: u64)
    requires
        1 <= len_width <= 8,
    ensures
        c == capacity(len_width as nat),
{
    proof {
        lemma_byte_range_values();
        if len_width == 5 || len_width == 6 || len_width == 7 {
            lemma_byte_range_monotonic(len_width as nat, 8);
            lemma_byte_range_monotonic(4, len_width as nat);
        }
    }
    if len_width == 8 {
        0xFFFF_FFFF
    } else {
        let mut c: u64 = 1;
        let mut k: usize = 0;
        while k < len_width
            invariant
                k <= len_width < 8,
                c as nat == byte_range(k as nat),
            decreases len_width - k,
        {
            proof {
                lemma_byte_range_step(k as nat);
                lemma_byte_range_monotonic((k + 1) as nat, 7);
                lemma_byte_range_step(7);
                lemma_byte_range_values();
            }
            c = c * 256;
            k = k + 1;
        }
        c - 1
    }
}

} // verus!

verus! {

/// The largest slot of a field, computed without overflow.
pub(crate) fn slot_max_of(f: FieldLayout) -> (n: u128)
    requires
        field_wf(f),
    ensures
        n == slot_max_len(f),
        n < 0x200_0000_0000_0000_0000_0000_0000_0000,
{
    match f {
        FieldLayout::Value { value, optional } => match optional {
            OptionalKind::Tagged => 1 + value.size() as u128,
            _ => value.size() as u128,
        },
        FieldLayout::Vec { elem, len_width } => {
            let cap = capacity_of(len_width);
            proof {
                lemma_byte_range_values();
                if len_width < 8 {
                    lemma_byte_range_monotonic(len_width as nat, 7);
                    lemma_byte_range_step(7);
                }
                if len_width < 8 {
                    assert(byte_range(len_width as nat) <= byte_range(7));
                    assert(byte_range(8) == 256 * byte_range(7));
                    assert(byte_range(7) == 0x100_0000_0000_0000);
                    lemma_byte_range_step(len_width as nat);
                    assert(cap == byte_range(len_width as nat) - 1);
                }
                assert(cap <= 0xFF_FFFF_FFFF_FFFF);
                assert(elem.spec_size() * cap <= 0xFFFF_FFFF_FFFF_FFFF * 0xFF_FFFF_FFFF_FFFF)
                    by (nonlinear_arith)
                    requires
                        elem.spec_size() <= 0xFFFF_FFFF_FFFF_FFFF,
                        cap <= 0xFF_FFFF_FFFF_FFFF,
                ;
            }
            len_width as u128 + elem.size() as u128 * cap as u128
        },
    }
}

/// The field layouts of the declarations, or the first declaration error.
fn build_fields(option_encoding: OptionEncoding, decls: &[FieldDecl]) -> (r: Result<
    (Vec<FieldLayout>, Vec<usize>, Vec<usize>, usize),
    SchemaError,
>)
    ensures
        match r {
            Ok((fields, sizes, positions, count)) => {
                let all = fields_of(decls@, option_encoding);
                &&& fields@ == all
                &&& first_decl_error(decls@, 0) is None
                &&& forall|j: int| 0 <= j < all.len() ==> field_wf(#[trigger] all[j])
                &&& count == option_count(decls@)
                &&& option_encoding == OptionEncoding::Implicit ==> Seq::new(
                    sizes@.len(),
                    |k: int| sizes@[k] as nat,
                ) == implicit_sizes(all)
                &&& positions@.len() == sizes@.len()
                &&& forall|k: int|
                    0 <= k < positions@.len() ==> #[trigger] positions@[k] < all.len() && (
                    all[positions@[k] as int] matches FieldLayout::Value {
                        optional: OptionalKind::Implicit(bit),
                        ..
                    } && bit == k)
                &&& bits_ok(all)
                &&& options_match(all, option_encoding)
            },
            Err(e) => first_decl_error(decls@, 0) == Some(e),
        },
{
    let ghost all = fields_of(decls@, option_encoding);
    let n = decls.len();
    let mut fields: Vec<FieldLayout> = Vec::new();
    let mut sizes: Vec<usize> = Vec::new();
    let mut positions: Vec<usize> = Vec::new();
    let mut count: usize = 0;
    let mut i: usize = 0;
    while i < n
        invariant
            n == decls@.len(),
            all == fields_of(decls@, option_encoding),
            i <= n,
            first_decl_error(decls@, 0) == first_decl_error(decls@, i as nat),
            fields@ == all.take(i as int),
            count == option_count(decls@.take(i as int)),
            count <= i,
            forall|j: int| 0 <= j < i ==> field_wf(#[trigger] fields@[j]),
            option_encoding == OptionEncoding::Implicit ==> Seq::new(
                sizes@.len(),
                |k: int| sizes@[k] as nat,
            ) == implicit_sizes(all.take(i as int)),
            option_encoding == OptionEncoding::Implicit ==> sizes@.len() == count,
            positions@.len() == sizes@.len(),
            forall|k: int|
                0 <= k < positions@.len() ==> #[trigger] positions@[k] < i && (all[positions@[k] as int]
                    matches FieldLayout::Value { optional: OptionalKind::Implicit(bit), .. }
                    && bit == k),
        decreases n - i,
    {
        proof {
            lemma_option_count_step(decls@, i as int);
            lemma_implicit_sizes_step(all, i as int);
            assert(all.take(i + 1) =~= all.take(i as int).push(all[i as int]));
            if option_encoding == OptionEncoding::Implicit {
                lemma_implicit_count(decls@, i as int);
            }
        }
        let f = match decls[i] {
            FieldDecl::Vec { elem, len_width } => {
                if len_width < 1 || len_width > 8 {
                    proof {
                        assert(decl_error(decls@[i as int], i as nat) == Some(
                            SchemaError::InvalidLenWidth { field: i },
                        ));
                    }
                    return Err(SchemaError::InvalidLenWidth { field: i });
                }
                if let ValueKind::Bool = elem {
                    return Err(SchemaError::VecOfBool { field: i });
                }
                if !elem.check() {
                    proof {
                        assert(decl_error(decls@[i as int], i as nat) == Some(
                            SchemaError::InvalidValueKind { field: i },
                        ));
                    }
                    return Err(SchemaError::InvalidValueKind { field: i });
                }
                FieldLayout::Vec { elem, len_width }
            },
            FieldDecl::Value(k) => {
                if !k.check() {
                    return Err(SchemaError::InvalidValueKind { field: i });
                }
                FieldLayout::Value { value: k, optional: OptionalKind::No }
            },
            FieldDecl::Option(k) => {
                if !k.check() {
                    return Err(SchemaError::InvalidValueKind { field: i });
                }
                match option_encoding {
                    OptionEncoding::Tagged => FieldLayout::Value {
                        value: k,
                        optional: OptionalKind::Tagged,
                    },
                    OptionEncoding::Implicit => {
                        sizes.push(k.size());
                        positions.push(i);
                        FieldLayout::Value { value: k, optional: OptionalKind::Implicit(count) }
                    },
                }
            },
        };
        if let FieldDecl::Option(_) = decls[i] {
            count = count + 1;
        }
        proof {
            assert(f == all[i as int]);
            if option_encoding == OptionEncoding::Implicit {
                assert(Seq::new(sizes@.len(), |k: int| sizes@[k] as nat) =~= implicit_sizes(
                    all.take(i + 1),
                ));
            }
        }
        fields.push(f);
        i = i + 1;
    }
    proof {
        lemma_take_full(all);
        lemma_take_full(decls@);
        assert(first_decl_error(decls@, n as nat) is None);
        assert forall|j: int| 0 <= j < all.len() implies match #[trigger] all[j] {
            FieldLayout::Value { optional: OptionalKind::Implicit(bit), .. } => bit
                == implicit_sizes(all.take(j)).len(),
            _ => true,
        } by {
            assert(all[j] == field_of(decls@, option_encoding, j));
            lemma_option_count_bound(decls@.take(j));
            if option_encoding == OptionEncoding::Implicit {
                lemma_implicit_count(decls@, j);
            }
        }
        assert forall|j: int| 0 <= j < all.len() implies match #[trigger] all[j] {
            FieldLayout::Value { optional: OptionalKind::Tagged, .. } => option_encoding
                == OptionEncoding::Tagged,
            FieldLayout::Value { optional: OptionalKind::Implicit(_), .. } => option_encoding
                == OptionEncoding::Implicit,
            _ => true,
        } by {
            assert(all[j] == field_of(decls@, option_encoding, j));
        }
    }
    Ok((fields, sizes, positions, count))
}

/// The first `Vec` declaration, if any.
fn first_vec(decls: &[FieldDecl]) -> (r: Option<usize>)
    ensures
        match r {
            Some(j) => is_first_vec(decls@, j as nat),
            None => forall|k: int| 0 <= k < decls@.len() ==> !(#[trigger] decls@[k] is Vec),
        },
{
    let n = decls.len();
    let mut j: usize = 0;
    while j < n
        invariant
            n == decls@.len(),
            j <= n,
            forall|k: int| 0 <= k < j ==> !(#[trigger] decls@[k] is Vec),
        decreases n - j,
    {
        if let FieldDecl::Vec { .. } = decls[j] {
            return Some(j);
        }
        j = j + 1;
    }
    None
}

/// Whether a layout declaration is accepted: it passes the structural checks
/// and the alignment check of borrowed fields.
pub open spec fn layout_accepts(bo: BufferOffset, oe: OptionEncoding, decls: Seq<FieldDecl>) -> bool {
    &&& structure_ok(bo, oe, decls)
    &&& alignment_check_from(fields_of(decls, oe), bo, 0) is Ok
}

/// Whether `e` is the error with which a layout declaration is rejected.
pub open spec fn layout_error(
    bo: BufferOffset,
    oe: OptionEncoding,
    decls: Seq<FieldDecl>,
    e: SchemaError,
) -> bool {
    ||| structure_error(bo, oe, decls, e)
    ||| structure_ok(bo, oe, decls) && alignment_check_from(fields_of(decls, oe), bo, 0) == Err::<
        (),
        SchemaError,
    >(e)
}

/// The alignment check never blames the buffer offset.
proof fn lemma_alignment_errors_not_offset(fields: Seq<FieldLayout>, bo: BufferOffset, i: nat)
    ensures
        alignment_check_from(fields, bo, i) matches Err(e) ==> !(e is InvalidBufferOffset),
    decreases fields.len() - i,
{
    if i < fields.len() {
        lemma_alignment_errors_not_offset(fields, bo, i + 1);
    }
}

/// A declaration is refused for its buffer offset exactly when that offset is
/// a fixed one above 7; every fixed offset from 0 to 7 passes the structural
/// checks exactly when an unaligned buffer would.
pub proof fn lemma_buffer_offset_range(bo: BufferOffset, oe: OptionEncoding, decls: Seq<FieldDecl>)
    ensures
        layout_error(bo, oe, decls, SchemaError::InvalidBufferOffset) <==> (bo matches BufferOffset::Fixed(
            b,
        ) && b > 7),
        forall|b: usize|
            b <= 7 ==> #[trigger] structure_ok(BufferOffset::Fixed(b), oe, decls) == structure_ok(
                BufferOffset::Unaligned,
                oe,
                decls,
            ),
{
    lemma_alignment_errors_not_offset(fields_of(decls, oe), bo, 0);
}

impl VariableLayout {
    /// Checks a layout declaration and builds the layout.
    ///
    /// The structural checks run first (see `with_structure`); then every
    /// borrowed field (values larger than 8 bytes, and `Vec`s of elements
    /// aligned to more than one byte) must be aligned in every valid encoding:
    /// with `buffer_offset = unaligned` no borrowed field may need alignment,
    /// and with a fixed buffer offset the address of its payload modulo its
    /// alignment must be 0 for every combination of earlier slot lengths.
    pub fn new(
        buffer_offset: BufferOffset,
        option_encoding: OptionEncoding,
        decls: &[FieldDecl],
    ) -> (r: Result<VariableLayout, SchemaError>)
        ensures
            match r {
                Ok(l) => {
                    &&& l.wf()
                    &&& l@.fields == fields_of(decls@, option_encoding)
                    &&& l@.buffer_offset == buffer_offset
                    &&& l@.option_encoding == option_encoding
                    &&& alignment_check_from(l@.fields, l@.buffer_offset, 0) is Ok
                    &&& layout_accepts(buffer_offset, option_encoding, decls@)
                },
                Err(e) => layout_error(buffer_offset, option_encoding, decls@, e),
            },
    {
        let l = match VariableLayout::with_structure(buffer_offset, option_encoding, decls) {
            Ok(l) => l,
            Err(e) => {
                return Err(e);
            },
        };
        proof {
            l.lemma_wf();
        }
        match check_alignment(l.fields.as_slice(), buffer_offset) {
            Ok(()) => Ok(l),
            Err(e) => Err(e),
        }
    }
}

/// The smallest encoding length, when the largest fits in `usize`.
fn length_bounds(fields: &[FieldLayout]) -> (r: Option<usize>)
    requires
        forall|j: int| 0 <= j < fields@.len() ==> field_wf(#[trigger] fields@[j]),
    ensures
        match r {
            Some(min) => max_len(fields@) <= usize::MAX && min == min_len(fields@),
            None => max_len(fields@) > usize::MAX,
        },
{
    let n = fields.len();
    let mut max: u128 = 0;
    let mut min: usize = 0;
    let mut k: usize = 0;
    while k < n
        invariant
            n == fields@.len(),
            k <= n,
            forall|j: int| 0 <= j < n ==> field_wf(#[trigger] fields@[j]),
            max == max_len(fields@.take(k as int)),
            max <= usize::MAX,
            min == min_len(fields@.take(k as int)),
        decreases n - k,
    {
        proof {
            assert(fields@.take(k + 1).drop_last() =~= fields@.take(k as int));
            lemma_slot_min_le_max(fields@[k as int]);
        }
        let slot = slot_max_of(fields[k]);
        max = max + slot;
        if max > usize::MAX as u128 {
            proof {
                lemma_max_len_prefix(fields@, k + 1);
            }
            return None;
        }
        proof {
            lemma_max_len_prefix(fields@, k + 1);
            lemma_min_len_le_max(fields@.take(k + 1));
        }
        min = min + slot_min_of(fields[k]);
        k = k + 1;
    }
    proof {
        lemma_take_full(fields@);
    }
    Some(min)
}

impl VariableLayout {
    /// Checks a layout declaration, except for the alignment of borrowed
    /// fields, and builds the layout.
    ///
    /// The checks run in this order, and the first that fails gives the
    /// error: the buffer offset is in `0..=7`; each field declaration is valid
    /// (`Vec` header widths in `1..=8`, no `Vec<bool>`, well-formed kinds);
    /// with `option = implicit`, there is no `Vec` field and there are between
    /// 1 and 128 `Option<T>` fields; the largest encoding fits in `usize`;
    /// with `option = implicit`, no two presence combinations of the options
    /// give the same total length.
    fn with_structure(
        buffer_offset: BufferOffset,
        option_encoding: OptionEncoding,
        decls: &[FieldDecl],
    ) -> (r: Result<VariableLayout, SchemaError>)
        ensures
            match r {
                Ok(l) => {
                    &&& l.wf()
                    &&& l@.fields == fields_of(decls@, option_encoding)
                    &&& l@.buffer_offset == buffer_offset
                    &&& l@.option_encoding == option_encoding
                    &&& structure_ok(buffer_offset, option_encoding, decls@)
                },
                Err(e) => structure_error(buffer_offset, option_encoding, decls@, e),
            },
    {
        if let BufferOffset::Fixed(b) = buffer_offset {
            if b > 7 {
                return Err(SchemaError::InvalidBufferOffset);
            }
        }
        let (fields, sizes, positions, count) = match build_fields(option_encoding, decls) {
            Ok(t) => t,
            Err(e) => {
                proof {
                    lemma_first_decl_error_kind(decls@, 0);
                }
                return Err(e);
            },
        };
        if let OptionEncoding::Implicit = option_encoding {
            if let Some(j) = first_vec(decls) {
                return Err(SchemaError::ImplicitWithVec { field: j });
            }
            if count == 0 {
                return Err(SchemaError::ImplicitWithoutOption);
            }
            if count > 128 {
                return Err(SchemaError::TooManyImplicitOptions);
            }
        }
        let min = match length_bounds(fields.as_slice()) {
            Some(m) => m,
            None => {
                return Err(SchemaError::TooLarge);
            },
        };
        let mut lengths: Vec<(usize, Vec<bool>)> = Vec::new();
        if let OptionEncoding::Implicit = option_encoding {
            proof {
                lemma_implicit_total(fields@);
                lemma_implicit_count(decls@, decls@.len() as int);
                lemma_take_full(decls@);
                lemma_take_full(fields@);
                assert(sizes@.len() == count);
            }
            match length_table(sizes.as_slice(), min) {
                Ok(t) => {
                    lengths = t;
                },
                Err(bit) => {
                    let field = positions[bit];
                    return Err(SchemaError::AmbiguousImplicitLengths { field });
                },
            }
        }
        Ok(VariableLayout { fields, buffer_offset, option_encoding, lengths })
    }
}

fn slot_min_of(f: FieldLayout) -> (n: usize)
    ensures
        n == slot_min_len(f),
{
    match f {
        FieldLayout::Value { value, optional } => match optional {
            OptionalKind::No => value.size(),
            OptionalKind::Tagged => 1,
            OptionalKind::Implicit(_) => 0,
        },
        FieldLayout::Vec { len_width, .. } => len_width,
    }
}

pub proof fn lemma_slot_min_le_max(f: FieldLayout)
    ensures
        slot_min_len(f) <= slot_max_len(f),
{
    match f {
        FieldLayout::Vec { elem, len_width } => {
            assert(elem.spec_size() * capacity(len_width as nat) >= 0) by (nonlinear_arith);
        },
        _ => {},
    }
}

pub proof fn lemma_min_len_le_max(fields: Seq<FieldLayout>)
    ensures
        min_len(fields) <= max_len(fields),
    decreases fields.len(),
{
    if fields.len() > 0 {
        lemma_min_len_le_max(fields.drop_last());
        lemma_slot_min_le_max(fields.last());
    }
}

/// Without `Vec` and tagged fields, the largest encoding is the smallest plus
/// every implicit payload.
pub proof fn lemma_implicit_total(fields: Seq<FieldLayout>)
    requires
        forall|j: int|
            0 <= j < fields.len() ==> !(#[trigger] fields[j] is Vec) && !(fields[j] matches FieldLayout::Value {
                optional: OptionalKind::Tagged,
                ..
            }),
    ensures
        max_len(fields) == min_len(fields) + total_size(
            implicit_sizes(fields),
            implicit_sizes(fields).len(),
        ),
    decreases fields.len(),
{
    if fields.len() > 0 {
        let prev = fields.drop_last();
        lemma_implicit_total(prev);
        let s = implicit_sizes(prev);
        match fields.last() {
            FieldLayout::Value { value, optional: OptionalKind::Implicit(_) } => {
                lemma_total_size_push(s, value.spec_size());
            },
            _ => {},
        }
    }
}

pub proof fn lemma_total_size_push(s: Seq<nat>, x: nat)
    ensures
        total_size(s.push(x), s.len() + 1) == total_size(s, s.len()) + x,
{
    lemma_total_size_same(s, s.push(x), s.len());
}

/// The sum of the first `n` sizes only reads those sizes.
pub proof fn lemma_total_size_same(a: Seq<nat>, b: Seq<nat>, n: nat)
    requires
        n <= a.len(),
        n <= b.len(),
        forall|k: int| 0 <= k < n ==> a[k] == b[k],
    ensures
        total_size(a, n) == total_size(b, n),
    decreases n,
{
    if n > 0 {
        lemma_total_size_same(a, b, (n - 1) as nat);
    }
}

} // verus!

verus! {

/// Whether `p` gives, for each implicit option, a presence that makes the
/// encoding `len` bytes long.
pub open spec fn implicit_presence_ok(fields: Seq<FieldLayout>, len: nat, p: Seq<bool>) -> bool {
    &&& p.len() == implicit_sizes(fields).len()
    &&& min_len(fields) + subset_sum(implicit_sizes(fields), p) == len
}

/// The presence of the implicit options of a `len`-byte encoding; tagged
/// layouts have none.
pub open spec fn presence_for(l: LayoutSpec, len: nat) -> Option<Seq<bool>> {
    if l.option_encoding == OptionEncoding::Tagged {
        Some(Seq::empty())
    } else if exists|p: Seq<bool>| implicit_presence_ok(l.fields, len, p) {
        Some(choose|p: Seq<bool>| implicit_presence_ok(l.fields, len, p))
    } else {
        None
    }
}

/// Checking a buffer that starts `address_mod_8` bytes past an 8-byte aligned
/// address: the number of bytes the encoding takes, or the error found.
/// Borrowed payloads are checked for alignment at the address they have,
/// `address_mod_8` plus their offset in the buffer.
pub open spec fn decode_len(l: LayoutSpec, bytes: Seq<u8>, address_mod_8: nat) -> Result<
    nat,
    DataLayoutError,
> {
    if l.buffer_offset matches BufferOffset::Fixed(b) && address_mod_8 != b {
        Err(DataLayoutError::InvalidBufferOffset)
    } else {
        match presence_for(l, bytes.len()) {
            None => Err(DataLayoutError::InvalidDataLength),
            Some(p) => validate_from(l.fields, bytes, p, 0, 0, address_mod_8),
        }
    }
}

/// A checked encoding of a variable-offset layout, read field by field.
#[derive(Debug)]
pub struct LayoutView<'a> {
    layout: &'a VariableLayout,
    bytes: &'a [u8],
    present: Vec<bool>,
    base: usize,
}

impl<'a> LayoutView<'a> {
    pub closed spec fn spec_layout(&self) -> LayoutSpec {
        self.layout@
    }

    pub closed spec fn spec_bytes(&self) -> Seq<u8> {
        self.bytes@
    }

    pub closed spec fn spec_present(&self) -> Seq<bool> {
        self.present@
    }

    /// The address of the checked bytes modulo 8.
    pub closed spec fn spec_base(&self) -> nat {
        self.base as nat
    }

    pub closed spec fn wf(&self) -> bool {
        &&& self.layout.wf()
        &&& present_covers(self.layout@.fields, self.present@)
        &&& validate_from(self.layout@.fields, self.bytes@, self.present@, 0, 0, self.base as nat)
            == Ok::<
            nat,
            DataLayoutError,
        >(self.bytes@.len())
    }

    /// The checked bytes.
    pub fn bytes(&self) -> (b: &'a [u8])
        ensures
            b@ == self.spec_bytes(),
    {
        self.bytes
    }

    /// The payload of field `i`.
    pub fn field(&self, i: usize) -> (r: FieldRead<'a>)
        requires
            self.wf(),
            i < self.spec_layout().fields.len(),
        ensures
            r@ == decoded_field(self.spec_layout().fields, self.spec_bytes(), self.spec_present(), i as nat),
    {
        let ghost fields = self.layout@.fields;
        proof {
            lemma_validate_walk(fields, self.bytes@, self.present@, self.base as nat, 0);
        }
        let mut off: usize = 0;
        let mut j: usize = 0;
        while j < i
            invariant
                self.wf(),
                fields == self.layout@.fields,
                i < fields.len(),
                j <= i,
                off == slot_start(fields, self.bytes@, self.present@, j as nat),
            decreases i - j,
        {
            proof {
                lemma_validate_walk(fields, self.bytes@, self.present@, self.base as nat, j as nat);
                assert(field_wf(fields[j as int]));
                assert(present_covers(fields, self.present@));
                assert(match fields[j as int] {
                    FieldLayout::Value { optional: OptionalKind::Implicit(bit), .. } => bit < self.present@.len(),
                    _ => true,
                });
            }
            off = slot_end_of(self.layout.fields[j], self.bytes, off, self.present.as_slice(), self.base);
            j = j + 1;
        }
        proof {
            lemma_validate_walk(fields, self.bytes@, self.present@, self.base as nat, i as nat);
            assert(field_wf(fields[i as int]));
            assert(match fields[i as int] {
                FieldLayout::Value { optional: OptionalKind::Implicit(bit), .. } => bit < self.present@.len(),
                _ => true,
            });
        }
        slot_read(self.layout.fields[i], self.bytes, off, self.present.as_slice(), self.base)
    }
}

impl VariableLayout {
    /// The presence of the implicit options of a `len`-byte encoding.
    fn presence(&self, len: usize) -> (r: Option<Vec<bool>>)
        requires
            self.wf(),
        ensures
            match r {
                Some(p) => presence_for(self@, len as nat) == Some(p@) && present_covers(
                    self@.fields,
                    p@,
                ),
                None => presence_for(self@, len as nat) is None,
            },
    {
        let ghost fields = self@.fields;
        let ghost sizes = implicit_sizes(fields);
        if let OptionEncoding::Tagged = self.option_encoding {
            proof {
                assert(present_covers(fields, Seq::<bool>::empty())) by {
                    assert forall|i: int| 0 <= i < fields.len() implies match #[trigger] fields[i] {
                        FieldLayout::Value { optional: OptionalKind::Implicit(bit), .. } => bit < 0,
                        _ => true,
                    } by {
                        assert(options_match(fields, self.option_encoding));
                    }
                }
            }
            return Some(Vec::new());
        }
        let ghost t = table_view(self.lengths@);
        proof {
            lemma_table_unique(t, sizes, sizes.len(), min_len(fields));
        }
        let n = self.lengths.len();
        let mut j: usize = 0;
        while j < n
            invariant
                self.wf(),
                self.option_encoding == OptionEncoding::Implicit,
                t == table_view(self.lengths@),
                table_ok(t, sizes, sizes.len(), min_len(fields)),
                fields == self@.fields,
                sizes == implicit_sizes(fields),
                n == t.len(),
                j <= n,
                forall|k: int| 0 <= k < j ==> (#[trigger] t[k]).0 != len,
            decreases n - j,
        {
            if self.lengths[j].0 == len {
                let p = copy_bools(&self.lengths[j].1);
                proof {
                    let q = t[j as int].1;
                    assert(p@ == q);
                    assert(implicit_presence_ok(fields, len as nat, q));
                    let c = choose|c: Seq<bool>| implicit_presence_ok(fields, len as nat, c);
                    assert(implicit_presence_ok(fields, len as nat, c));
                    lemma_table_unique(t, sizes, sizes.len(), min_len(fields));
                    assert(c == q);
                    lemma_present_covers(fields, q);
                }
                return Some(p);
            }
            j = j + 1;
        }
        proof {
            assert forall|p: Seq<bool>| !implicit_presence_ok(fields, len as nat, p) by {
                if implicit_presence_ok(fields, len as nat, p) {
                    let k = choose|k: int| 0 <= k < t.len() && #[trigger] t[k].1 == p;
                    assert(t[k].1 == p);
                }
            }
        }
        None
    }

    /// Checks the encoding at the front of `bytes` and returns a view of it
    /// and the bytes after it. `address_mod_8` is the address of `bytes`
    /// modulo 8.
    pub fn decode_prefix<'a>(&'a self, bytes: &'a [u8], address_mod_8: usize) -> (r: Result<
        (LayoutView<'a>, &'a [u8]),
        DataLayoutError,
    >)
        requires
            self.wf(),
            self@.option_encoding == OptionEncoding::Tagged,
        ensures
            match r {
                Ok((view, rest)) => {
                    &&& decode_len(self@, bytes@, address_mod_8 as nat) matches Ok(n)
                    &&& n <= bytes@.len()
                    &&& view.wf()
                    &&& view.spec_layout() == self@
                    &&& view.spec_bytes() == bytes@.take(n as int)
                    &&& view.spec_present() == Seq::<bool>::empty()
                    &&& view.spec_base() == address_mod_8
                    &&& rest@ == bytes@.skip(n as int)
                },
                Err(e) => decode_len(self@, bytes@, address_mod_8 as nat) == Err::<
                    nat,
                    DataLayoutError,
                >(e),
            },
    {
        let n = match self.validate(bytes, address_mod_8) {
            Ok(n) => n,
            Err(e) => {
                return Err(e);
            },
        };
        let present: Vec<bool> = Vec::new();
        let (head, rest) = bytes.split_at(n);
        proof {
            lemma_validate_truncate(
                self@.fields,
                bytes@,
                Seq::<bool>::empty(),
                0,
                0,
                n as nat,
                address_mod_8 as nat,
            );
            assert(head@ == bytes@.take(n as int));
            assert(present_covers(self@.fields, present@)) by {
                assert forall|i: int| 0 <= i < self@.fields.len() implies match #[trigger] self@.fields[i] {
                    FieldLayout::Value { optional: OptionalKind::Implicit(bit), .. } => bit < 0,
                    _ => true,
                } by {
                    assert(options_match(self@.fields, self.option_encoding));
                }
            }
        }
        Ok((LayoutView { layout: self, bytes: head, present, base: address_mod_8 }, rest))
    }

    /// Checks that `bytes` holds exactly one encoding and returns a view of
    /// it. `address_mod_8` is the address of `bytes` modulo 8.
    ///
    /// Fails as `decode_len` says, and with `InvalidDataLength` when the
    /// encoding is followed by more bytes.
    pub fn decode<'a>(&'a self, bytes: &'a [u8], address_mod_8: usize) -> (r: Result<
        LayoutView<'a>,
        DataLayoutError,
    >)
        requires
            self.wf(),
        ensures
            match r {
                Ok(view) => {
                    &&& decode_len(self@, bytes@, address_mod_8 as nat) == Ok::<nat, DataLayoutError>(
                        bytes@.len(),
                    )
                    &&& view.wf()
                    &&& view.spec_layout() == self@
                    &&& view.spec_bytes() == bytes@
                    &&& presence_for(self@, bytes@.len()) == Some(view.spec_present())
                    &&& view.spec_base() == address_mod_8
                },
                Err(e) => match decode_len(self@, bytes@, address_mod_8 as nat) {
                    Ok(n) => n != bytes@.len() && e == DataLayoutError::InvalidDataLength,
                    Err(e2) => e == e2,
                },
            },
    {
        let n = match self.validate(bytes, address_mod_8) {
            Ok(n) => n,
            Err(e) => {
                return Err(e);
            },
        };
        if n != bytes.len() {
            return Err(DataLayoutError::InvalidDataLength);
        }
        let present = match self.presence(bytes.len()) {
            Some(p) => p,
            None => {
                return Err(DataLayoutError::InvalidDataLength);
            },
        };
        Ok(LayoutView { layout: self, bytes, present, base: address_mod_8 })
    }

    /// The number of bytes the encoding at the front of `bytes` takes.
    pub fn validate(&self, bytes: &[u8], address_mod_8: usize) -> (r: Result<usize, DataLayoutError>)
        requires
            self.wf(),
        ensures
            match r {
                Ok(n) => decode_len(self@, bytes@, address_mod_8 as nat) == Ok::<nat, DataLayoutError>(
                    n as nat,
                ) && n <= bytes@.len(),
                Err(e) => decode_len(self@, bytes@, address_mod_8 as nat) == Err::<nat, DataLayoutError>(
                    e,
                ),
            },
    {
        if let BufferOffset::Fixed(b) = self.buffer_offset {
            if address_mod_8 != b {
                return Err(DataLayoutError::InvalidBufferOffset);
            }
        }
        let present = match self.presence(bytes.len()) {
            Some(p) => p,
            None => {
                return Err(DataLayoutError::InvalidDataLength);
            },
        };
        let ghost fields = self@.fields;
        let n = self.fields.len();
        let mut off: usize = 0;
        let mut i: usize = 0;
        while i < n
            invariant
                self.wf(),
                fields == self@.fields,
                n == fields.len(),
                present_covers(fields, present@),
                presence_for(self@, bytes@.len()) == Some(present@),
                !(self@.buffer_offset matches BufferOffset::Fixed(b) && address_mod_8 != b),
                i <= n,
                off <= bytes@.len(),
                validate_from(fields, bytes@, present@, 0, 0, address_mod_8 as nat) == validate_from(
                    fields,
                    bytes@,
                    present@,
                    i as nat,
                    off as nat,
                    address_mod_8 as nat,
                ),
            decreases n - i,
        {
            proof {
                assert(field_wf(fields[i as int]));
                assert(match fields[i as int] {
                    FieldLayout::Value { optional: OptionalKind::Implicit(bit), .. } => bit < present@.len(),
                    _ => true,
                });
            }
            match check_slot(self.fields[i], bytes, off, present.as_slice(), address_mod_8) {
                Ok(next) => {
                    proof {
                        lemma_validate_slot_end(
                            fields[i as int],
                            bytes@,
                            off as nat,
                            present@,
                            address_mod_8 as nat,
                        );
                    }
                    off = next;
                },
                Err(e) => {
                    return Err(e);
                },
            }
            i = i + 1;
        }
        Ok(off)
    }
}

/// A copy of a presence vector.
fn copy_bools(p: &Vec<bool>) -> (r: Vec<bool>)
    ensures
        r@ == p@,
{
    let mut r: Vec<bool> = Vec::new();
    let mut k: usize = 0;
    while k < p.len()
        invariant
            k <= p@.len(),
            r@ == p@.take(k as int),
        decreases p@.len() - k,
    {
        r.push(p[k]);
        proof {
            assert(r@ =~= p@.take(k + 1));
        }
        k = k + 1;
    }
    proof {
        assert(p@.take(p@.len() as int) =~= p@);
    }
    r
}

/// In an accepted layout, every implicit option's index is below the number
/// of implicit options.
pub proof fn lemma_present_covers(fields: Seq<FieldLayout>, p: Seq<bool>)
    requires
        bits_ok(fields),
        p.len() == implicit_sizes(fields).len(),
    ensures
        present_covers(fields, p),
{
    assert forall|i: int| 0 <= i < fields.len() implies match #[trigger] fields[i] {
        FieldLayout::Value { optional: OptionalKind::Implicit(bit), .. } => bit < p.len(),
        _ => true,
    } by {
        match fields[i] {
            FieldLayout::Value { optional: OptionalKind::Implicit(bit), .. } => {
                lemma_implicit_sizes_prefix(fields, i + 1);
                lemma_implicit_sizes_step(fields, i);
            },
            _ => {},
        }
    }
}

/// The implicit options of a prefix of the fields are a prefix of them all.
pub proof fn lemma_implicit_sizes_prefix(fields: Seq<FieldLayout>, i: int)
    requires
        0 <= i <= fields.len(),
    ensures
        implicit_sizes(fields.take(i)).len() <= implicit_sizes(fields).len(),
        implicit_sizes(fields.take(i)) == implicit_sizes(fields).take(
            implicit_sizes(fields.take(i)).len() as int,
        ),
    decreases fields.len() - i,
{
    if i < fields.len() {
        lemma_implicit_sizes_prefix(fields, i + 1);
        lemma_implicit_sizes_step(fields, i);
        let a = implicit_sizes(fields.take(i));
        let b = implicit_sizes(fields.take(i + 1));
        let all = implicit_sizes(fields);
        assert(a =~= all.take(a.len() as int));
    } else {
        lemma_take_full(fields);
        let all = implicit_sizes(fields);
        assert(all.take(all.len() as int) =~= all);
    }
}

} // verus!
