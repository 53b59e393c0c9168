use vstd::prelude::*;
use crate::bytes::{byte_range, le_bytes, lemma_byte_range_monotonic, lemma_byte_range_values, lemma_le_bytes_len, lemma_le_roundtrip};
use crate::decode::{
    check_payload, decoded_field, header_count, slot_data, slot_end, slot_start, validate_from,
    validate_slot,
};
use crate::implicit::{subset_sum, unique_subset_sums};
use crate::value::{flatten, lemma_flatten_len, payload_ok, FieldData};
use crate::variable::{
    counts_fit, all_fit, bits_ok, capacity, data_fits, data_shape_ok, decode_len, encoding, field_wf, fields_wf,
    implicit_presence_ok, implicit_sizes, lemma_encoding_full, lemma_encoding_step,
    lemma_implicit_sizes_prefix, min_len, options_match, presence_for, shapes_ok, slot_encoding,
    slot_min_len, BufferOffset, FieldLayout, LayoutSpec, OptionEncoding, OptionalKind,
    VariableLayout,
};
use crate::schema::{lemma_implicit_sizes_step, lemma_take_full};
use crate::residue::{alignment_check_from, borrow_requirement, lemma_borrowed_fields_aligned};
use vstd::arithmetic::div_mod::{
    lemma_fundamental_div_mod, lemma_mod_multiples_vanish, lemma_mod_self_0, lemma_small_mod,
};

verus! {

/// The presence of each implicit option in a record, in option order.
pub open spec fn presence_of(fields: Seq<FieldLayout>, data: Seq<FieldData>) -> Seq<bool>
    decreases fields.len(),
{
    if fields.len() == 0 {
        Seq::empty()
    } else {
        let prev = presence_of(fields.drop_last(), data.take(fields.len() - 1));
        match fields.last() {
            FieldLayout::Value { optional: OptionalKind::Implicit(_), .. } => prev.push(
                data[fields.len() - 1] matches FieldData::Optional(Some(_)),
            ),
            _ => prev,
        }
    }
}

/// Whether the payload of a field whose slot starts at `off`, in a buffer
/// whose address is `base` modulo 8, is aligned as a borrowed view of it
/// needs.
pub open spec fn payload_aligned(f: FieldLayout, d: FieldData, off: nat, base: nat) -> bool {
    match (f, d) {
        (FieldLayout::Value { value, optional: OptionalKind::No }, _) => value.spec_is_borrowed()
            ==> (base + off) % value.spec_align() == 0,
        (FieldLayout::Value { value, optional: OptionalKind::Tagged }, FieldData::Optional(Some(_))) => {
            value.spec_is_borrowed() ==> (base + off + 1) % value.spec_align() == 0
        },
        (
            FieldLayout::Value { value, optional: OptionalKind::Implicit(_) },
            FieldData::Optional(Some(_)),
        ) => value.spec_is_borrowed() ==> (base + off) % value.spec_align() == 0,
        (FieldLayout::Vec { elem, len_width }, FieldData::Items(items)) => elem.spec_align() > 1
            && items.len() != 0 ==> (base + off + len_width) % (elem.spec_align() as int) == 0,
        _ => true,
    }
}

/// Whether every payload of the encoding of `data`, placed at an address
/// that is `base` modulo 8, is aligned as borrowed views need.
pub open spec fn payloads_aligned(fields: Seq<FieldLayout>, data: Seq<FieldData>, base: nat) -> bool {
    forall|i: int|
        0 <= i < fields.len() ==> payload_aligned(
            fields[i],
            data[i],
            encoding(fields.take(i), data.take(i)).len(),
            base,
        )
}


pub proof fn lemma_flatten_item(items: Seq<Seq<u8>>, size: nat, k: int)
    requires
        forall|i: int| 0 <= i < items.len() ==> #[trigger] items[i].len() == size,
        0 <= k < items.len(),
    ensures
        0 <= k * size,
        (k + 1) * size <= flatten(items).len(),
        flatten(items).subrange(k * size, (k + 1) * size) == items[k],
    decreases items.len(),
{
    let last = items.len() - 1;
    lemma_flatten_len(items, size);
    lemma_flatten_len(items.drop_last(), size);
    assert(0 <= k * size) by (nonlinear_arith)
        requires
            0 <= k,
    ;
    assert((k + 1) * size <= items.len() * size) by (nonlinear_arith)
        requires
            k < items.len(),
    ;
    assert((k + 1) * size == k * size + size) by (nonlinear_arith);
    assert(items.len() * size == (items.len() - 1) * size + size) by (nonlinear_arith);
    if k < last {
        lemma_flatten_item(items.drop_last(), size, k);
        assert((k + 1) * size <= last * size) by (nonlinear_arith)
            requires
                k + 1 <= last,
        ;
        assert(flatten(items).subrange(k * size, (k + 1) * size) =~= flatten(
            items.drop_last(),
        ).subrange(k * size, (k + 1) * size));
    } else {
        assert(flatten(items).subrange(k * size, (k + 1) * size) =~= items.last());
    }
}

/// One slot written by the encoder reads back as its value.
pub proof fn lemma_slot_roundtrip(
    f: FieldLayout,
    d: FieldData,
    bytes: Seq<u8>,
    off: nat,
    pres: Seq<bool>,
    base: nat,
)
    requires
        field_wf(f),
        data_shape_ok(f, d),
        data_fits(f, d),
        payload_aligned(f, d, off, base),
        d matches FieldData::Items(items) ==> items.len() <= usize::MAX,
        off + slot_encoding(f, d).len() <= bytes.len(),
        bytes.subrange(off as int, off as int + slot_encoding(f, d).len()) == slot_encoding(f, d),
        f matches FieldLayout::Value { optional: OptionalKind::Implicit(bit), .. } ==> bit
            < pres.len() && pres[bit as int] == (d matches FieldData::Optional(Some(_))),
    ensures
        validate_slot(f, bytes, off, pres, base) == Ok::<nat, crate::error::DataLayoutError>(
            off + slot_encoding(f, d).len(),
        ),
        slot_end(f, bytes, off, pres) == off + slot_encoding(f, d).len(),
        slot_data(f, bytes, off, pres) == d,
{
    let slot = slot_encoding(f, d);
    let end = off + slot.len();
    assert forall|k: int| 0 <= k < slot.len() implies bytes[off + k] == #[trigger] slot[k] by {
        assert(bytes.subrange(off as int, end as int)[k] == bytes[off + k]);
    }
    match f {
        FieldLayout::Value { value, optional } => {
            match optional {
                OptionalKind::No => {
                    assert(bytes.subrange(off as int, off as int + value.spec_size()) =~= slot);
                },
                OptionalKind::Tagged => {
                    match d {
                        FieldData::Optional(Some(p)) => {
                            assert(slot == seq![1u8] + p);
                            assert(slot[0] == 1u8);
                            assert forall|k: int| 0 <= k < p.len() implies bytes[off + 1 + k] == p[k] by {
                                assert(slot[k + 1] == p[k]);
                                assert(bytes[off + (k + 1)] == slot[k + 1]);
                            }
                            assert(bytes.subrange(off as int + 1, off as int + 1 + value.spec_size()) =~= p);
                        },
                        _ => {
                            assert(slot[0] == 0u8);
                        },
                    }
                },
                OptionalKind::Implicit(_) => {
                    match d {
                        FieldData::Optional(Some(p)) => {
                            assert(bytes.subrange(off as int, off as int + value.spec_size()) =~= p);
                        },
                        _ => {},
                    }
                },
            }
        },
        FieldLayout::Vec { elem, len_width } => {
            match d {
                FieldData::Items(items) => {
                    let n = items.len();
                    let size = elem.spec_size();
                    let lw = len_width as nat;
                    lemma_le_bytes_len(n, lw);
                    lemma_flatten_len(items, size);
                    assert(n < byte_range(lw)) by {
                        lemma_byte_range_values();
                        if lw < 8 {
                            crate::bytes::lemma_byte_range_step(lw);
                        } else {
                            assert(lw == 8);
                        }
                    }
                    lemma_le_roundtrip(n, lw);
                    assert(bytes.subrange(off as int, off as int + lw) =~= le_bytes(n, lw));
                    assert(header_count(bytes, off, lw) == n);
                    assert(n * size == size * n) by (nonlinear_arith);
                    let data = off + lw;
                    let flat = flatten(items);
                    assert(slot == le_bytes(n, lw) + flat);
                    assert forall|j: int| 0 <= j < flat.len() implies bytes[data + j] == flat[j] by {
                        assert(slot[lw + j] == flat[j]);
                        assert(bytes[off + (lw + j)] == slot[lw + j]);
                    }
                    let got = Seq::new(
                        n,
                        |k: int| bytes.subrange(data + k * size, data + (k + 1) * size),
                    );
                    assert forall|k: int| 0 <= k < n implies #[trigger] got[k] == items[k] by {
                        assert forall|i: int| 0 <= i < items.len() implies #[trigger] items[i].len()
                            == size by {
                            assert(payload_ok(elem, items[i]));
                        }
                        lemma_flatten_item(items, size, k);
                        assert((k + 1) * size == k * size + size) by (nonlinear_arith);
                        assert(data + flat.len() <= bytes.len());
                        assert forall|m: int| 0 <= m < size implies bytes.subrange(
                            data + k * size,
                            data + (k + 1) * size,
                        )[m] == #[trigger] flat.subrange(k * size, (k + 1) * size)[m] by {
                            let j = k * size + m;
                            assert((k + 1) * size == k * size + size) by (nonlinear_arith);
                            assert(0 <= j < flat.len());
                            assert(bytes[data + j] == flat[j]);
                            assert(data + k * size + m == data + j);
                        }
                        assert(bytes.subrange(data + k * size, data + (k + 1) * size) =~= flatten(
                            items,
                        ).subrange(k * size, (k + 1) * size));
                    }
                    assert(got =~= items);
                },
                _ => {},
            }
        },
    }
}

} // verus!

verus! {

pub proof fn lemma_encoding_prefix(fields: Seq<FieldLayout>, data: Seq<FieldData>, i: int)
    requires
        0 <= i <= fields.len(),
        data.len() == fields.len(),
    ensures
        encoding(fields.take(i), data.take(i)).len() <= encoding(fields, data).len(),
        encoding(fields, data).take(encoding(fields.take(i), data.take(i)).len() as int)
            == encoding(fields.take(i), data.take(i)),
    decreases fields.len() - i,
{
    if i < fields.len() {
        lemma_encoding_prefix(fields, data, i + 1);
        lemma_encoding_step(fields, data, i);
        let a = encoding(fields.take(i), data.take(i));
        let b = encoding(fields.take(i + 1), data.take(i + 1));
        let full = encoding(fields, data);
        assert(full.take(a.len() as int) =~= b.take(a.len() as int));
        assert(b.take(a.len() as int) =~= a);
    } else {
        lemma_encoding_full(fields, data);
        let full = encoding(fields, data);
        assert(full.take(full.len() as int) =~= full);
    }
}

pub proof fn lemma_presence_step(fields: Seq<FieldLayout>, data: Seq<FieldData>, i: int)
    requires
        0 <= i < fields.len(),
        data.len() == fields.len(),
    ensures
        presence_of(fields.take(i + 1), data.take(i + 1)) == match fields[i] {
            FieldLayout::Value { optional: OptionalKind::Implicit(_), .. } => presence_of(
                fields.take(i),
                data.take(i),
            ).push(data[i] matches FieldData::Optional(Some(_))),
            _ => presence_of(fields.take(i), data.take(i)),
        },
{
    assert(fields.take(i + 1).drop_last() =~= fields.take(i));
    assert(data.take(i + 1).take(i) =~= data.take(i));
}

pub proof fn lemma_presence_prefix(fields: Seq<FieldLayout>, data: Seq<FieldData>, i: int)
    requires
        0 <= i <= fields.len(),
        data.len() == fields.len(),
    ensures
        presence_of(fields.take(i), data.take(i)).len() == implicit_sizes(fields.take(i)).len(),
        presence_of(fields.take(i), data.take(i)).len() <= presence_of(fields, data).len(),
        presence_of(fields, data).take(presence_of(fields.take(i), data.take(i)).len() as int)
            == presence_of(fields.take(i), data.take(i)),
    decreases fields.len() - i,
{
    if i < fields.len() {
        lemma_presence_prefix(fields, data, i + 1);
        lemma_presence_step(fields, data, i);
        lemma_implicit_sizes_step(fields, i);
        let a = presence_of(fields.take(i), data.take(i));
        let b = presence_of(fields.take(i + 1), data.take(i + 1));
        let full = presence_of(fields, data);
        assert(full.take(a.len() as int) =~= b.take(a.len() as int));
        assert(b.take(a.len() as int) =~= a);
    } else {
        lemma_take_full(fields);
        lemma_take_full(data);
        lemma_presence_len(fields, data);
        let full = presence_of(fields, data);
        assert(full.take(full.len() as int) =~= full);
    }
}

pub proof fn lemma_presence_len(fields: Seq<FieldLayout>, data: Seq<FieldData>)
    ensures
        presence_of(fields, data).len() == implicit_sizes(fields).len(),
    decreases fields.len(),
{
    if fields.len() > 0 {
        lemma_presence_len(fields.drop_last(), data.take(fields.len() - 1));
    }
}

/// The presence flag of the implicit option of field `i` in a record.
pub proof fn lemma_presence_bit(fields: Seq<FieldLayout>, data: Seq<FieldData>, i: int)
    requires
        0 <= i < fields.len(),
        data.len() == fields.len(),
        bits_ok(fields),
    ensures
        fields[i] matches FieldLayout::Value { optional: OptionalKind::Implicit(bit), .. } ==> bit
            < presence_of(fields, data).len() && presence_of(fields, data)[bit as int] == (
        data[i] matches FieldData::Optional(Some(_))),
{
    match fields[i] {
        FieldLayout::Value { optional: OptionalKind::Implicit(bit), .. } => {
            lemma_presence_prefix(fields, data, i);
            lemma_presence_prefix(fields, data, i + 1);
            lemma_presence_step(fields, data, i);
            let a = presence_of(fields.take(i), data.take(i));
            let b = presence_of(fields.take(i + 1), data.take(i + 1));
            let full = presence_of(fields, data);
            assert(bit == a.len());
            assert(b[bit as int] == full.take(b.len() as int)[bit as int]);
        },
        _ => {},
    }
}

/// Checking the encoder's output from any field on succeeds.
pub proof fn lemma_validate_encoding_from(
    fields: Seq<FieldLayout>,
    data: Seq<FieldData>,
    base: nat,
    i: int,
)
    requires
        forall|j: int| 0 <= j < fields.len() ==> field_wf(#[trigger] fields[j]),
        bits_ok(fields),
        shapes_ok(fields, data),
        all_fit(fields, data),
        counts_fit(fields, data),
        payloads_aligned(fields, data, base),
        0 <= i <= fields.len(),
    ensures
        validate_from(
            fields,
            encoding(fields, data),
            presence_of(fields, data),
            i as nat,
            encoding(fields.take(i), data.take(i)).len(),
            base,
        ) == Ok::<nat, crate::error::DataLayoutError>(encoding(fields, data).len()),
        slot_start(fields, encoding(fields, data), presence_of(fields, data), i as nat)
            == encoding(fields.take(i), data.take(i)).len(),
        i < fields.len() ==> decoded_field(
            fields,
            encoding(fields, data),
            presence_of(fields, data),
            i as nat,
        ) == data[i],
    decreases fields.len() - i,
{
    let bytes = encoding(fields, data);
    let pres = presence_of(fields, data);
    lemma_slot_starts(fields, data, base, i);
    if i < fields.len() {
        lemma_validate_encoding_from(fields, data, base, i + 1);
        lemma_slot_at(fields, data, base, i);
    } else {
        lemma_encoding_full(fields, data);
    }
}

/// The slot of field `i` in the encoder's output reads back as its value.
#[verifier::rlimit(40)]
pub proof fn lemma_slot_at(fields: Seq<FieldLayout>, data: Seq<FieldData>, base: nat, i: int)
    requires
        forall|j: int| 0 <= j < fields.len() ==> field_wf(#[trigger] fields[j]),
        bits_ok(fields),
        shapes_ok(fields, data),
        all_fit(fields, data),
        counts_fit(fields, data),
        payloads_aligned(fields, data, base),
        0 <= i < fields.len(),
    ensures
        ({
            let off = encoding(fields.take(i), data.take(i)).len();
            let bytes = encoding(fields, data);
            let pres = presence_of(fields, data);
            &&& validate_slot(fields[i], bytes, off, pres, base) == Ok::<
                nat,
                crate::error::DataLayoutError,
            >(encoding(fields.take(i + 1), data.take(i + 1)).len())
            &&& slot_end(fields[i], bytes, off, pres) == encoding(
                fields.take(i + 1),
                data.take(i + 1),
            ).len()
            &&& slot_data(fields[i], bytes, off, pres) == data[i]
        }),
{
    let bytes = encoding(fields, data);
    let pres = presence_of(fields, data);
    let off = encoding(fields.take(i), data.take(i)).len();
    let next = encoding(fields.take(i + 1), data.take(i + 1));
    let slot = slot_encoding(fields[i], data[i]);
    lemma_encoding_step(fields, data, i);
    lemma_encoding_prefix(fields, data, i + 1);
    lemma_presence_bit(fields, data, i);
    let end = off + slot.len();
    assert(bytes.subrange(off as int, end as int) == slot) by {
        assert(bytes.subrange(off as int, end as int) =~= bytes.take(next.len() as int).subrange(
            off as int,
            end as int,
        ));
        assert(next.subrange(off as int, end as int) =~= slot);
    }
    let f = fields[i];
    let d = data[i];
    assert(field_wf(f));
    assert(data_shape_ok(f, d));
    assert(data_fits(f, d));
    assert(payload_aligned(f, d, off, base));
    assert(d matches FieldData::Items(items) ==> items.len() <= usize::MAX);
    lemma_slot_roundtrip(f, d, bytes, off, pres, base);
}

/// Every slot of the encoder's output starts where the encoding of the fields
/// before it ends.
pub proof fn lemma_slot_starts(fields: Seq<FieldLayout>, data: Seq<FieldData>, base: nat, i: int)
    requires
        forall|j: int| 0 <= j < fields.len() ==> field_wf(#[trigger] fields[j]),
        bits_ok(fields),
        shapes_ok(fields, data),
        all_fit(fields, data),
        counts_fit(fields, data),
        payloads_aligned(fields, data, base),
        0 <= i <= fields.len(),
    ensures
        slot_start(fields, encoding(fields, data), presence_of(fields, data), i as nat)
            == encoding(fields.take(i), data.take(i)).len(),
    decreases i,
{
    if i > 0 {
        lemma_slot_starts(fields, data, base, i - 1);
        lemma_slot_at(fields, data, base, i - 1);
    } else {
        assert(encoding(fields.take(0), data.take(0)) == Seq::<u8>::empty());
    }
}

} // verus!

verus! {

pub proof fn lemma_no_implicit(fields: Seq<FieldLayout>)
    requires
        forall|i: int|
            0 <= i < fields.len() ==> !(#[trigger] fields[i] matches FieldLayout::Value {
                optional: OptionalKind::Implicit(_),
                ..
            }),
    ensures
        implicit_sizes(fields) == Seq::<nat>::empty(),
    decreases fields.len(),
{
    if fields.len() > 0 {
        let prev = fields.drop_last();
        assert forall|i: int| 0 <= i < prev.len() implies !(#[trigger] prev[i] matches FieldLayout::Value {
            optional: OptionalKind::Implicit(_),
            ..
        }) by {
            assert(prev[i] == fields[i]);
        }
        lemma_no_implicit(prev);
        assert(!(fields[fields.len() - 1] matches FieldLayout::Value {
            optional: OptionalKind::Implicit(_),
            ..
        }));
    }
}

/// The payload total of a presence combination only reads the sizes of the
/// options it covers.
pub proof fn lemma_subset_sum_same(a: Seq<nat>, b: Seq<nat>, p: Seq<bool>)
    requires
        p.len() <= a.len(),
        p.len() <= b.len(),
        forall|k: int| 0 <= k < p.len() ==> a[k] == b[k],
    ensures
        subset_sum(a, p) == subset_sum(b, p),
    decreases p.len(),
{
    if p.len() > 0 {
        lemma_subset_sum_same(a, b, p.drop_last());
    }
}

/// Without `Vec` and tagged fields, the encoding is the smallest encoding plus
/// the payloads of the present implicit options.
pub proof fn lemma_implicit_length(fields: Seq<FieldLayout>, data: Seq<FieldData>, i: int)
    requires
        shapes_ok(fields, data),
        forall|j: int|
            0 <= j < fields.len() ==> !(#[trigger] fields[j] is Vec) && !(fields[j] matches FieldLayout::Value {
                optional: OptionalKind::Tagged,
                ..
            }),
        0 <= i <= fields.len(),
    ensures
        encoding(fields.take(i), data.take(i)).len() == min_len(fields.take(i)) + subset_sum(
            implicit_sizes(fields.take(i)),
            presence_of(fields.take(i), data.take(i)),
        ),
    decreases i,
{
    if i > 0 {
        lemma_implicit_length(fields, data, i - 1);
        lemma_encoding_step(fields, data, i - 1);
        lemma_presence_step(fields, data, i - 1);
        lemma_implicit_sizes_step(fields, i - 1);
        lemma_presence_prefix(fields, data, i - 1);
        let s0 = implicit_sizes(fields.take(i - 1));
        let p0 = presence_of(fields.take(i - 1), data.take(i - 1));
        assert(data_shape_ok(fields[i - 1], data[i - 1]));
        match fields[i - 1] {
            FieldLayout::Value { value, optional: OptionalKind::Implicit(_) } => {
                let s1 = s0.push(value.spec_size());
                let b = data[i - 1] matches FieldData::Optional(Some(_));
                let p1 = p0.push(b);
                assert(p1.drop_last() =~= p0);
                lemma_subset_sum_same(s1, s0, p0);
            },
            _ => {},
        }
    } else {
        assert(fields.take(0) =~= Seq::<FieldLayout>::empty());
        assert(data.take(0) =~= Seq::<FieldData>::empty());
    }
}

/// Decoding what the encoder wrote succeeds, takes every byte, and reads back
/// the value of every field.
///
/// This holds when the payloads of borrowed fields are aligned at the address
/// the buffer is placed at (see `lemma_accepted_payloads_aligned` for when an
/// accepted layout guarantees it) and the buffer starts where the layout
/// expects it.
pub proof fn lemma_decode_encode(l: &VariableLayout, data: Seq<FieldData>, address_mod_8: nat)
    requires
        l.wf(),
        shapes_ok(l@.fields, data),
        all_fit(l@.fields, data),
        counts_fit(l@.fields, data),
        payloads_aligned(l@.fields, data, address_mod_8),
        l@.buffer_offset matches BufferOffset::Fixed(b) ==> address_mod_8 == b,
    ensures
        ({
            let bytes = encoding(l@.fields, data);
            let pres = presence_of(l@.fields, data);
            &&& decode_len(l@, bytes, address_mod_8) == Ok::<nat, crate::error::DataLayoutError>(
                bytes.len(),
            )
            &&& presence_for(l@, bytes.len()) == Some(pres)
            &&& forall|i: int|
                0 <= i < l@.fields.len() ==> decoded_field(l@.fields, bytes, pres, i as nat)
                    == #[trigger] data[i]
        }),
{
    l.lemma_wf();
    let fields = l@.fields;
    let bytes = encoding(fields, data);
    let pres = presence_of(fields, data);
    lemma_validate_encoding_from(fields, data, address_mod_8, 0);
    assert(encoding(fields.take(0), data.take(0)) == Seq::<u8>::empty()) by {
        assert(fields.take(0) =~= Seq::<FieldLayout>::empty());
    }
    assert forall|i: int| 0 <= i < fields.len() implies decoded_field(fields, bytes, pres, i as nat)
        == #[trigger] data[i] by {
        lemma_validate_encoding_from(fields, data, address_mod_8, i);
    }
    lemma_presence_len(fields, data);
    if l@.option_encoding == OptionEncoding::Tagged {
        assert forall|i: int| 0 <= i < fields.len() implies !(#[trigger] fields[i] matches FieldLayout::Value {
            optional: OptionalKind::Implicit(_),
            ..
        }) by {
            assert(options_match(fields, l@.option_encoding));
        }
        lemma_no_implicit(fields);
        assert(pres =~= Seq::<bool>::empty());
    } else {
        assert forall|j: int|
            0 <= j < fields.len() implies !(#[trigger] fields[j] is Vec) && !(fields[j] matches FieldLayout::Value {
            optional: OptionalKind::Tagged,
            ..
        }) by {
            assert(options_match(fields, l@.option_encoding));
        }
        lemma_implicit_length(fields, data, fields.len() as int);
        lemma_take_full(fields);
        lemma_take_full(data);
        assert(implicit_presence_ok(fields, bytes.len(), pres));
        let c = choose|p: Seq<bool>| implicit_presence_ok(fields, bytes.len(), p);
        assert(implicit_presence_ok(fields, bytes.len(), c));
        assert(c == pres);
    }
}

} // verus!

verus! {

/// In an accepted layout, the encoder's payloads are aligned when the
/// encoding is placed where the layout expects it.
pub proof fn lemma_accepted_payloads_aligned(l: LayoutSpec, data: Seq<FieldData>, base: nat)
    requires
        fields_wf(l),
        alignment_check_from(l.fields, l.buffer_offset, 0) is Ok,
        l.buffer_offset matches BufferOffset::Fixed(b) ==> base == b,
        shapes_ok(l.fields, data),
        all_fit(l.fields, data),
    ensures
        payloads_aligned(l.fields, data, base),
{
    let fields = l.fields;
    assert forall|i: int| 0 <= i < fields.len() implies payload_aligned(
        fields[i],
        data[i],
        encoding(fields.take(i), data.take(i)).len(),
        base,
    ) by {
        lemma_borrowed_fields_aligned(fields, l.buffer_offset, data, i);
        let off = encoding(fields.take(i), data.take(i)).len();
        assert(field_wf(fields[i]));
        match borrow_requirement(fields[i]) {
            Some((a, shift)) => {
                assert(a > 0) by {
                    assert(fields[i] matches FieldLayout::Value { value, .. } ==> value.wf());
                }
                match l.buffer_offset {
                    BufferOffset::Fixed(b) => {
                        assert((b + off + shift) % (a as int) == 0);
                    },
                    BufferOffset::Unaligned => {
                        assert(a == 1);
                        vstd::arithmetic::div_mod::lemma_mod_bound((base + off) as int, 1);
                        vstd::arithmetic::div_mod::lemma_mod_bound((base + off + 1) as int, 1);
                        vstd::arithmetic::div_mod::lemma_mod_bound((base + off + shift) as int, 1);
                    },
                }
            },
            None => {},
        }
    }
}

/// What a read gives back of a write: in a layout that `new` accepted,
/// decoding the output of `encode` from a buffer placed where the layout
/// expects succeeds, covers every byte, and reads back the value of every
/// field. Its premises on the record are those `encode` states of every
/// record it encodes: shapes that match, values that fit, and `Vec` values
/// of at most `usize::MAX` elements.
pub proof fn lemma_roundtrip(l: &VariableLayout, data: Seq<FieldData>, address_mod_8: nat)
    requires
        l.wf(),
        alignment_check_from(l@.fields, l@.buffer_offset, 0) is Ok,
        shapes_ok(l@.fields, data),
        all_fit(l@.fields, data),
        counts_fit(l@.fields, data),
        l@.buffer_offset matches BufferOffset::Fixed(b) ==> address_mod_8 == b,
    ensures
        ({
            let bytes = encoding(l@.fields, data);
            let pres = presence_of(l@.fields, data);
            &&& decode_len(l@, bytes, address_mod_8) == Ok::<nat, crate::error::DataLayoutError>(
                bytes.len(),
            )
            &&& presence_for(l@, bytes.len()) == Some(pres)
            &&& forall|i: int|
                0 <= i < l@.fields.len() ==> decoded_field(l@.fields, bytes, pres, i as nat)
                    == #[trigger] data[i]
        }),
{
    l.lemma_wf();
    lemma_accepted_payloads_aligned(l@, data, address_mod_8);
    lemma_decode_encode(l, data, address_mod_8);
}


/// Checking a buffer with more bytes after the checked slots gives the same
/// result.
pub proof fn lemma_validate_extend(
    fields: Seq<FieldLayout>,
    bytes: Seq<u8>,
    extra: Seq<u8>,
    present: Seq<bool>,
    i: nat,
    off: nat,
    n: nat,
    base: nat,
)
    requires
        validate_from(fields, bytes, present, i, off, base) == Ok::<
            nat,
            crate::error::DataLayoutError,
        >(n),
        off <= bytes.len(),
    ensures
        validate_from(fields, bytes + extra, present, i, off, base) == Ok::<
            nat,
            crate::error::DataLayoutError,
        >(n),
    decreases fields.len() - i,
{
    if i < fields.len() {
        let f = fields[i as int];
        let b2 = bytes + extra;
        crate::decode::lemma_validate_slot_end(f, bytes, off, present, base);
        let m = slot_end(f, bytes, off, present);
        lemma_validate_extend(fields, bytes, extra, present, i + 1, m, n, base);
        match f {
            FieldLayout::Vec { elem, len_width } => {
                assert(b2.subrange(off as int, off + len_width) =~= bytes.subrange(
                    off as int,
                    off + len_width,
                ));
                let c = header_count(bytes, off, len_width as nat);
                assert(c * elem.spec_size() >= 0) by (nonlinear_arith);
            },
            FieldLayout::Value { optional: OptionalKind::Tagged, .. } => {
                assert(b2[off as int] == bytes[off as int]);
            },
            _ => {},
        }
        assert(validate_slot(f, b2, off, present, base) == validate_slot(f, bytes, off, present, base));
    }
}

/// Layouts with tagged options are self-delimiting: the length a check finds
/// at the front of a buffer does not depend on the bytes after it. So
/// `decode_prefix` on an encoding followed by any bytes finds the encoding
/// and hands the bytes after it back.
pub proof fn lemma_prefix_delimits(l: LayoutSpec, bytes: Seq<u8>, extra: Seq<u8>, address_mod_8: nat)
    requires
        l.option_encoding == OptionEncoding::Tagged,
        decode_len(l, bytes, address_mod_8) is Ok,
    ensures
        decode_len(l, bytes + extra, address_mod_8) == decode_len(l, bytes, address_mod_8),
{
    let n = decode_len(l, bytes, address_mod_8)->Ok_0;
    lemma_validate_extend(l.fields, bytes, extra, Seq::empty(), 0, 0, n, address_mod_8);
}

/// Decoding the encoding of `data` followed by any bytes, with a layout
/// whose options are tagged, finds exactly the encoding: `decode_prefix`
/// gives a view of the encoding's bytes and hands back the bytes after it,
/// and `decode` succeeds only when there are none.
pub proof fn lemma_prefix_roundtrip(
    l: &VariableLayout,
    data: Seq<FieldData>,
    extra: Seq<u8>,
    address_mod_8: nat,
)
    requires
        l.wf(),
        l@.option_encoding == OptionEncoding::Tagged,
        alignment_check_from(l@.fields, l@.buffer_offset, 0) is Ok,
        shapes_ok(l@.fields, data),
        all_fit(l@.fields, data),
        counts_fit(l@.fields, data),
        l@.buffer_offset matches BufferOffset::Fixed(b) ==> address_mod_8 == b,
    ensures
        ({
            let enc = encoding(l@.fields, data);
            &&& decode_len(l@, enc + extra, address_mod_8) == Ok::<
                nat,
                crate::error::DataLayoutError,
            >(enc.len())
            &&& (enc + extra).take(enc.len() as int) == enc
            &&& (enc + extra).skip(enc.len() as int) == extra
            &&& (enc.len() == (enc + extra).len() <==> extra.len() == 0)
        }),
{
    let enc = encoding(l@.fields, data);
    lemma_roundtrip(l, data, address_mod_8);
    lemma_prefix_delimits(l@, enc, extra, address_mod_8);
    assert((enc + extra).take(enc.len() as int) =~= enc);
    assert((enc + extra).skip(enc.len() as int) =~= extra);
}


/// With implicit options, the length says which options are present: in a
/// layout that `new` accepted, two records whose options differ in presence
/// encode to different lengths.
pub proof fn lemma_implicit_lengths_distinct(
    l: &VariableLayout,
    d1: Seq<FieldData>,
    d2: Seq<FieldData>,
)
    requires
        l.wf(),
        l@.option_encoding == OptionEncoding::Implicit,
        shapes_ok(l@.fields, d1),
        shapes_ok(l@.fields, d2),
        presence_of(l@.fields, d1) != presence_of(l@.fields, d2),
    ensures
        encoding(l@.fields, d1).len() != encoding(l@.fields, d2).len(),
{
    l.lemma_wf();
    let fields = l@.fields;
    assert forall|j: int|
        0 <= j < fields.len() implies !(#[trigger] fields[j] is Vec) && !(fields[j] matches FieldLayout::Value {
        optional: OptionalKind::Tagged,
        ..
    }) by {
        assert(options_match(fields, l@.option_encoding));
    }
    let n = fields.len() as int;
    lemma_implicit_length(fields, d1, n);
    lemma_implicit_length(fields, d2, n);
    lemma_take_full(fields);
    lemma_take_full(d1);
    lemma_take_full(d2);
    lemma_presence_len(fields, d1);
    lemma_presence_len(fields, d2);
}

} // verus!
