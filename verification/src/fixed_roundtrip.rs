use vstd::prelude::*;
use crate::bytes::{byte_range, lemma_byte_range_values};
use crate::decode::{header_count, slot_data};
use crate::fixed::{
    first_unfit, fixed_check, fixed_checks_ok, fixed_decl_error, fixed_decl_wf, fixed_decodes,
    fixed_encoding, fixed_field, fixed_len_ok, fixed_max_len, fixed_offset, flexible_absent,
    fixed_shape_ok, fixed_shapes_ok, fixed_slot_encoding, fixed_data_len, flexible_extra,
    has_flexible, header_width, is_flexible, lemma_aligned_payload,
    lemma_decl_wf, lemma_encoding_len, lemma_encoding_prefix_len, lemma_encoding_step,
    lemma_first_unfit_bounds, lemma_offset_monotonic, lemma_slot_len, read_layout, zeros,
    borrow_align, payload_shift, FixedDecl, FixedLayout,
};
use crate::roundtrip::{lemma_slot_roundtrip, payload_aligned};
use crate::value::{payload_ok, FieldData};
use crate::variable::{data_fits, data_shape_ok, slot_encoding};

verus! {

/// The slot of field `i` stands in the encoding at the field's offset.
proof fn lemma_slot_in_encoding(decls: Seq<FixedDecl>, data: Seq<FieldData>, i: int, k: int)
    requires
        0 <= i < k <= decls.len(),
        data.len() == decls.len(),
    ensures
        ({
            let a = fixed_encoding(decls.take(i), data.take(i)).len();
            let slot = fixed_slot_encoding(decls[i], data[i]);
            let enc = fixed_encoding(decls.take(k), data.take(k));
            &&& a + slot.len() <= enc.len()
            &&& enc.subrange(a as int, (a + slot.len()) as int) == slot
        }),
    decreases k - i,
{
    let a = fixed_encoding(decls.take(i), data.take(i)).len();
    let slot = fixed_slot_encoding(decls[i], data[i]);
    if k == i + 1 {
        lemma_encoding_step(decls, data, i);
        let enc = fixed_encoding(decls.take(k), data.take(k));
        assert(enc.subrange(a as int, (a + slot.len()) as int) =~= slot);
    } else {
        lemma_slot_in_encoding(decls, data, i, k - 1);
        lemma_encoding_step(decls, data, k - 1);
        let prev = fixed_encoding(decls.take(k - 1), data.take(k - 1));
        let enc = fixed_encoding(decls.take(k), data.take(k));
        assert(enc.subrange(a as int, (a + slot.len()) as int) =~= prev.subrange(a as int, (a + slot.len()) as int));
    }
}

/// What a field reads back is what its slot was written from.
proof fn lemma_fixed_slot_roundtrip(d: FixedDecl, x: FieldData, bytes: Seq<u8>, off: nat)
    requires
        fixed_decl_wf(d),
        fixed_shape_ok(d, x),
        first_unfit(seq![d], seq![x], 0) == 1,
        borrow_align(d) matches Some(a) ==> a >= 1 && (off + payload_shift(d)) % a == 0,
        is_flexible(d) ==> match (d, x) {
            (FixedDecl::FlexibleOption(_), FieldData::Optional(o)) => o is Some,
            (FixedDecl::FlexibleVec { len_width, .. }, FieldData::Items(items)) => 0 < items.len()
                < byte_range(len_width as nat),
            _ => false,
        },
        off + fixed_slot_encoding(d, x).len() <= bytes.len(),
        bytes.subrange(off as int, (off + fixed_slot_encoding(d, x).len()) as int) == fixed_slot_encoding(
            d,
            x,
        ),
    ensures
        slot_data(read_layout(d), bytes, off, Seq::empty()) == x,
        fixed_check(d, bytes, off),
{
    let f = read_layout(d);
    let fixed = fixed_slot_encoding(d, x);
    let var = slot_encoding(f, x);
    lemma_byte_range_values();
    assert(fixed_slot_encoding(d, x).len() >= var.len() && fixed.subrange(0, var.len() as int) == var)
        by {
        match (d, x) {
            (FixedDecl::Option(k), FieldData::Optional(None)) => {
                assert(fixed.subrange(0, 1) =~= seq![0u8]);
            },
            (FixedDecl::Vec { elem, capacity }, FieldData::Items(items)) => {
                assert(fixed == var + zeros(((capacity - items.len()) * elem.spec_size()) as nat));
                assert(fixed.subrange(0, var.len() as int) =~= var);
            },
            _ => {
                assert(fixed.subrange(0, var.len() as int) =~= var);
            },
        }
    }
    assert(bytes.subrange(off as int, (off + var.len()) as int) =~= var) by {
        assert(bytes.subrange(off as int, (off + var.len()) as int) =~= bytes.subrange(
            off as int,
            (off + fixed.len()) as int,
        ).subrange(0, var.len() as int));
    }
    assert(first_unfit(seq![d], seq![x], 0) == 1 ==> crate::fixed::fixed_fits(d, x)) by {
        assert(seq![d][0] == d);
        assert(seq![x][0] == x);
    }
    assert(data_shape_ok(f, x));
    assert(data_fits(f, x)) by {
        match (d, x) {
            (FixedDecl::Vec { capacity, .. }, FieldData::Items(items)) => {
                assert(crate::variable::capacity(header_width(capacity as nat)) == byte_range(
                    header_width(capacity as nat),
                ) - 1);
            },
            (FixedDecl::FlexibleVec { len_width, .. }, FieldData::Items(items)) => {
                assert(crate::variable::capacity(len_width as nat) == byte_range(len_width as nat) - 1);
            },
            _ => {},
        }
    }
    assert(payload_aligned(f, x, off, 0));
    lemma_slot_roundtrip(f, x, bytes, off, Seq::empty(), 0);
    match (d, x) {
        (FixedDecl::Option(_), FieldData::Optional(_)) | (
            FixedDecl::FlexibleOption(_),
            FieldData::Optional(_),
        ) => {
            assert(bytes[off as int] == var[0]);
        },
        (FixedDecl::Vec { capacity, .. }, FieldData::Items(items)) => {
            let slot = slot_data(f, bytes, off, Seq::empty());
            assert(header_count(bytes, off, header_width(capacity as nat)) == items.len()) by {
                match slot {
                    FieldData::Items(got) => {
                        assert(got.len() == items.len());
                    },
                    _ => {},
                }
            }
        },
        (FixedDecl::FlexibleVec { elem, len_width }, FieldData::Items(items)) => {
            let slot = slot_data(f, bytes, off, Seq::empty());
            assert(header_count(bytes, off, len_width as nat) == items.len()) by {
                match slot {
                    FieldData::Items(got) => {
                        assert(got.len() == items.len());
                    },
                    _ => {},
                }
            }
            crate::bytes::lemma_le_bytes_len(items.len(), len_width as nat);
            assert forall|q: int| 0 <= q < items.len() implies #[trigger] items[q].len()
                == elem.spec_size() by {
                assert(payload_ok(elem, items[q]));
            }
            crate::value::lemma_flatten_len(items, elem.spec_size());
            assert(items.len() * elem.spec_size() == elem.spec_size() * items.len())
                by (nonlinear_arith);
        },
        _ => {},
    }
}

/// Decoding an encoding gives back every value that was encoded: for an
/// accepted layout and values that fit, the encoding is accepted by `decode`
/// at an 8-byte aligned address, and each field reads back as the value it
/// was written from (an absent or empty trailing flexible field included).
pub proof fn lemma_fixed_roundtrip(l: &FixedLayout, data: Seq<FieldData>)
    requires
        l.wf(),
        fixed_shapes_ok(l@, data),
        first_unfit(l@, data, 0) == l@.len(),
    ensures
        ({
            let enc = fixed_encoding(l@, data);
            &&& fixed_decodes(l@, enc, 0)
            &&& forall|i: int| 0 <= i < l@.len() ==> #[trigger] fixed_field(l@, enc, i) == data[i]
        }),
{
    let decls = l@;
    let n = decls.len() as int;
    let enc = fixed_encoding(decls, data);
    l.lemma_wf();
    assert forall|j: int| 0 <= j < n implies fixed_decl_wf(#[trigger] decls[j]) by {
        lemma_decl_wf(decls[j], j as nat, decls.len());
    }
    assert forall|j: int| 0 <= j < n - 1 implies !is_flexible(#[trigger] decls[j]) by {
        lemma_decl_wf(decls[j], j as nat, decls.len());
    }
    lemma_first_unfit_bounds(decls, data, 0);
    lemma_encoding_len(decls, data);
    assert(decls.take(n) =~= decls);
    assert(data.take(n) =~= data);
    assert forall|i: int| 0 <= i < n implies fixed_check(decls[i], enc, fixed_offset(decls, i))
        && #[trigger] fixed_field(decls, enc, i) == data[i] by {
        let d = decls[i];
        let x = data[i];
        let off = fixed_offset(decls, i);
        let slot = fixed_slot_encoding(d, x);
        lemma_encoding_prefix_len(decls, data, i);
        lemma_slot_in_encoding(decls, data, i, n);
        lemma_aligned_payload(decls, i);
        assert(crate::fixed::fixed_fits(decls[i], data[i]));
        let absent = match (d, x) {
            (FixedDecl::FlexibleOption(_), FieldData::Optional(o)) => o is None,
            (FixedDecl::FlexibleVec { .. }, FieldData::Items(items)) => items.len() == 0,
            _ => false,
        };
        if absent {
            assert(i == n - 1);
            assert(slot.len() == 0);
            assert(enc.len() == off) by {
                lemma_encoding_step(decls, data, n - 1);
            }
            match (d, x) {
                (FixedDecl::FlexibleVec { .. }, FieldData::Items(items)) => {
                    assert(items =~= Seq::<Seq<u8>>::empty());
                },
                _ => {},
            }
        } else {
            assert(first_unfit(seq![d], seq![x], 0) == 1) by {
                assert(seq![d][0] == d);
                assert(seq![x][0] == x);
                assert(first_unfit(seq![d], seq![x], 1) == 1);
            }
            lemma_fixed_slot_roundtrip(d, x, enc, off);
            if is_flexible(d) {
                assert(slot.len() > 0) by {
                    match (d, x) {
                        (FixedDecl::FlexibleVec { len_width, .. }, FieldData::Items(items)) => {
                            crate::bytes::lemma_le_bytes_len(items.len(), len_width as nat);
                        },
                        _ => {},
                    }
                }
                assert(!flexible_absent(decls, enc, i));
            }
        }
    }
    assert(fixed_len_ok(decls, enc.len())) by {
        if has_flexible(decls) {
            let last = decls[n - 1];
            lemma_byte_range_values();
            match (last, data[n - 1]) {
                (FixedDecl::FlexibleVec { elem, len_width }, FieldData::Items(items)) => {
                    assert(items.len() * elem.spec_size() <= (byte_range(len_width as nat) - 1)
                        * elem.spec_size()) by (nonlinear_arith)
                        requires
                            items.len() <= byte_range(len_width as nat) - 1,
                    ;
                },
                _ => {},
            }
        }
    }
    assert forall|j: int| 0 <= j < n implies #[trigger] fixed_check(
        decls[j],
        enc,
        fixed_offset(decls, j),
    ) by {
        assert(fixed_field(decls, enc, j) == data[j]);
    }
    assert(fixed_checks_ok(decls, enc, n));
}


/// Offsets do not depend on the values: in the encoding of any values that
/// fit an accepted layout, the slot of each field stands at that field's
/// constant offset, and every slot but a trailing flexible one has its
/// constant size.
pub proof fn lemma_fixed_offsets_stable(l: &FixedLayout, data: Seq<FieldData>, i: int)
    requires
        l.wf(),
        fixed_shapes_ok(l@, data),
        first_unfit(l@, data, 0) == l@.len(),
        0 <= i < l@.len(),
    ensures
        ({
            let off = fixed_offset(l@, i);
            let slot = fixed_slot_encoding(l@[i], data[i]);
            let enc = fixed_encoding(l@, data);
            &&& off + slot.len() <= enc.len()
            &&& enc.subrange(off as int, (off + slot.len()) as int) == slot
            &&& !is_flexible(l@[i]) ==> slot.len() == crate::fixed::fixed_slot_len(l@[i])
        }),
{
    let decls = l@;
    let n = decls.len() as int;
    l.lemma_wf();
    assert forall|j: int| 0 <= j < n implies fixed_decl_wf(#[trigger] decls[j]) by {
        lemma_decl_wf(decls[j], j as nat, decls.len());
    }
    assert forall|j: int| 0 <= j < n - 1 implies !is_flexible(#[trigger] decls[j]) by {
        lemma_decl_wf(decls[j], j as nat, decls.len());
    }
    lemma_first_unfit_bounds(decls, data, 0);
    lemma_encoding_prefix_len(decls, data, i);
    lemma_slot_in_encoding(decls, data, i, n);
    assert(decls.take(n) =~= decls);
    assert(data.take(n) =~= data);
    lemma_slot_len(decls[i], data[i]);
}

} // verus!
