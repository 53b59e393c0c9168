use vstd::prelude::*;
use crate::bytes::{byte_range, le_bytes, lemma_byte_range_values};
use crate::fixed::{
    alignment_issue, alignment_issues, borrow_align, first_fixed_decl_error, fixed_accepts,
    fixed_data_len, fixed_decl_error, fixed_decodes, fixed_errors, fixed_max_len, fixed_offset,
    fixed_slot_encoding, fixed_slot_len, has_flexible, lemma_no_decl_error, lemma_offset_monotonic,
    padded_offset, padding_at, payload_shift, read_layout, zeros, FixedDecl, FixedSchemaError,
};
use crate::value::{flatten, FieldData, ValueKind};
use crate::variable::FieldLayout;

verus! {

/// The width of the length header of a `Vec` with room for `capacity`
/// elements: one byte up to a capacity of 255, else two.
pub open spec fn capacity_header(capacity: usize) -> nat {
    if capacity <= 255 {
        1
    } else {
        2
    }
}

/// A `Vec` slot with room for `capacity` elements takes a length header of
/// one byte when `capacity <= 255` and of two bytes otherwise, then the room
/// for the elements; it is written and read with that header.
pub proof fn lemma_vec_slot_header(elem: ValueKind, capacity: usize, items: Seq<Seq<u8>>)
    ensures
        fixed_slot_len((FixedDecl::Vec { elem, capacity })) == capacity_header(capacity)
            + elem.spec_size() * capacity,
        fixed_slot_encoding((FixedDecl::Vec { elem, capacity }), FieldData::Items(items))
            == le_bytes(items.len(), capacity_header(capacity)) + flatten(items) + zeros(
            ((capacity - items.len()) * elem.spec_size()) as nat,
        ),
        read_layout((FixedDecl::Vec { elem, capacity })) == (FieldLayout::Vec {
            elem,
            len_width: capacity_header(capacity) as usize,
        }),
{
}

/// The length of the largest encoding of a layout: the fixed part, plus for
/// a trailing flexible option its tag and payload, and for a trailing
/// flexible `Vec` its header and as many elements as the header can count
/// (255 for one byte, 65535 for two).
pub proof fn lemma_max_len(decls: Seq<FixedDecl>)
    ensures
        !has_flexible(decls) ==> fixed_max_len(decls) == fixed_data_len(decls),
        has_flexible(decls) ==> match decls.last() {
            FixedDecl::FlexibleOption(k) => fixed_max_len(decls) == fixed_data_len(decls) + 1
                + k.spec_size(),
            FixedDecl::FlexibleVec { elem, len_width } => (len_width == 1 ==> fixed_max_len(decls)
                == fixed_data_len(decls) + 1 + 255 * elem.spec_size()) && (len_width == 2
                ==> fixed_max_len(decls) == fixed_data_len(decls) + 2 + 65535 * elem.spec_size()),
            _ => true,
        },
{
    lemma_byte_range_values();
    if has_flexible(decls) {
        match decls.last() {
            FixedDecl::FlexibleVec { elem, len_width } => {
                if len_width == 1 {
                    assert(byte_range(1) - 1 == 255);
                }
                if len_width == 2 {
                    assert(byte_range(2) - 1 == 65535);
                }
            },
            _ => {},
        }
    }
}

/// Decoding accepts only inputs whose length lies between the smallest and
/// the largest encoding of the layout.
pub proof fn lemma_decode_length_bounds(decls: Seq<FixedDecl>, bytes: Seq<u8>, address_mod_8: nat)
    requires
        fixed_decodes(decls, bytes, address_mod_8),
    ensures
        fixed_data_len(decls) <= bytes.len() <= fixed_max_len(decls),
        address_mod_8 == 0,
{
}

/// Whether the payload of field `d` at `off`, when it is read by reference,
/// is placed where its alignment allows: a value of more than 8 bytes (a
/// plain one at the start of its slot, an option's after the tag byte) and
/// element 0 of any `Vec` (after its length header) must lie at a multiple of
/// an alignment of at most 8. Values of at most 8 bytes are copied and need
/// nothing.
pub open spec fn placed_well(d: FixedDecl, off: nat) -> bool {
    match d {
        FixedDecl::Value(k) => k.spec_size() > 8 ==> k.spec_align() <= 8 && off % k.spec_align()
            == 0,
        FixedDecl::Option(k) | FixedDecl::FlexibleOption(k) => k.spec_size() > 8 ==> k.spec_align()
            <= 8 && (off + 1) % k.spec_align() == 0,
        FixedDecl::Vec { elem, capacity } => elem.spec_align() <= 8 && (off + capacity_header(
            capacity,
        )) % elem.spec_align() == 0,
        FixedDecl::FlexibleVec { elem, len_width } => elem.spec_align() <= 8 && (off + len_width as nat)
            % elem.spec_align() == 0,
    }
}

/// Whether `d` is read by reference: a value of more than 8 bytes, or a
/// `Vec` (read as a slice of its elements).
pub open spec fn read_by_reference(d: FixedDecl) -> bool {
    match d {
        FixedDecl::Value(k) | FixedDecl::Option(k) | FixedDecl::FlexibleOption(k) => k.spec_size()
            > 8,
        _ => true,
    }
}

proof fn lemma_well_placed_no_issue(decls: Seq<FixedDecl>, k: int)
    requires
        0 <= k <= decls.len(),
        first_fixed_decl_error(decls, 0) is None,
        forall|i: int| 0 <= i < decls.len() ==> placed_well(#[trigger] decls[i], fixed_offset(decls, i)),
    ensures
        alignment_issues(decls, k).len() == 0,
        padded_offset(decls, k) == fixed_offset(decls, k),
    decreases k,
{
    if k > 0 {
        let i = k - 1;
        lemma_well_placed_no_issue(decls, i);
        lemma_no_decl_error(decls, 0, i as nat);
        let d = decls[i];
        let off = fixed_offset(decls, i);
        assert(placed_well(d, off));
        assert(fixed_decl_error(d, i as nat, decls.len()) is None);
        assert(padding_at(d, off) == 0 && alignment_issue(decls, i) is None) by {
            match d {
                FixedDecl::Value(v) | FixedDecl::Option(v) | FixedDecl::FlexibleOption(v) => {
                    assert(v.wf());
                },
                FixedDecl::Vec { elem, .. } | FixedDecl::FlexibleVec { elem, .. } => {
                    assert(elem.wf());
                },
            }
        }
    }
}

/// The fixed-offset check accepts every declaration list without a
/// declaration error whose largest encoding fits in `usize` and in which
/// every payload read by reference is placed where its alignment allows.
/// In particular, values of at most 8 bytes, plain or optional, never need
/// padding.
pub proof fn lemma_fixed_accepts_well_placed(decls: Seq<FixedDecl>)
    requires
        first_fixed_decl_error(decls, 0) is None,
        fixed_max_len(decls) <= usize::MAX,
        forall|i: int| 0 <= i < decls.len() ==> placed_well(#[trigger] decls[i], fixed_offset(decls, i)),
    ensures
        fixed_accepts(decls),
{
    lemma_well_placed_no_issue(decls, decls.len() as int);
}

/// Every alignment problem listed among the first `k` fields is that of one
/// of them.
proof fn lemma_issue_source(decls: Seq<FixedDecl>, k: int)
    requires
        0 <= k <= decls.len(),
    ensures
        forall|q: int|
            0 <= q < alignment_issues(decls, k).len() ==> exists|i: int|
                0 <= i < k && alignment_issue(decls, i) == Some(
                    #[trigger] alignment_issues(decls, k)[q],
                ),
    decreases k,
{
    if k > 0 {
        lemma_issue_source(decls, k - 1);
        let prev = alignment_issues(decls, k - 1);
        let cur = alignment_issues(decls, k);
        assert forall|q: int| 0 <= q < cur.len() implies exists|i: int|
            0 <= i < k && alignment_issue(decls, i) == Some(#[trigger] cur[q]) by {
            if q < prev.len() {
                assert(cur[q] == prev[q]);
                let i = choose|i: int| 0 <= i < k - 1 && alignment_issue(decls, i) == Some(prev[q]);
                assert(alignment_issue(decls, i) == Some(cur[q]));
            } else {
                assert(alignment_issue(decls, k - 1) == Some(cur[q]));
            }
        }
    }
}

/// Padding and alignment errors only ever name a field that is read by
/// reference: a field whose value is at most 8 bytes, plain or optional,
/// never gets `NeedsPadding` or `AlignmentAboveEight`.
pub proof fn lemma_padding_errors_name_references(decls: Seq<FixedDecl>)
    ensures
        forall|q: int|
            0 <= q < fixed_errors(decls).len() ==> match #[trigger] fixed_errors(decls)[q] {
                FixedSchemaError::NeedsPadding { field, .. }
                | FixedSchemaError::AlignmentAboveEight { field, .. } => exists|i: int|
                    0 <= i < decls.len() && field == i as usize && read_by_reference(
                        #[trigger] decls[i],
                    ),
                _ => true,
            },
{
    let n = decls.len() as int;
    lemma_issue_source(decls, n);
    let errs = fixed_errors(decls);
    assert forall|q: int| 0 <= q < errs.len() implies match #[trigger] errs[q] {
        FixedSchemaError::NeedsPadding { field, .. }
        | FixedSchemaError::AlignmentAboveEight { field, .. } => exists|i: int|
            0 <= i < decls.len() && field == i as usize && read_by_reference(#[trigger] decls[i]),
        _ => true,
    } by {
        match first_fixed_decl_error(decls, 0) {
            Some(e) => {
                lemma_decl_error_kind(decls, 0);
            },
            None => {
                if padded_offset(decls, n) <= usize::MAX && alignment_issues(decls, n).len() > 0 {
                    let i = choose|i: int|
                        0 <= i < n && alignment_issue(decls, i) == Some(alignment_issues(decls, n)[q]);
                    assert(borrow_align(decls[i]) is Some);
                    assert(read_by_reference(decls[i]));
                }
            },
        }
    }
}

/// Declaration errors are never alignment errors.
proof fn lemma_decl_error_kind(decls: Seq<FixedDecl>, i: nat)
    ensures
        first_fixed_decl_error(decls, i) matches Some(e) ==> !(e is NeedsPadding) && !(
        e is AlignmentAboveEight),
    decreases decls.len() - i,
{
    if i < decls.len() {
        lemma_decl_error_kind(decls, i + 1);
    }
}

/// The fixed-offset check is sound: in an accepted layout every payload read
/// by reference (a value of more than 8 bytes, element 0 of a `Vec`) lies at
/// a multiple of an alignment of at most 8.
pub proof fn lemma_accepted_well_placed(decls: Seq<FixedDecl>, i: int)
    requires
        fixed_accepts(decls),
        0 <= i < decls.len(),
    ensures
        placed_well(decls[i], fixed_offset(decls, i)),
{
    crate::fixed::lemma_no_issues_offsets(decls, decls.len() as int);
    lemma_no_decl_error(decls, 0, i as nat);
    let d = decls[i];
    let off = fixed_offset(decls, i);
    assert(alignment_issue(decls, i) is None);
    assert(padded_offset(decls, i) == off);
    assert(fixed_decl_error(d, i as nat, decls.len()) is None);
    match d {
        FixedDecl::Value(v) | FixedDecl::Option(v) | FixedDecl::FlexibleOption(v) => {
            assert(v.wf());
        },
        FixedDecl::Vec { elem, .. } | FixedDecl::FlexibleVec { elem, .. } => {
            assert(elem.wf());
        },
    }
}

} // verus!
