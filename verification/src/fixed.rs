use vstd::prelude::*;
use crate::bytes::{byte_range, le_bytes, le_value, lemma_byte_range_values, lemma_le_value_bound, read_le};
use crate::copy::fill_zero;
use crate::decode::{header_count, slot_data, slot_read, validate_slot, FieldRead};
use crate::value::{
    flatten, items_view, payload_ok, values_view, FieldData, FieldValue, ValueKind, MAX_BORROW_ALIGN,
};
use crate::variable::{write_slot, FieldLayout, OptionalKind};

verus! {

/// The largest element count a `Vec` field of a fixed-offset layout can
/// declare or carry: its length header is at most two bytes.
pub const MAX_FIXED_CAPACITY: usize = 0xFFFF;

/// How a field of a fixed-offset layout is declared.
#[derive(Clone, Copy, Debug, PartialEq, Eq, Structural)]
pub enum FixedDecl {
    /// A plain field of the given kind.
    Value(ValueKind),
    /// An `Option<T>` field: a tag byte followed by room for the payload,
    /// reserved whether or not the value is present.
    Option(ValueKind),
    /// A trailing, flexible `Option<T>` field: the tag and payload are
    /// only stored when the value is present.
    FlexibleOption(ValueKind),
    /// A `Vec<T>` field with a capacity: a length header (one byte up to a
    /// capacity of `0xFF`, else two) followed by room for `capacity` elements.
    Vec { elem: ValueKind, capacity: usize },
    /// A trailing, flexible `Vec<T>` field: a `len_width`-byte (1 or 2)
    /// length header and the elements, stored only when the `Vec` is not
    /// empty.
    FlexibleVec { elem: ValueKind, len_width: usize },
}

/// Why a fixed-offset layout declaration is rejected.
#[derive(Clone, Copy, Debug, PartialEq, Eq, Structural)]
pub enum FixedSchemaError {
    /// A capacity above `0xFFFF`.
    CapacityTooLarge { field: usize },
    /// A flexible field that is not the last one.
    FlexibleNotLast { field: usize },
    /// A flexible `Vec` whose header width is not 1 or 2.
    InvalidFlexibleWidth { field: usize },
    /// `Vec<bool>` fields are not supported.
    VecOfBool { field: usize },
    /// An integer size or array alignment that no primitive has.
    InvalidValueKind { field: usize },
    /// A borrowed field, or the elements of a `Vec`, need more than 8-byte
    /// alignment.
    AlignmentAboveEight { field: usize, align: usize },
    /// A borrowed payload (or element 0 of a `Vec`) would start at offset
    /// `start`, which is not a multiple of `align`: `padding` bytes are
    /// needed before the field.
    NeedsPadding { field: usize, padding: usize, start: usize, align: usize },
    /// The largest encoding does not fit in `usize`.
    TooLarge,
}

/// Whether a declaration may only stand last.
pub open spec fn is_flexible(d: FixedDecl) -> bool {
    d is FlexibleOption || d is FlexibleVec
}

/// The width of the length header that a `Vec` of this capacity uses.
pub open spec fn header_width(capacity: nat) -> nat {
    if capacity <= 0xFF {
        1
    } else {
        2
    }
}

/// The error of the declaration at `i` among `n` fields, if any.
pub open spec fn fixed_decl_error(d: FixedDecl, i: nat, n: nat) -> Option<FixedSchemaError> {
    match d {
        FixedDecl::Value(k) | FixedDecl::Option(k) => if !k.wf() {
            Some(FixedSchemaError::InvalidValueKind { field: i as usize })
        } else {
            None
        },
        FixedDecl::FlexibleOption(k) => if i + 1 != n {
            Some(FixedSchemaError::FlexibleNotLast { field: i as usize })
        } else if !k.wf() {
            Some(FixedSchemaError::InvalidValueKind { field: i as usize })
        } else {
            None
        },
        FixedDecl::Vec { elem, capacity } => if capacity > MAX_FIXED_CAPACITY {
            Some(FixedSchemaError::CapacityTooLarge { field: i as usize })
        } else if elem is Bool {
            Some(FixedSchemaError::VecOfBool { field: i as usize })
        } else if !elem.wf() {
            Some(FixedSchemaError::InvalidValueKind { field: i as usize })
        } else {
            None
        },
        FixedDecl::FlexibleVec { elem, len_width } => if i + 1 != n {
            Some(FixedSchemaError::FlexibleNotLast { field: i as usize })
        } else if !(1 <= len_width <= 2) {
            Some(FixedSchemaError::InvalidFlexibleWidth { field: i as usize })
        } else if elem is Bool {
            Some(FixedSchemaError::VecOfBool { field: i as usize })
        } else if !elem.wf() {
            Some(FixedSchemaError::InvalidValueKind { field: i as usize })
        } else {
            None
        },
    }
}

/// The first declaration error from field `i` on.
pub open spec fn first_fixed_decl_error(decls: Seq<FixedDecl>, i: nat) -> Option<
    FixedSchemaError,
>
    decreases decls.len() - i,
{
    if i >= decls.len() {
        None
    } else {
        match fixed_decl_error(decls[i as int], i, decls.len()) {
            Some(e) => Some(e),
            None => first_fixed_decl_error(decls, i + 1),
        }
    }
}

/// The number of bytes the slot of a field reserves; flexible fields reserve
/// nothing.
pub open spec fn fixed_slot_len(d: FixedDecl) -> nat {
    match d {
        FixedDecl::Value(k) => k.spec_size(),
        FixedDecl::Option(k) => 1 + k.spec_size(),
        FixedDecl::Vec { elem, capacity } => header_width(capacity as nat) + elem.spec_size()
            * (capacity as nat),
        _ => 0,
    }
}

/// How far the borrowed payload (or element 0) of a field lies past the start
/// of its slot.
pub open spec fn payload_shift(d: FixedDecl) -> nat {
    match d {
        FixedDecl::Value(_) => 0,
        FixedDecl::Option(_) | FixedDecl::FlexibleOption(_) => 1,
        FixedDecl::Vec { capacity, .. } => header_width(capacity as nat),
        FixedDecl::FlexibleVec { len_width, .. } => len_width as nat,
    }
}

/// The alignment a field's reads rely on: that of a borrowed value, or of the
/// elements of a `Vec` (which are always read as a slice).
pub open spec fn borrow_align(d: FixedDecl) -> Option<nat> {
    match d {
        FixedDecl::Value(k) | FixedDecl::Option(k) | FixedDecl::FlexibleOption(k) => if k.spec_is_borrowed() {
            Some(k.spec_align())
        } else {
            None
        },
        FixedDecl::Vec { elem, .. } | FixedDecl::FlexibleVec { elem, .. } => Some(elem.spec_align()),
    }
}

/// The padding a field starting at `off` would need before it.
pub open spec fn padding_at(d: FixedDecl, off: nat) -> nat {
    match borrow_align(d) {
        Some(a) => if a == 0 || a > 8 || (off + payload_shift(d)) % a == 0 {
            0
        } else {
            (a - (off + payload_shift(d)) % a) as nat
        },
        None => 0,
    }
}

/// The offset of field `i` when every earlier padding problem is assumed
/// fixed by inserting the padding it asks for.
pub open spec fn padded_offset(decls: Seq<FixedDecl>, i: int) -> nat
    decreases i,
{
    if i <= 0 {
        0
    } else {
        let p = padded_offset(decls, i - 1);
        p + padding_at(decls[i - 1], p) + fixed_slot_len(decls[i - 1])
    }
}

/// The alignment problem of field `i`, if any.
pub open spec fn alignment_issue(decls: Seq<FixedDecl>, i: int) -> Option<FixedSchemaError> {
    let d = decls[i];
    let off = padded_offset(decls, i);
    match borrow_align(d) {
        Some(a) => if a > MAX_BORROW_ALIGN {
            Some(FixedSchemaError::AlignmentAboveEight { field: i as usize, align: a as usize })
        } else if padding_at(d, off) > 0 {
            Some(
                FixedSchemaError::NeedsPadding {
                    field: i as usize,
                    padding: padding_at(d, off) as usize,
                    start: (off + payload_shift(d)) as usize,
                    align: a as usize,
                },
            )
        } else {
            None
        },
        None => None,
    }
}

/// The alignment problems of the first `k` fields, in order.
pub open spec fn alignment_issues(decls: Seq<FixedDecl>, k: int) -> Seq<FixedSchemaError>
    decreases k,
{
    if k <= 0 {
        Seq::empty()
    } else {
        let prev = alignment_issues(decls, k - 1);
        match alignment_issue(decls, k - 1) {
            Some(e) => prev.push(e),
            None => prev,
        }
    }
}

/// The offset of field `i` in an accepted layout.
pub open spec fn fixed_offset(decls: Seq<FixedDecl>, i: int) -> nat
    decreases i,
{
    if i <= 0 {
        0
    } else {
        fixed_offset(decls, i - 1) + fixed_slot_len(decls[i - 1])
    }
}

/// The bytes every encoding has: all slots but a trailing flexible one.
pub open spec fn fixed_data_len(decls: Seq<FixedDecl>) -> nat {
    fixed_offset(decls, decls.len() as int)
}

/// Whether the last field is flexible.
pub open spec fn has_flexible(decls: Seq<FixedDecl>) -> bool {
    decls.len() > 0 && is_flexible(decls.last())
}

/// The largest number of bytes a flexible field may add.
pub open spec fn flexible_max(d: FixedDecl) -> nat {
    match d {
        FixedDecl::FlexibleOption(k) => 1 + k.spec_size(),
        FixedDecl::FlexibleVec { elem, len_width } => (len_width + (byte_range(len_width as nat)
            - 1) * elem.spec_size()) as nat,
        _ => 0,
    }
}

/// The length of the largest encoding.
pub open spec fn fixed_max_len(decls: Seq<FixedDecl>) -> nat {
    fixed_data_len(decls) + if has_flexible(decls) {
        flexible_max(decls.last())
    } else {
        0
    }
}

/// Whether a declaration list is accepted.
pub open spec fn fixed_accepts(decls: Seq<FixedDecl>) -> bool {
    &&& first_fixed_decl_error(decls, 0) is None
    &&& padded_offset(decls, decls.len() as int) <= usize::MAX
    &&& alignment_issues(decls, decls.len() as int).len() == 0
    &&& fixed_max_len(decls) <= usize::MAX
}

/// The errors a rejected declaration list is reported with: its first
/// declaration error alone; else `TooLarge` when its offsets overflow; else
/// every alignment problem; else `TooLarge` when its largest encoding does
/// not fit in `usize`.
pub open spec fn fixed_errors(decls: Seq<FixedDecl>) -> Seq<FixedSchemaError> {
    match first_fixed_decl_error(decls, 0) {
        Some(e) => seq![e],
        None => if padded_offset(decls, decls.len() as int) > usize::MAX {
            seq![FixedSchemaError::TooLarge]
        } else if alignment_issues(decls, decls.len() as int).len() > 0 {
            alignment_issues(decls, decls.len() as int)
        } else if fixed_max_len(decls) > usize::MAX {
            seq![FixedSchemaError::TooLarge]
        } else {
            Seq::empty()
        },
    }
}

pub proof fn lemma_padded_monotonic(decls: Seq<FixedDecl>, i: int, j: int)
    requires
        i <= j,
    ensures
        padded_offset(decls, i) <= padded_offset(decls, j),
    decreases j - i,
{
    if i < j {
        lemma_padded_monotonic(decls, i, j - 1);
    }
}

/// Without alignment problems, no padding is needed and the offsets are the
/// plain sums of the slots before.
pub proof fn lemma_no_issues_offsets(decls: Seq<FixedDecl>, k: int)
    requires
        0 <= k <= decls.len(),
        alignment_issues(decls, k).len() == 0,
    ensures
        forall|i: int| 0 <= i < k ==> #[trigger] alignment_issue(decls, i) is None,
        forall|i: int| 0 <= i <= k ==> #[trigger] padded_offset(decls, i) == fixed_offset(decls, i),
    decreases k,
{
    if k > 0 {
        let prev = alignment_issues(decls, k - 1);
        assert(prev.len() == 0) by {
            if alignment_issue(decls, k - 1) is Some {
                assert(alignment_issues(decls, k) == prev.push(alignment_issue(decls, k - 1)->0));
            }
        }
        lemma_no_issues_offsets(decls, k - 1);
        assert(alignment_issue(decls, k - 1) is None) by {
            if alignment_issue(decls, k - 1) is Some {
                assert(alignment_issues(decls, k).len() == prev.len() + 1);
            }
        }
        let p = padded_offset(decls, k - 1);
        assert(padding_at(decls[k - 1], p) == 0);
        assert(padded_offset(decls, k) == fixed_offset(decls, k));
    }
}

/// A declaration of a well-formed layout has no declaration error.
pub proof fn lemma_no_decl_error(decls: Seq<FixedDecl>, i: nat, j: nat)
    requires
        i <= j < decls.len(),
        first_fixed_decl_error(decls, i) is None,
    ensures
        fixed_decl_error(decls[j as int], j, decls.len()) is None,
    decreases j - i,
{
    if i < j {
        lemma_no_decl_error(decls, i + 1, j);
    }
}


/// The declaration error of field `i` among `n`, if any.
fn decl_error_of(d: FixedDecl, i: usize, n: usize) -> (r: Option<FixedSchemaError>)
    requires
        i < n,
    ensures
        r == fixed_decl_error(d, i as nat, n as nat),
{
    let last = i + 1 == n;
    match d {
        FixedDecl::Value(k) | FixedDecl::Option(k) => if !k.check() {
            Some(FixedSchemaError::InvalidValueKind { field: i })
        } else {
            None
        },
        FixedDecl::FlexibleOption(k) => if !last {
            Some(FixedSchemaError::FlexibleNotLast { field: i })
        } else if !k.check() {
            Some(FixedSchemaError::InvalidValueKind { field: i })
        } else {
            None
        },
        FixedDecl::Vec { elem, capacity } => if capacity > MAX_FIXED_CAPACITY {
            Some(FixedSchemaError::CapacityTooLarge { field: i })
        } else if matches!(elem, ValueKind::Bool) {
            Some(FixedSchemaError::VecOfBool { field: i })
        } else if !elem.check() {
            Some(FixedSchemaError::InvalidValueKind { field: i })
        } else {
            None
        },
        FixedDecl::FlexibleVec { elem, len_width } => if !last {
            Some(FixedSchemaError::FlexibleNotLast { field: i })
        } else if !(1 <= len_width && len_width <= 2) {
            Some(FixedSchemaError::InvalidFlexibleWidth { field: i })
        } else if matches!(elem, ValueKind::Bool) {
            Some(FixedSchemaError::VecOfBool { field: i })
        } else if !elem.check() {
            Some(FixedSchemaError::InvalidValueKind { field: i })
        } else {
            None
        },
    }
}

/// The header width of a `Vec` with this capacity.
fn header_width_of(capacity: usize) -> (w: usize)
    ensures
        w == header_width(capacity as nat),
{
    if capacity <= 0xFF {
        1
    } else {
        2
    }
}

/// The slot length of a declaration without errors, widened so that it
/// cannot overflow.
fn slot_len_of(d: FixedDecl) -> (n: u128)
    requires
        d is Vec ==> d->capacity <= MAX_FIXED_CAPACITY,
    ensures
        n == fixed_slot_len(d),
        n <= 0x1_0000_0000_0000_0000_0000,
{
    match d {
        FixedDecl::Value(k) => k.size() as u128,
        FixedDecl::Option(k) => 1 + k.size() as u128,
        FixedDecl::Vec { elem, capacity } => {
            let w = header_width_of(capacity);
            proof {
                assert(elem.spec_size() * capacity <= 0xFFFF_FFFF_FFFF_FFFF * 0xFFFF)
                    by (nonlinear_arith)
                    requires
                        elem.spec_size() <= 0xFFFF_FFFF_FFFF_FFFF,
                        capacity <= 0xFFFF,
                ;
            }
            w as u128 + elem.size() as u128 * capacity as u128
        },
        _ => 0,
    }
}

/// The alignment a field's reads rely on, if any.
fn borrow_align_of(d: FixedDecl) -> (r: Option<usize>)
    ensures
        match r {
            Some(a) => borrow_align(d) == Some(a as nat),
            None => borrow_align(d) is None,
        },
{
    match d {
        FixedDecl::Value(k) | FixedDecl::Option(k) | FixedDecl::FlexibleOption(k) => if k.is_borrowed() {
            Some(k.align())
        } else {
            None
        },
        FixedDecl::Vec { elem, .. } | FixedDecl::FlexibleVec { elem, .. } => Some(elem.align()),
    }
}

/// How far the payload of a field lies past the start of its slot.
fn payload_shift_of(d: FixedDecl) -> (n: usize)
    requires
        d is FlexibleVec ==> d->len_width <= 2,
    ensures
        n == payload_shift(d),
        n <= 2,
{
    match d {
        FixedDecl::Value(_) => 0,
        FixedDecl::Option(_) | FixedDecl::FlexibleOption(_) => 1,
        FixedDecl::Vec { capacity, .. } => header_width_of(capacity),
        FixedDecl::FlexibleVec { len_width, .. } => len_width,
    }
}

/// The alignment problem of a field at padded offset `off`, and the padding
/// it needs.
fn issue_at(d: FixedDecl, i: usize, off: u128) -> (r: (Option<FixedSchemaError>, usize))
    requires
        off <= usize::MAX,
        d is FlexibleVec ==> d->len_width <= 2,
    ensures
        r.1 == padding_at(d, off as nat),
        r.0 == (match borrow_align(d) {
            Some(a) => if a > MAX_BORROW_ALIGN {
                Some(FixedSchemaError::AlignmentAboveEight { field: i, align: a as usize })
            } else if padding_at(d, off as nat) > 0 {
                Some(
                    FixedSchemaError::NeedsPadding {
                        field: i,
                        padding: padding_at(d, off as nat) as usize,
                        start: (off + payload_shift(d)) as usize,
                        align: a as usize,
                    },
                )
            } else {
                None
            },
            None => None,
        }),
{
    let shift = payload_shift_of(d) as u128;
    match borrow_align_of(d) {
        Some(a) => {
            if a > MAX_BORROW_ALIGN {
                (Some(FixedSchemaError::AlignmentAboveEight { field: i, align: a }), 0)
            } else if a == 0 || (off + shift) % (a as u128) == 0 {
                (None, 0)
            } else {
                let padding = a - ((off + shift) % (a as u128)) as usize;
                (
                    Some(
                        FixedSchemaError::NeedsPadding {
                            field: i,
                            padding,
                            start: (off + shift) as usize,
                            align: a,
                        },
                    ),
                    padding,
                )
            }
        },
        None => (None, 0),
    }
}

/// `n` zero bytes.
pub open spec fn zeros(n: nat) -> Seq<u8> {
    Seq::new(n, |i: int| 0u8)
}

/// Whether `x` has the shape of a value of the field declared by `d`, with
/// payloads of the right size.
pub open spec fn fixed_shape_ok(d: FixedDecl, x: FieldData) -> bool {
    match d {
        FixedDecl::Value(k) => x matches FieldData::Value(p) && payload_ok(k, p),
        FixedDecl::Option(k) | FixedDecl::FlexibleOption(k) => x matches FieldData::Optional(o) && (
        o matches Some(p) ==> payload_ok(k, p)),
        FixedDecl::Vec { elem, .. } | FixedDecl::FlexibleVec { elem, .. } => x matches FieldData::Items(
            items,
        ) && forall|i: int| 0 <= i < items.len() ==> payload_ok(elem, #[trigger] items[i]),
    }
}

pub open spec fn fixed_shapes_ok(decls: Seq<FixedDecl>, data: Seq<FieldData>) -> bool {
    &&& data.len() == decls.len()
    &&& forall|i: int| 0 <= i < decls.len() ==> fixed_shape_ok(decls[i], data[i])
}

/// Whether a `Vec` value has room: at most `capacity` elements, and for a
/// flexible `Vec` no more than its length header can count.
pub open spec fn fixed_fits(d: FixedDecl, x: FieldData) -> bool {
    match (d, x) {
        (FixedDecl::Vec { capacity, .. }, FieldData::Items(items)) => items.len() <= capacity,
        (FixedDecl::FlexibleVec { len_width, .. }, FieldData::Items(items)) => items.len()
            < byte_range(len_width as nat),
        _ => true,
    }
}

/// The index of the first field from `i` on whose value has no room, or the
/// number of fields when every value fits.
pub open spec fn first_unfit(decls: Seq<FixedDecl>, data: Seq<FieldData>, i: int) -> int
    decreases decls.len() - i,
{
    if i >= decls.len() {
        decls.len() as int
    } else if !fixed_fits(decls[i], data[i]) {
        i
    } else {
        first_unfit(decls, data, i + 1)
    }
}

/// The bytes of one field's slot. An absent fixed option keeps its room as
/// zeros, and so does the unused room of a `Vec`; an absent or empty flexible
/// field takes no bytes.
pub open spec fn fixed_slot_encoding(d: FixedDecl, x: FieldData) -> Seq<u8> {
    match (d, x) {
        (FixedDecl::Value(_), FieldData::Value(p)) => p,
        (FixedDecl::Option(k), FieldData::Optional(o)) => match o {
            Some(p) => seq![1u8] + p,
            None => seq![0u8] + zeros(k.spec_size()),
        },
        (FixedDecl::FlexibleOption(_), FieldData::Optional(o)) => match o {
            Some(p) => seq![1u8] + p,
            None => Seq::empty(),
        },
        (FixedDecl::Vec { elem, capacity }, FieldData::Items(items)) => le_bytes(
            items.len(),
            header_width(capacity as nat),
        ) + flatten(items) + zeros(((capacity - items.len()) * elem.spec_size()) as nat),
        (FixedDecl::FlexibleVec { len_width, .. }, FieldData::Items(items)) => if items.len()
            == 0 {
            Seq::empty()
        } else {
            le_bytes(items.len(), len_width as nat) + flatten(items)
        },
        _ => Seq::empty(),
    }
}

/// The encoding of a record: the slots of its fields, in order.
pub open spec fn fixed_encoding(decls: Seq<FixedDecl>, data: Seq<FieldData>) -> Seq<u8>
    decreases decls.len(),
{
    if decls.len() == 0 {
        Seq::empty()
    } else {
        fixed_encoding(decls.drop_last(), data.take(decls.len() - 1)) + fixed_slot_encoding(
            decls.last(),
            data[decls.len() - 1],
        )
    }
}

/// The bytes `encode_to` may write before it returns: up to the first field
/// without room, or the whole encoding.
pub open spec fn write_extent(decls: Seq<FixedDecl>, data: Seq<FieldData>) -> nat {
    let k = first_unfit(decls, data, 0);
    if k < decls.len() {
        fixed_offset(decls, k)
    } else {
        fixed_encoding(decls, data).len()
    }
}

/// The number of bytes the flexible field adds to an encoding.
pub open spec fn flexible_extra(decls: Seq<FixedDecl>, data: Seq<FieldData>) -> nat {
    if decls.len() == 0 {
        0
    } else {
        match (decls.last(), data[decls.len() - 1]) {
            (FixedDecl::FlexibleOption(k), FieldData::Optional(Some(_))) => 1 + k.spec_size(),
            (FixedDecl::FlexibleVec { elem, len_width }, FieldData::Items(items)) => if items.len()
                == 0 {
                0
            } else {
                (len_width + items.len() * elem.spec_size()) as nat
            },
            _ => 0,
        }
    }
}

/// How the slot of a field is read back.
pub open spec fn read_layout(d: FixedDecl) -> FieldLayout {
    match d {
        FixedDecl::Value(k) => FieldLayout::Value { value: k, optional: OptionalKind::No },
        FixedDecl::Option(k) | FixedDecl::FlexibleOption(k) => FieldLayout::Value {
            value: k,
            optional: OptionalKind::Tagged,
        },
        FixedDecl::Vec { elem, capacity } => FieldLayout::Vec {
            elem,
            len_width: header_width(capacity as nat) as usize,
        },
        FixedDecl::FlexibleVec { elem, len_width } => FieldLayout::Vec { elem, len_width },
    }
}

/// Whether field `i` is a flexible field that `bytes` ends before: it is
/// absent, or empty.
pub open spec fn flexible_absent(decls: Seq<FixedDecl>, bytes: Seq<u8>, i: int) -> bool {
    is_flexible(decls[i]) && fixed_offset(decls, i) == bytes.len()
}

/// The value of field `i` as its view reads it from `bytes`.
pub open spec fn fixed_field(decls: Seq<FixedDecl>, bytes: Seq<u8>, i: int) -> FieldData {
    if flexible_absent(decls, bytes, i) {
        match decls[i] {
            FixedDecl::FlexibleOption(_) => FieldData::Optional(None),
            _ => FieldData::Items(Seq::empty()),
        }
    } else {
        slot_data(read_layout(decls[i]), bytes, fixed_offset(decls, i), Seq::empty())
    }
}

/// The per-declaration well-formedness that no position changes.
pub open spec fn fixed_decl_wf(d: FixedDecl) -> bool {
    match d {
        FixedDecl::Value(k) | FixedDecl::Option(k) | FixedDecl::FlexibleOption(k) => k.wf(),
        FixedDecl::Vec { elem, capacity } => capacity <= MAX_FIXED_CAPACITY && !(elem is Bool)
            && elem.wf(),
        FixedDecl::FlexibleVec { elem, len_width } => 1 <= len_width <= 2 && !(elem is Bool)
            && elem.wf(),
    }
}

pub proof fn lemma_decl_wf(d: FixedDecl, i: nat, n: nat)
    requires
        fixed_decl_error(d, i, n) is None,
    ensures
        fixed_decl_wf(d),
        is_flexible(d) ==> i + 1 == n,
{
}

pub proof fn lemma_slot_len(d: FixedDecl, x: FieldData)
    requires
        fixed_decl_wf(d),
        fixed_shape_ok(d, x),
        fixed_fits(d, x),
    ensures
        !is_flexible(d) ==> fixed_slot_encoding(d, x).len() == fixed_slot_len(d),
{
    match (d, x) {
        (FixedDecl::Vec { elem, capacity }, FieldData::Items(items)) => {
            let size = elem.spec_size();
            crate::bytes::lemma_le_bytes_len(items.len(), header_width(capacity as nat));
            assert forall|i: int| 0 <= i < items.len() implies #[trigger] items[i].len() == size by {
                assert(payload_ok(elem, items[i]));
            }
            crate::value::lemma_flatten_len(items, size);
            assert(items.len() * size + (capacity - items.len()) * size == capacity * size)
                by (nonlinear_arith)
                requires
                    items.len() <= capacity,
            ;
            assert(capacity * size == size * capacity) by (nonlinear_arith);
        },
        _ => {},
    }
}

pub proof fn lemma_offset_monotonic(decls: Seq<FixedDecl>, i: int, j: int)
    requires
        i <= j,
    ensures
        fixed_offset(decls, i) <= fixed_offset(decls, j),
    decreases j - i,
{
    if i < j {
        lemma_offset_monotonic(decls, i, j - 1);
    }
}

pub proof fn lemma_encoding_step(decls: Seq<FixedDecl>, data: Seq<FieldData>, i: int)
    requires
        0 <= i < decls.len(),
        data.len() == decls.len(),
    ensures
        fixed_encoding(decls.take(i + 1), data.take(i + 1)) == fixed_encoding(
            decls.take(i),
            data.take(i),
        ) + fixed_slot_encoding(decls[i], data[i]),
{
    assert(decls.take(i + 1).drop_last() =~= decls.take(i));
    assert(data.take(i + 1).take(i) =~= data.take(i));
}

/// The encoding of the fields before a field is as long as its offset.
pub proof fn lemma_encoding_prefix_len(decls: Seq<FixedDecl>, data: Seq<FieldData>, i: int)
    requires
        0 <= i <= decls.len(),
        fixed_shapes_ok(decls, data),
        forall|j: int| 0 <= j < i ==> fixed_decl_wf(#[trigger] decls[j]),
        forall|j: int| 0 <= j < i ==> !is_flexible(#[trigger] decls[j]),
        forall|j: int| 0 <= j < i ==> fixed_fits(#[trigger] decls[j], data[j]),
    ensures
        fixed_encoding(decls.take(i), data.take(i)).len() == fixed_offset(decls, i),
    decreases i,
{
    if i == 0 {
        assert(decls.take(0).len() == 0);
    } else {
        lemma_encoding_prefix_len(decls, data, i - 1);
        lemma_encoding_step(decls, data, i - 1);
        lemma_slot_len(decls[i - 1], data[i - 1]);
    }
}

/// Writes the slot of one field at `off` and returns the offset after it.
fn write_fixed_slot(d: FixedDecl, v: &FieldValue, out: &mut [u8], off: usize) -> (next: usize)
    requires
        fixed_decl_wf(d),
        fixed_shape_ok(d, v@),
        fixed_fits(d, v@),
        off + fixed_slot_encoding(d, v@).len() <= old(out)@.len(),
    ensures
        next == off + fixed_slot_encoding(d, v@).len(),
        final(out)@ == old(out)@.take(off as int) + fixed_slot_encoding(d, v@) + old(out)@.skip(
            next as int,
        ),
{
    let ghost o = out@;
    match d {
        FixedDecl::Value(k) => write_slot(
            FieldLayout::Value { value: k, optional: OptionalKind::No },
            v,
            out,
            off,
        ),
        FixedDecl::Option(k) => match v {
            FieldValue::Optional(Some(_)) => write_slot(
                FieldLayout::Value { value: k, optional: OptionalKind::Tagged },
                v,
                out,
                off,
            ),
            _ => {
                let size = k.size();
                out[off] = 0;
                let ghost mid = out@;
                fill_zero(out, off + 1, size);
                proof {
                    assert(out@ =~= o.take(off as int) + (seq![0u8] + zeros(size as nat)) + o.skip(
                        off + 1 + size,
                    ));
                }
                off + 1 + size
            },
        },
        FixedDecl::FlexibleOption(k) => match v {
            FieldValue::Optional(Some(_)) => write_slot(
                FieldLayout::Value { value: k, optional: OptionalKind::Tagged },
                v,
                out,
                off,
            ),
            _ => {
                proof {
                    assert(out@ =~= o.take(off as int) + Seq::<u8>::empty() + o.skip(off as int));
                }
                off
            },
        },
        FixedDecl::Vec { elem, capacity } => match v {
            FieldValue::Items(items) => {
                let lw = header_width_of(capacity);
                let f = FieldLayout::Vec { elem, len_width: lw };
                let ghost its = items_view(*items);
                let pos = write_slot(f, v, out, off);
                let ghost mid = out@;
                let size = elem.size();
                proof {
                    assert(fixed_slot_encoding(d, v@) == crate::variable::slot_encoding(f, v@)
                        + zeros(((capacity - items@.len()) * size) as nat));
                    assert((capacity - items@.len()) * size >= 0) by (nonlinear_arith)
                        requires
                            items@.len() <= capacity,
                    ;
                }
                let rest = (capacity - items.len()) * size;
                fill_zero(out, pos, rest);
                proof {
                    assert(out@ =~= o.take(off as int) + fixed_slot_encoding(d, v@) + o.skip(
                        pos + rest,
                    ));
                }
                pos + rest
            },
            _ => off,
        },
        FixedDecl::FlexibleVec { elem, len_width } => match v {
            FieldValue::Items(items) => {
                if items.len() == 0 {
                    proof {
                        assert(out@ =~= o.take(off as int) + Seq::<u8>::empty() + o.skip(
                            off as int,
                        ));
                    }
                    off
                } else {
                    write_slot(FieldLayout::Vec { elem, len_width }, v, out, off)
                }
            },
            _ => off,
        },
    }
}

/// The errors of encoding into and decoding from a fixed-offset layout; each
/// stands for the program error of the same name.
#[derive(Clone, Copy, Debug, PartialEq, Eq, Structural)]
pub enum FixedLayoutError {
    /// The input does not hold a valid encoding.
    InvalidInstructionData,
    /// A `Vec` value has more elements than its field can hold.
    InvalidRealloc,
}

/// A checked fixed-offset layout: every field but a trailing flexible one
/// has a slot of constant size at a constant offset.
#[derive(Debug)]
pub struct FixedLayout {
    decls: Vec<FixedDecl>,
    offsets: Vec<usize>,
    data_len: usize,
    max_len: usize,
}

impl View for FixedLayout {
    type V = Seq<FixedDecl>;

    closed spec fn view(&self) -> Seq<FixedDecl> {
        self.decls@
    }
}

impl FixedLayout {
    /// The invariant of a layout that `new` accepted.
    pub closed spec fn wf(&self) -> bool {
        &&& fixed_accepts(self.decls@)
        &&& self.offsets@.len() == self.decls@.len()
        &&& forall|i: int|
            0 <= i < self.decls@.len() ==> #[trigger] self.offsets@[i] == fixed_offset(
                self.decls@,
                i,
            )
        &&& self.data_len == fixed_data_len(self.decls@)
        &&& self.max_len == fixed_max_len(self.decls@)
    }

    pub proof fn lemma_wf(&self)
        requires
            self.wf(),
        ensures
            fixed_accepts(self@),
            forall|i: int| 0 <= i < self@.len() ==> #[trigger] fixed_decl_error(self@[i], i as nat, self@.len()) is None,
            forall|i: int| 0 <= i < self@.len() ==> #[trigger] alignment_issue(self@, i) is None,
            forall|i: int| 0 <= i <= self@.len() ==> #[trigger] padded_offset(self@, i) == fixed_offset(self@, i),
            fixed_max_len(self@) <= usize::MAX,
    {
        lemma_no_issues_offsets(self@, self@.len() as int);
        assert forall|i: int| 0 <= i < self@.len() implies #[trigger] fixed_decl_error(self@[i], i as nat, self@.len()) is None by {
            lemma_no_decl_error(self@, 0, i as nat);
        }
    }

    /// Checks a declaration list; on success the layout holds it unchanged.
    /// A rejected list is reported with its first declaration error alone,
    /// or with every alignment problem found, each field's offset assuming
    /// the padding asked for before it was inserted.
    pub fn new(decls: &[FixedDecl]) -> (r: Result<FixedLayout, Vec<FixedSchemaError>>)
        ensures
            match r {
                Ok(l) => l.wf() && l@ == decls@ && fixed_accepts(decls@),
                Err(es) => !fixed_accepts(decls@) && es@ == fixed_errors(decls@),
            },
    {
        let n = decls.len();
        let mut i: usize = 0;
        while i < n
            invariant
                n == decls@.len(),
                i <= n,
                first_fixed_decl_error(decls@, 0) == first_fixed_decl_error(decls@, i as nat),
            decreases n - i,
        {
            match decl_error_of(decls[i], i, n) {
                Some(e) => {
                    return Err(vec![e]);
                },
                None => {},
            }
            i = i + 1;
        }
        proof {
            assert(first_fixed_decl_error(decls@, n as nat) is None);
        }
        // The padded offsets, in a wider type until they are known to fit.
        let mut off: u128 = 0;
        let mut k: usize = 0;
        while k < n
            invariant
                n == decls@.len(),
                k <= n,
                first_fixed_decl_error(decls@, 0) is None,
                off == padded_offset(decls@, k as int),
                off <= usize::MAX,
            decreases n - k,
        {
            proof {
                lemma_no_decl_error(decls@, 0, k as nat);
            }
            let d = decls[k];
            let (_, padding) = issue_at(d, k, off);
            let next = off + padding as u128 + slot_len_of(d);
            if next > usize::MAX as u128 {
                proof {
                    lemma_padded_monotonic(decls@, k + 1, n as int);
                }
                return Err(vec![FixedSchemaError::TooLarge]);
            }
            off = next;
            k = k + 1;
        }
        let mut issues: Vec<FixedSchemaError> = Vec::new();
        let mut offsets: Vec<usize> = Vec::new();
        let mut at: usize = 0;
        let mut j: usize = 0;
        while j < n
            invariant
                n == decls@.len(),
                j <= n,
                first_fixed_decl_error(decls@, 0) is None,
                padded_offset(decls@, n as int) <= usize::MAX,
                at == padded_offset(decls@, j as int),
                issues@ == alignment_issues(decls@, j as int),
                offsets@.len() == j,
                forall|q: int| 0 <= q < j ==> #[trigger] offsets@[q] == padded_offset(decls@, q),
            decreases n - j,
        {
            proof {
                lemma_no_decl_error(decls@, 0, j as nat);
                lemma_padded_monotonic(decls@, j + 1, n as int);
                lemma_padded_monotonic(decls@, j as int, j + 1);
            }
            let d = decls[j];
            let (issue, padding) = issue_at(d, j, at as u128);
            match issue {
                Some(e) => issues.push(e),
                None => {},
            }
            offsets.push(at);
            let len = slot_len_of(d) as usize;
            at = at + padding + len;
            j = j + 1;
        }
        if issues.len() > 0 {
            return Err(issues);
        }
        proof {
            lemma_no_issues_offsets(decls@, n as int);
        }
        let data_len = at;
        let mut max: u128 = data_len as u128;
        if n > 0 {
            match decls[n - 1] {
                FixedDecl::FlexibleOption(k) => {
                    max = max + 1 + k.size() as u128;
                },
                FixedDecl::FlexibleVec { elem, len_width } => {
                    proof {
                        lemma_no_decl_error(decls@, 0, (n - 1) as nat);
                        lemma_byte_range_values();
                    }
                    let range: u128 = if len_width == 1 {
                        256
                    } else {
                        65536
                    };
                    proof {
                        assert((range - 1) * elem.spec_size() <= 0xFFFF * 0xFFFF_FFFF_FFFF_FFFF)
                            by (nonlinear_arith)
                            requires
                                elem.spec_size() <= 0xFFFF_FFFF_FFFF_FFFF,
                                0 <= range - 1 <= 0xFFFF,
                        ;
                        assert(len_width <= 2) by {
                            assert(fixed_decl_error(decls@[n - 1], (n - 1) as nat, n as nat) is None);
                        }
                    }
                    max = max + len_width as u128 + (range - 1) * elem.size() as u128;
                },
                _ => {},
            }
        }
        if max > usize::MAX as u128 {
            return Err(vec![FixedSchemaError::TooLarge]);
        }
        let mut decls_vec: Vec<FixedDecl> = Vec::new();
        let mut q: usize = 0;
        while q < n
            invariant
                n == decls@.len(),
                q <= n,
                decls_vec@ == decls@.take(q as int),
            decreases n - q,
        {
            decls_vec.push(decls[q]);
            q = q + 1;
            proof {
                assert(decls_vec@ =~= decls@.take(q as int));
            }
        }
        proof {
            assert(decls@.take(n as int) =~= decls@);
        }
        Ok(FixedLayout { decls: decls_vec, offsets, data_len, max_len: max as usize })
    }
}


pub proof fn lemma_first_unfit(decls: Seq<FixedDecl>, data: Seq<FieldData>, i: int)
    requires
        0 <= i <= decls.len(),
        forall|j: int| 0 <= j < i ==> fixed_fits(#[trigger] decls[j], data[j]),
    ensures
        first_unfit(decls, data, 0) == first_unfit(decls, data, i),
    decreases i,
{
    if i > 0 {
        lemma_first_unfit(decls, data, i - 1);
    }
}

pub proof fn lemma_first_unfit_bounds(decls: Seq<FixedDecl>, data: Seq<FieldData>, i: int)
    requires
        0 <= i <= decls.len(),
    ensures
        i <= first_unfit(decls, data, i) <= decls.len(),
        first_unfit(decls, data, i) < decls.len() ==> !fixed_fits(
            decls[first_unfit(decls, data, i)],
            data[first_unfit(decls, data, i)],
        ),
        forall|j: int| i <= j < first_unfit(decls, data, i) ==> fixed_fits(#[trigger] decls[j], data[j]),
    decreases decls.len() - i,
{
    if i < decls.len() && fixed_fits(decls[i], data[i]) {
        lemma_first_unfit_bounds(decls, data, i + 1);
    }
}

impl FixedLayout {
    /// Writes the encoding of `values` at the start of `out`, leaving the rest
    /// of `out` as it was. A `Vec` value with more elements than its field can
    /// hold stops the writing at that field with `InvalidRealloc`; the fields
    /// before it have been written by then.
    pub fn encode_to(&self, values: &[FieldValue], out: &mut [u8]) -> (r: Result<
        (),
        FixedLayoutError,
    >)
        requires
            self.wf(),
            fixed_shapes_ok(self@, values_view(values@)),
            write_extent(self@, values_view(values@)) <= old(out)@.len(),
        ensures
            r is Ok ==> {
                let enc = fixed_encoding(self@, values_view(values@));
                &&& first_unfit(self@, values_view(values@), 0) == self@.len()
                &&& final(out)@ == enc + old(out)@.skip(enc.len() as int)
            },
            r matches Err(e) ==> {
                let k = first_unfit(self@, values_view(values@), 0);
                &&& e == FixedLayoutError::InvalidRealloc
                &&& k < self@.len()
                &&& final(out)@ == fixed_encoding(self@.take(k), values_view(values@).take(k))
                    + old(out)@.skip(fixed_offset(self@, k) as int)
            },
    {
        proof {
            self.lemma_wf();
        }
        let ghost o = out@;
        let ghost decls = self@;
        let ghost data = values_view(values@);
        let n = self.decls.len();
        let mut off: usize = 0;
        let mut i: usize = 0;
        proof {
            assert(decls.take(0) =~= Seq::<FixedDecl>::empty());
            assert(out@ =~= fixed_encoding(decls.take(0), data.take(0)) + o.skip(0));
            lemma_first_unfit_bounds(decls, data, 0);
            assert forall|j: int| 0 <= j < decls.len() implies fixed_decl_wf(#[trigger] decls[j]) by {
                lemma_decl_wf(decls[j], j as nat, decls.len());
            }
            assert forall|j: int| 0 <= j < decls.len() - 1 implies !is_flexible(#[trigger] decls[j]) by {
                lemma_decl_wf(decls[j], j as nat, decls.len());
            }
        }
        while i < n
            invariant
                self.wf(),
                decls == self@,
                n == decls.len(),
                o == old(out)@,
                data == values_view(values@),
                fixed_shapes_ok(decls, data),
                write_extent(decls, data) <= o.len(),
                forall|j: int| 0 <= j < decls.len() ==> fixed_decl_wf(#[trigger] decls[j]),
                forall|j: int| 0 <= j < decls.len() - 1 ==> !is_flexible(#[trigger] decls[j]),
                i <= n,
                i < n ==> off == fixed_offset(decls, i as int),
                forall|j: int| 0 <= j < i ==> fixed_fits(#[trigger] decls[j], data[j]),
                out@ == fixed_encoding(decls.take(i as int), data.take(i as int)) + o.skip(off as int),
                fixed_encoding(decls.take(i as int), data.take(i as int)).len() == off,
                out@.len() == o.len(),
            decreases n - i,
        {
            let d = self.decls[i];
            let v = &values[i];
            proof {
                lemma_first_unfit(decls, data, i as int);
                lemma_first_unfit_bounds(decls, data, 0);
                lemma_first_unfit_bounds(decls, data, i as int);
                assert(data[i as int] == v@);
            }
            proof {
                lemma_byte_range_values();
            }
            let fits = match (d, v) {
                (FixedDecl::Vec { capacity, .. }, FieldValue::Items(items)) => items.len() <= capacity,
                (FixedDecl::FlexibleVec { len_width, .. }, FieldValue::Items(items)) => if len_width
                    == 1 {
                    items.len() <= 0xFF
                } else {
                    items.len() <= 0xFFFF
                },
                _ => true,
            };
            if !fits {
                proof {
                    assert(!fixed_fits(decls[i as int], data[i as int]));
                    assert(first_unfit(decls, data, i as int) == i);
                    assert(first_unfit(decls, data, 0) == i);
                }
                return Err(FixedLayoutError::InvalidRealloc);
            }
            proof {
                lemma_encoding_step(decls, data, i as int);
                lemma_slot_len(decls[i as int], data[i as int]);
                let k = first_unfit(decls, data, 0);
                if k < n {
                    assert(i < k);
                    lemma_offset_monotonic(decls, i + 1, k);
                    assert(!is_flexible(decls[i as int]));
                } else {
                    if i + 1 < n {
                        assert(!is_flexible(decls[i as int]));
                        lemma_encoding_prefix_len(decls, data, n - 1);
                        lemma_encoding_prefix_len(decls, data, i + 1);
                        lemma_offset_monotonic(decls, i + 1, n - 1);
                        lemma_encoding_step(decls, data, n - 1);
                        assert(decls.take(n as int) =~= decls);
                        assert(data.take(n as int) =~= data);
                    } else {
                        assert(decls.take(n as int) =~= decls);
                        assert(data.take(n as int) =~= data);
                    }
                }
            }
            let next = write_fixed_slot(d, v, out, off);
            proof {
                assert(out@ =~= fixed_encoding(decls.take(i + 1), data.take(i + 1)) + o.skip(next as int));
                if i + 1 < n {
                    assert(!is_flexible(decls[i as int]));
                }
            }
            off = next;
            i = i + 1;
        }
        proof {
            assert(decls.take(n as int) =~= decls);
            assert(data.take(n as int) =~= data);
            lemma_first_unfit(decls, data, n as int);
        }
        Ok(())
    }
}


/// The length of a full encoding: the fixed part and what the flexible field
/// adds.
pub proof fn lemma_encoding_len(decls: Seq<FixedDecl>, data: Seq<FieldData>)
    requires
        fixed_shapes_ok(decls, data),
        forall|j: int| 0 <= j < decls.len() ==> fixed_decl_wf(#[trigger] decls[j]),
        forall|j: int| 0 <= j < decls.len() - 1 ==> !is_flexible(#[trigger] decls[j]),
        first_unfit(decls, data, 0) == decls.len(),
    ensures
        fixed_encoding(decls, data).len() == fixed_data_len(decls) + flexible_extra(decls, data),
{
    let n = decls.len() as int;
    lemma_first_unfit_bounds(decls, data, 0);
    if n > 0 {
        lemma_encoding_prefix_len(decls, data, n - 1);
        lemma_encoding_step(decls, data, n - 1);
        assert(decls.take(n) =~= decls);
        assert(data.take(n) =~= data);
        lemma_slot_len(decls[n - 1], data[n - 1]);
        match (decls[n - 1], data[n - 1]) {
            (FixedDecl::FlexibleVec { elem, len_width }, FieldData::Items(items)) => {
                if items.len() > 0 {
                    crate::bytes::lemma_le_bytes_len(items.len(), len_width as nat);
                    assert forall|i: int| 0 <= i < items.len() implies #[trigger] items[i].len()
                        == elem.spec_size() by {
                        assert(payload_ok(elem, items[i]));
                    }
                    crate::value::lemma_flatten_len(items, elem.spec_size());
                }
            },
            _ => {},
        }
    }
}

impl FixedLayout {
    /// The encoding of `values`, in a buffer as long as the fixed part plus
    /// what the flexible field adds; `InvalidRealloc` when a `Vec` value has
    /// more elements than its field can hold.
    pub fn encode(&self, values: &[FieldValue]) -> (r: Result<Vec<u8>, FixedLayoutError>)
        requires
            self.wf(),
            fixed_shapes_ok(self@, values_view(values@)),
            fixed_data_len(self@) + flexible_extra(self@, values_view(values@)) <= usize::MAX,
        ensures
            r matches Ok(bytes) ==> first_unfit(self@, values_view(values@), 0) == self@.len()
                && bytes@ == fixed_encoding(self@, values_view(values@)),
            r matches Err(e) ==> e == FixedLayoutError::InvalidRealloc && first_unfit(
                self@,
                values_view(values@),
                0,
            ) < self@.len(),
    {
        proof {
            self.lemma_wf();
        }
        let ghost decls = self@;
        let ghost data = values_view(values@);
        let n = self.decls.len();
        let mut extra: usize = 0;
        if n > 0 {
            proof {
                assert(data[n - 1] == values@[n - 1]@);
            }
            match (self.decls[n - 1], &values[n - 1]) {
                (FixedDecl::FlexibleOption(k), FieldValue::Optional(Some(_))) => {
                    extra = 1 + k.size();
                },
                (FixedDecl::FlexibleVec { elem, len_width }, FieldValue::Items(items)) => {
                    if items.len() > 0 {
                        proof {
                            assert(items@.len() == items_view(*items).len());
                        }
                        extra = len_width + items.len() * elem.size();
                    }
                },
                _ => {},
            }
        }
        proof {
            assert(extra == flexible_extra(decls, data));
        }
        let total = self.data_len + extra;
        let mut bytes: Vec<u8> = vec![0u8; total];
        proof {
            assert forall|j: int| 0 <= j < decls.len() implies fixed_decl_wf(#[trigger] decls[j]) by {
                lemma_decl_wf(decls[j], j as nat, decls.len());
            }
            assert forall|j: int| 0 <= j < decls.len() - 1 implies !is_flexible(#[trigger] decls[j]) by {
                lemma_decl_wf(decls[j], j as nat, decls.len());
            }
            lemma_first_unfit_bounds(decls, data, 0);
            let k = first_unfit(decls, data, 0);
            if k < n {
                lemma_offset_monotonic(decls, k, n as int);
            } else {
                lemma_encoding_len(decls, data);
            }
        }
        match self.encode_to(values, bytes.as_mut_slice()) {
            Ok(()) => {
                proof {
                    lemma_encoding_len(decls, data);
                    assert(bytes@ =~= fixed_encoding(decls, data));
                }
                Ok(bytes)
            },
            Err(e) => Err(e),
        }
    }
}


/// The check decoding makes on the slot of a field at `off`: an option tag
/// must be 0 or 1, and a `Vec` length must not exceed its capacity (`0xFFFF`
/// for a flexible `Vec`). A flexible field may be cut off entirely (it is
/// then absent, or empty); otherwise its tag or length header must be there,
/// and so must a present payload or the elements the header counts.
pub open spec fn fixed_check(d: FixedDecl, bytes: Seq<u8>, off: nat) -> bool {
    match d {
        FixedDecl::Value(_) => true,
        FixedDecl::Option(_) => bytes[off as int] == 0 || bytes[off as int] == 1,
        FixedDecl::FlexibleOption(k) => off == bytes.len() || bytes[off as int] == 0 || (
        bytes[off as int] == 1 && off + 1 + k.spec_size() <= bytes.len()),
        FixedDecl::Vec { capacity, .. } => header_count(bytes, off, header_width(capacity as nat))
            <= capacity,
        FixedDecl::FlexibleVec { elem, len_width } => off == bytes.len() || {
            &&& off + len_width <= bytes.len()
            &&& header_count(bytes, off, len_width as nat) <= MAX_FIXED_CAPACITY
            &&& off + len_width + header_count(bytes, off, len_width as nat) * elem.spec_size()
                <= bytes.len()
        },
    }
}

/// Whether the checks of the first `k` fields pass.
pub open spec fn fixed_checks_ok(decls: Seq<FixedDecl>, bytes: Seq<u8>, k: int) -> bool {
    forall|j: int| 0 <= j < k ==> #[trigger] fixed_check(decls[j], bytes, fixed_offset(decls, j))
}

/// Whether an input of `len` bytes has a valid length: exactly the fixed
/// part, or with a flexible field, anything from the fixed part up to the
/// largest encoding.
pub open spec fn fixed_len_ok(decls: Seq<FixedDecl>, len: nat) -> bool {
    if has_flexible(decls) {
        fixed_data_len(decls) <= len <= fixed_max_len(decls)
    } else {
        len == fixed_data_len(decls)
    }
}

/// Whether `decode` accepts `bytes` starting `address_mod_8` bytes past an
/// 8-byte aligned address.
pub open spec fn fixed_decodes(decls: Seq<FixedDecl>, bytes: Seq<u8>, address_mod_8: nat) -> bool {
    &&& fixed_len_ok(decls, bytes.len())
    &&& address_mod_8 == 0
    &&& fixed_checks_ok(decls, bytes, decls.len() as int)
}

/// The check of one field at `off`.
fn check_field(d: FixedDecl, bytes: &[u8], off: usize) -> (ok: bool)
    requires
        fixed_decl_wf(d),
        off + fixed_slot_len(d) <= bytes@.len(),
        !is_flexible(d) ==> off < bytes@.len() || fixed_slot_len(d) == 0,
    ensures
        ok == fixed_check(d, bytes@, off as nat),
{
    let len = bytes.len();
    match d {
        FixedDecl::Value(_) => true,
        FixedDecl::Option(_) => bytes[off] == 0 || bytes[off] == 1,
        FixedDecl::FlexibleOption(k) => {
            if off == len {
                true
            } else if bytes[off] == 0 {
                true
            } else if bytes[off] == 1 {
                k.size() <= len - off - 1
            } else {
                false
            }
        },
        FixedDecl::Vec { elem, capacity } => {
            let w = header_width_of(capacity);
            proof {
                assert(w <= fixed_slot_len(d)) by (nonlinear_arith)
                    requires
                        fixed_slot_len(d) == w + elem.spec_size() * capacity,
                        elem.spec_size() * capacity >= 0,
                ;
            }
            let n = read_le(bytes, off, w);
            n <= capacity as u64
        },
        FixedDecl::FlexibleVec { elem, len_width } => {
            if off == len {
                return true;
            }
            if len_width > len - off {
                return false;
            }
            let raw = read_le(bytes, off, len_width);
            if raw > MAX_FIXED_CAPACITY as u64 {
                return false;
            }
            let n = raw as usize;
            let size = elem.size();
            let room = len - off - len_width;
            proof {
                if size != 0 {
                    if n <= room / size {
                        assert(n * size <= room) by (nonlinear_arith)
                            requires
                                size > 0,
                                n as int <= room as int / size as int,
                        ;
                    } else {
                        assert(n * size > room) by (nonlinear_arith)
                            requires
                                size > 0,
                                n as int > room as int / size as int,
                        ;
                    }
                }
                assert(n * size == n * elem.spec_size());
            }
            size == 0 || n <= room / size
        },
    }
}

/// A checked encoding of a fixed-offset layout, read field by field.
#[derive(Debug)]
pub struct FixedView<'a> {
    layout: &'a FixedLayout,
    bytes: &'a [u8],
}

impl<'a> FixedView<'a> {
    pub closed spec fn spec_layout(&self) -> Seq<FixedDecl> {
        self.layout@
    }

    pub closed spec fn spec_bytes(&self) -> Seq<u8> {
        self.bytes@
    }

    pub closed spec fn wf(&self) -> bool {
        &&& self.layout.wf()
        &&& fixed_decodes(self.layout@, self.bytes@, 0)
    }

    /// The checked bytes.
    pub fn bytes(&self) -> (b: &'a [u8])
        ensures
            b@ == self.spec_bytes(),
    {
        self.bytes
    }
}

impl FixedLayout {
    /// Checks `bytes`, which start `address_mod_8` bytes past an 8-byte
    /// aligned address, and returns a view of them: the length must be valid,
    /// the address 8-byte aligned, every option tag 0 or 1, every `Vec`
    /// length within its capacity, and a trailing flexible field either cut
    /// off entirely or whole; else `InvalidInstructionData`.
    pub fn decode<'a>(&'a self, bytes: &'a [u8], address_mod_8: usize) -> (r: Result<
        FixedView<'a>,
        FixedLayoutError,
    >)
        requires
            self.wf(),
            address_mod_8 < 8,
        ensures
            r is Ok <==> fixed_decodes(self@, bytes@, address_mod_8 as nat),
            r matches Ok(v) ==> v.wf() && v.spec_layout() == self@ && v.spec_bytes() == bytes@,
            r matches Err(e) ==> e == FixedLayoutError::InvalidInstructionData,
    {
        proof {
            self.lemma_wf();
        }
        let ghost decls = self@;
        let n = self.decls.len();
        let len = bytes.len();
        let flexible = n > 0 && match self.decls[n - 1] {
            FixedDecl::FlexibleOption(_) | FixedDecl::FlexibleVec { .. } => true,
            _ => false,
        };
        let len_ok = if flexible {
            self.data_len <= len && len <= self.max_len
        } else {
            len == self.data_len
        };
        if !len_ok || address_mod_8 != 0 {
            return Err(FixedLayoutError::InvalidInstructionData);
        }
        proof {
            assert forall|j: int| 0 <= j < decls.len() implies fixed_decl_wf(#[trigger] decls[j]) by {
                lemma_decl_wf(decls[j], j as nat, decls.len());
            }
            assert forall|j: int| 0 <= j < decls.len() - 1 implies !is_flexible(#[trigger] decls[j]) by {
                lemma_decl_wf(decls[j], j as nat, decls.len());
            }
        }
        let mut i: usize = 0;
        while i < n
            invariant
                self.wf(),
                decls == self@,
                n == decls.len(),
                len == bytes@.len(),
                fixed_len_ok(decls, len as nat),
                address_mod_8 == 0,
                forall|j: int| 0 <= j < decls.len() ==> fixed_decl_wf(#[trigger] decls[j]),
                forall|j: int| 0 <= j < decls.len() - 1 ==> !is_flexible(#[trigger] decls[j]),
                i <= n,
                fixed_checks_ok(decls, bytes@, i as int),
            decreases n - i,
        {
            let d = self.decls[i];
            let off = self.offsets[i];
            proof {
                lemma_offset_monotonic(decls, i + 1, n as int);
                if !is_flexible(d) && fixed_slot_len(d) > 0 {
                    assert(off < bytes@.len());
                }
            }
            if !check_field(d, bytes, off) {
                return Err(FixedLayoutError::InvalidInstructionData);
            }
            proof {
                assert forall|j: int| 0 <= j < i + 1 implies #[trigger] fixed_check(
                    decls[j],
                    bytes@,
                    fixed_offset(decls, j),
                ) by {
                    if j < i {
                        assert(fixed_checks_ok(decls, bytes@, i as int));
                    }
                }
            }
            i = i + 1;
        }
        Ok(FixedView { layout: self, bytes })
    }
}


/// In an accepted layout, each field's payload (or element 0) lies at a
/// multiple of the alignment its reads rely on.
pub proof fn lemma_aligned_payload(decls: Seq<FixedDecl>, i: int)
    requires
        fixed_accepts(decls),
        0 <= i < decls.len(),
    ensures
        borrow_align(decls[i]) matches Some(a) ==> 1 <= a <= MAX_BORROW_ALIGN && (fixed_offset(
            decls,
            i,
        ) + payload_shift(decls[i])) % a == 0,
{
    lemma_no_issues_offsets(decls, decls.len() as int);
    lemma_no_decl_error(decls, 0, i as nat);
    let d = decls[i];
    assert(alignment_issue(decls, i) is None);
    match borrow_align(d) {
        Some(a) => {
            assert(a >= 1) by {
                match d {
                    FixedDecl::Value(k) | FixedDecl::Option(k) | FixedDecl::FlexibleOption(k) => {
                        assert(k.wf());
                    },
                    FixedDecl::Vec { elem, .. } | FixedDecl::FlexibleVec { elem, .. } => {
                        assert(elem.wf());
                    },
                }
            }
        },
        None => {},
    }
}

impl<'a> FixedView<'a> {
    /// The slot of field `i` passes the checks a read relies on.
    proof fn lemma_slot_valid(&self, i: int)
        requires
            self.wf(),
            0 <= i < self.spec_layout().len(),
            !flexible_absent(self.spec_layout(), self.spec_bytes(), i),
        ensures
            validate_slot(
                read_layout(self.spec_layout()[i]),
                self.spec_bytes(),
                fixed_offset(self.spec_layout(), i),
                Seq::empty(),
                0,
            ) is Ok,
            crate::variable::field_wf(read_layout(self.spec_layout()[i])),
            fixed_offset(self.spec_layout(), i) <= self.spec_bytes().len(),
    {
        let decls = self.layout@;
        let bytes = self.bytes@;
        let n = decls.len() as int;
        let d = decls[i];
        let off = fixed_offset(decls, i);
        self.layout.lemma_wf();
        lemma_decl_wf(d, i as nat, decls.len());
        lemma_aligned_payload(decls, i);
        lemma_offset_monotonic(decls, i + 1, n);
        lemma_byte_range_values();
        assert(fixed_check(d, bytes, off));
        match d {
            FixedDecl::Vec { elem, capacity } => {
                let size = elem.spec_size();
                let cnt = header_count(bytes, off, header_width(capacity as nat));
                assert(cnt * size <= capacity * size) by (nonlinear_arith)
                    requires
                        cnt <= capacity,
                ;
                assert(capacity * size == size * capacity) by (nonlinear_arith);
            },
            FixedDecl::FlexibleVec { elem, len_width } => {
                lemma_le_value_bound(bytes.subrange(off as int, (off + len_width) as int));
            },
            _ => {},
        }
    }

    /// The value of field `i`, read from the checked bytes; a flexible field
    /// that the bytes end before reads as absent, or empty.
    pub fn field(&self, i: usize) -> (r: FieldRead<'a>)
        requires
            self.wf(),
            i < self.spec_layout().len(),
        ensures
            r@ == fixed_field(self.spec_layout(), self.spec_bytes(), i as int),
    {
        proof {
            self.layout.lemma_wf();
        }
        let d = self.layout.decls[i];
        let off = self.layout.offsets[i];
        if off == self.bytes.len() {
            match d {
                FixedDecl::FlexibleOption(_) => {
                    return FieldRead::Optional(None);
                },
                FixedDecl::FlexibleVec { elem, .. } => {
                    let r = FieldRead::Items {
                        bytes: crate::decode::slice_range(self.bytes, off, off),
                        count: 0,
                        elem_size: elem.size(),
                    };
                    proof {
                        match r@ {
                            FieldData::Items(items) => {
                                assert(items =~= Seq::<Seq<u8>>::empty());
                            },
                            _ => {},
                        }
                    }
                    return r;
                },
                _ => {},
            }
        }
        proof {
            self.lemma_slot_valid(i as int);
        }
        let f = match d {
            FixedDecl::Value(k) => FieldLayout::Value { value: k, optional: OptionalKind::No },
            FixedDecl::Option(k) | FixedDecl::FlexibleOption(k) => FieldLayout::Value {
                value: k,
                optional: OptionalKind::Tagged,
            },
            FixedDecl::Vec { elem, capacity } => FieldLayout::Vec {
                elem,
                len_width: header_width_of(capacity),
            },
            FixedDecl::FlexibleVec { elem, len_width } => FieldLayout::Vec { elem, len_width },
        };
        let none: Vec<bool> = Vec::new();
        proof {
            assert(none@ =~= Seq::<bool>::empty());
        }
        slot_read(f, self.bytes, off, none.as_slice(), 0)
    }
}


/// The capacity a field declares, for a `Vec` with a capacity.
pub open spec fn declared_capacity(d: FixedDecl) -> Option<usize> {
    match d {
        FixedDecl::Vec { capacity, .. } => Some(capacity),
        _ => None,
    }
}

impl FixedLayout {
    /// The declarations of the fields.
    pub fn decls(&self) -> (r: &[FixedDecl])
        ensures
            r@ == self@,
    {
        self.decls.as_slice()
    }

    /// The byte offset at which each field starts.
    pub fn offsets(&self) -> (r: &[usize])
        requires
            self.wf(),
        ensures
            r@.len() == self@.len(),
            forall|i: int| 0 <= i < r@.len() ==> #[trigger] r@[i] == fixed_offset(self@, i),
    {
        self.offsets.as_slice()
    }

    /// The exact length of every encoding, when no field is
    /// flexible.
    pub fn data_len(&self) -> (r: Option<usize>)
        requires
            self.wf(),
        ensures
            r == (if has_flexible(self@) {
                None
            } else {
                Some(fixed_data_len(self@) as usize)
            }),
    {
        let n = self.decls.len();
        if n > 0 && match self.decls[n - 1] {
            FixedDecl::FlexibleOption(_) | FixedDecl::FlexibleVec { .. } => true,
            _ => false,
        } {
            None
        } else {
            Some(self.data_len)
        }
    }

    /// The length of the shortest encoding: the fixed part.
    pub fn min_data_len(&self) -> (r: usize)
        requires
            self.wf(),
        ensures
            r == fixed_data_len(self@),
    {
        self.data_len
    }

    /// The length of the longest encoding.
    pub fn max_data_len(&self) -> (r: usize)
        requires
            self.wf(),
        ensures
            r == fixed_max_len(self@),
    {
        self.max_len
    }

    /// The capacity of field `i`, when it is a `Vec` with a capacity.
    pub fn capacity(&self, i: usize) -> (r: Option<usize>)
        requires
            i < self@.len(),
        ensures
            r == declared_capacity(self@[i as int]),
    {
        match self.decls[i] {
            FixedDecl::Vec { capacity, .. } => Some(capacity),
            _ => None,
        }
    }
}


} // verus!
