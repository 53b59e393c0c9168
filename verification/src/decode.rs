use vstd::prelude::*;
use crate::bytes::{le_value, lemma_le_value_bound, read_le};
use crate::error::DataLayoutError;
use crate::value::{FieldData, ValueKind};
use crate::variable::{capacity, capacity_of, field_wf, FieldLayout, OptionalKind};

verus! {

/// The check on the payload of a plain or present optional value that starts
/// at `data`, in a buffer that starts `base` bytes past an 8-byte aligned
/// address: borrowed values must be aligned, and the payload must fit.
pub open spec fn check_payload(value: ValueKind, len: nat, data: nat, base: nat) -> Result<
    nat,
    DataLayoutError,
> {
    if value.spec_is_borrowed() && (base + data) % value.spec_align() != 0 {
        Err(DataLayoutError::InvalidFieldAlignment)
    } else if data + value.spec_size() > len {
        Err(DataLayoutError::TruncatedPayload)
    } else {
        Ok(data + value.spec_size())
    }
}

/// The element count stored in the length header of a `Vec` slot at `off`.
pub open spec fn header_count(bytes: Seq<u8>, off: nat, len_width: nat) -> nat {
    le_value(bytes.subrange(off as int, (off + len_width) as int))
}

/// The check of one field's slot at `off`: the offset after it, or the error
/// that stops decoding. `present` gives the presence of implicit options, and
/// `base` the address of the buffer modulo 8.
pub open spec fn validate_slot(
    f: FieldLayout,
    bytes: Seq<u8>,
    off: nat,
    present: Seq<bool>,
    base: nat,
) -> Result<nat, DataLayoutError> {
    match f {
        FieldLayout::Value { value, optional } => match optional {
            OptionalKind::No => check_payload(value, bytes.len(), off, base),
            OptionalKind::Tagged => {
                if off >= bytes.len() {
                    Err(DataLayoutError::MissingOptionTag)
                } else if bytes[off as int] == 0 {
                    Ok(off + 1)
                } else if bytes[off as int] == 1 {
                    check_payload(value, bytes.len(), off + 1, base)
                } else {
                    Err(DataLayoutError::InvalidOptionTag)
                }
            },
            OptionalKind::Implicit(bit) => {
                if present[bit as int] {
                    check_payload(value, bytes.len(), off, base)
                } else {
                    Ok(off)
                }
            },
        },
        FieldLayout::Vec { elem, len_width } => {
            let data = off + len_width;
            if data > bytes.len() {
                Err(DataLayoutError::MissingLengthHeader)
            } else {
                let n = header_count(bytes, off, len_width as nat);
                if n > usize::MAX || n > capacity(len_width as nat) {
                    Err(DataLayoutError::LengthExceedsCapacity)
                } else if elem.spec_align() > 1 && n != 0 && (base + data) % (elem.spec_align() as int) != 0 {
                    Err(DataLayoutError::InvalidFieldAlignment)
                } else if data + n * elem.spec_size() > bytes.len() {
                    Err(DataLayoutError::TruncatedVectorPayload)
                } else {
                    Ok((data + n * elem.spec_size()) as nat)
                }
            }
        },
    }
}

/// Checking the slots of fields `i..` starting at `off`.
pub open spec fn validate_from(
    fields: Seq<FieldLayout>,
    bytes: Seq<u8>,
    present: Seq<bool>,
    i: nat,
    off: nat,
    base: nat,
) -> Result<nat, DataLayoutError>
    decreases fields.len() - i,
{
    if i >= fields.len() {
        Ok(off)
    } else {
        match validate_slot(fields[i as int], bytes, off, present, base) {
            Ok(next) => validate_from(fields, bytes, present, i + 1, next, base),
            Err(e) => Err(e),
        }
    }
}

/// The offset after a slot, read the way views walk over a checked buffer.
pub open spec fn slot_end(f: FieldLayout, bytes: Seq<u8>, off: nat, present: Seq<bool>) -> nat {
    match f {
        FieldLayout::Value { value, optional } => match optional {
            OptionalKind::No => off + value.spec_size(),
            OptionalKind::Tagged => if bytes[off as int] == 0 {
                off + 1
            } else {
                off + 1 + value.spec_size()
            },
            OptionalKind::Implicit(bit) => if present[bit as int] {
                off + value.spec_size()
            } else {
                off
            },
        },
        FieldLayout::Vec { elem, len_width } => (off + len_width + header_count(
            bytes,
            off,
            len_width as nat,
        ) * elem.spec_size()) as nat,
    }
}

/// The offset at which the slot of field `i` starts.
pub open spec fn slot_start(
    fields: Seq<FieldLayout>,
    bytes: Seq<u8>,
    present: Seq<bool>,
    i: nat,
) -> nat
    decreases i,
{
    if i == 0 {
        0
    } else {
        slot_end(fields[i - 1], bytes, slot_start(fields, bytes, present, (i - 1) as nat), present)
    }
}

/// The value stored in the slot of field `f` at `off`.
pub open spec fn slot_data(f: FieldLayout, bytes: Seq<u8>, off: nat, present: Seq<bool>) -> FieldData {
    match f {
        FieldLayout::Value { value, optional } => {
            let size = value.spec_size();
            match optional {
                OptionalKind::No => FieldData::Value(bytes.subrange(off as int, (off + size) as int)),
                OptionalKind::Tagged => if bytes[off as int] == 0 {
                    FieldData::Optional(None)
                } else {
                    FieldData::Optional(Some(bytes.subrange((off + 1) as int, (off + 1 + size) as int)))
                },
                OptionalKind::Implicit(bit) => if present[bit as int] {
                    FieldData::Optional(Some(bytes.subrange(off as int, (off + size) as int)))
                } else {
                    FieldData::Optional(None)
                },
            }
        },
        FieldLayout::Vec { elem, len_width } => {
            let n = header_count(bytes, off, len_width as nat);
            let data = off + len_width;
            let size = elem.spec_size();
            FieldData::Items(
                Seq::new(n, |k: int| bytes.subrange(data + k * size, data + (k + 1) * size)),
            )
        },
    }
}

/// The value of field `i` in a checked buffer.
pub open spec fn decoded_field(
    fields: Seq<FieldLayout>,
    bytes: Seq<u8>,
    present: Seq<bool>,
    i: nat,
) -> FieldData {
    slot_data(fields[i as int], bytes, slot_start(fields, bytes, present, i), present)
}

/// Whether every implicit option of `fields` has a presence flag.
pub open spec fn present_covers(fields: Seq<FieldLayout>, present: Seq<bool>) -> bool {
    forall|i: int|
        0 <= i < fields.len() ==> match #[trigger] fields[i] {
            FieldLayout::Value { optional: OptionalKind::Implicit(bit), .. } => bit < present.len(),
            _ => true,
        }
}

pub proof fn lemma_validate_slot_end(
    f: FieldLayout,
    bytes: Seq<u8>,
    off: nat,
    present: Seq<bool>,
    base: nat,
)
    requires
        validate_slot(f, bytes, off, present, base) is Ok,
        off <= bytes.len(),
    ensures
        validate_slot(f, bytes, off, present, base) == Ok::<nat, DataLayoutError>(
            slot_end(f, bytes, off, present),
        ),
        off <= slot_end(f, bytes, off, present),
        slot_end(f, bytes, off, present) <= bytes.len(),
{
    match f {
        FieldLayout::Vec { elem, len_width } => {
            let n = header_count(bytes, off, len_width as nat);
            assert(n * elem.spec_size() >= 0) by (nonlinear_arith);
            let data = off + len_width;
            assert(data <= bytes.len());
            assert(data + n * elem.spec_size() <= bytes.len());
            assert(slot_end(f, bytes, off, present) == data + n * elem.spec_size());
        },
        _ => {},
    }
}

/// On a buffer whose check succeeds, every slot starts where the walk of the
/// views says, and its own check succeeds.
pub proof fn lemma_validate_walk(
    fields: Seq<FieldLayout>,
    bytes: Seq<u8>,
    present: Seq<bool>,
    base: nat,
    i: nat,
)
    requires
        validate_from(fields, bytes, present, 0, 0, base) is Ok,
        i <= fields.len(),
    ensures
        validate_from(fields, bytes, present, 0, 0, base) == validate_from(
            fields,
            bytes,
            present,
            i,
            slot_start(fields, bytes, present, i),
            base,
        ),
        slot_start(fields, bytes, present, i) <= bytes.len(),
        i < fields.len() ==> validate_slot(
            fields[i as int],
            bytes,
            slot_start(fields, bytes, present, i),
            present,
            base,
        ) is Ok,
    decreases i,
{
    if i > 0 {
        lemma_validate_walk(fields, bytes, present, base, (i - 1) as nat);
        let s = slot_start(fields, bytes, present, (i - 1) as nat);
        lemma_validate_slot_end(fields[i - 1], bytes, s, present, base);
    }
    if i < fields.len() {
        let s = slot_start(fields, bytes, present, i);
        if validate_slot(fields[i as int], bytes, s, present, base) is Err {
            assert(validate_from(fields, bytes, present, i, s, base) is Err);
        }
    }
}

/// The check of one slot at `off`, in a buffer whose address is `base`
/// modulo 8.
pub fn check_slot(f: FieldLayout, bytes: &[u8], off: usize, present: &[bool], base: usize) -> (r:
    Result<usize, DataLayoutError>)
    requires
        field_wf(f),
        off <= bytes@.len(),
        f matches FieldLayout::Value { optional: OptionalKind::Implicit(bit), .. } ==> bit
            < present@.len(),
    ensures
        match r {
            Ok(n) => validate_slot(f, bytes@, off as nat, present@, base as nat) == Ok::<
                nat,
                DataLayoutError,
            >(n as nat),
            Err(e) => validate_slot(f, bytes@, off as nat, present@, base as nat) == Err::<
                nat,
                DataLayoutError,
            >(e),
        },
{
    let len = bytes.len();
    match f {
        FieldLayout::Value { value, optional } => match optional {
            OptionalKind::No => check_payload_at(value, len, off, base),
            OptionalKind::Tagged => {
                if off >= len {
                    Err(DataLayoutError::MissingOptionTag)
                } else if bytes[off] == 0 {
                    Ok(off + 1)
                } else if bytes[off] == 1 {
                    check_payload_at(value, len, off + 1, base)
                } else {
                    Err(DataLayoutError::InvalidOptionTag)
                }
            },
            OptionalKind::Implicit(bit) => {
                if present[bit] {
                    check_payload_at(value, len, off, base)
                } else {
                    Ok(off)
                }
            },
        },
        FieldLayout::Vec { elem, len_width } => {
            if len_width > len - off {
                return Err(DataLayoutError::MissingLengthHeader);
            }
            let data = off + len_width;
            let raw = read_le(bytes, off, len_width);
            let cap = capacity_of(len_width);
            if raw > usize::MAX as u64 || raw > cap {
                return Err(DataLayoutError::LengthExceedsCapacity);
            }
            let n = raw as usize;
            let align = elem.align();
            if align > 1 && n != 0 && misaligned(base, data, align) {
                return Err(DataLayoutError::InvalidFieldAlignment);
            }
            let size = elem.size();
            if size != 0 && n > (len - data) / size {
                proof {
                    assert(n * size > len - data) by (nonlinear_arith)
                        requires
                            size > 0,
                            n as int > (len - data) as int / size as int,
                    ;
                }
                return Err(DataLayoutError::TruncatedVectorPayload);
            }
            proof {
                assert(n * size <= len - data) by (nonlinear_arith)
                    requires
                        size == 0 || n as int <= (len - data) as int / size as int,
                        data <= len,
                ;
            }
            Ok(data + n * size)
        },
    }
}

/// Whether `data` bytes past an address that is `base` modulo 8 is not a
/// multiple of `align`.
fn misaligned(base: usize, data: usize, align: usize) -> (b: bool)
    requires
        align > 0,
    ensures
        b == ((base + data) % (align as int) != 0),
{
    let r1 = base % align;
    let r2 = data % align;
    proof {
        vstd::arithmetic::div_mod::lemma_add_mod_noop(base as int, data as int, align as int);
        if r1 > 0 {
            vstd::arithmetic::div_mod::lemma_mod_self_0(align as int);
            if r1 + r2 == align {
            } else if r1 + r2 < align {
                vstd::arithmetic::div_mod::lemma_small_mod((r1 + r2) as nat, align as nat);
            } else {
                vstd::arithmetic::div_mod::lemma_mod_sub_multiples_vanish((r1 + r2) as int, align as int);
                vstd::arithmetic::div_mod::lemma_small_mod((r1 + r2 - align) as nat, align as nat);
            }
        } else {
            vstd::arithmetic::div_mod::lemma_small_mod(r2 as nat, align as nat);
        }
    }
    if r1 == 0 {
        r2 != 0
    } else {
        r2 != align - r1
    }
}

fn check_payload_at(value: ValueKind, len: usize, data: usize, base: usize) -> (r: Result<
    usize,
    DataLayoutError,
>)
    requires
        value.wf(),
    ensures
        match r {
            Ok(n) => check_payload(value, len as nat, data as nat, base as nat) == Ok::<
                nat,
                DataLayoutError,
            >(n as nat),
            Err(e) => check_payload(value, len as nat, data as nat, base as nat) == Err::<
                nat,
                DataLayoutError,
            >(e),
        },
{
    if value.is_borrowed() && misaligned(base, data, value.align()) {
        return Err(DataLayoutError::InvalidFieldAlignment);
    }
    let size = value.size();
    if data > len || size > len - data {
        return Err(DataLayoutError::TruncatedPayload);
    }
    Ok(data + size)
}

} // verus!

verus! {

/// Checking a buffer cut right after the checked slots gives the same result.
pub proof fn lemma_validate_truncate(
    fields: Seq<FieldLayout>,
    bytes: Seq<u8>,
    present: Seq<bool>,
    i: nat,
    off: nat,
    n: nat,
    base: nat,
)
    requires
        validate_from(fields, bytes, present, i, off, base) == Ok::<nat, DataLayoutError>(n),
        off <= bytes.len(),
    ensures
        n <= bytes.len(),
        off <= n,
        validate_from(fields, bytes.take(n as int), present, i, off, base) == Ok::<
            nat,
            DataLayoutError,
        >(n),
    decreases fields.len() - i,
{
    if i < fields.len() {
        let f = fields[i as int];
        lemma_validate_slot_end(f, bytes, off, present, base);
        let m = slot_end(f, bytes, off, present);
        lemma_validate_truncate(fields, bytes, present, i + 1, m, n, base);
        let t = bytes.take(n as int);
        match f {
            FieldLayout::Vec { elem, len_width } => {
                assert(t.subrange(off as int, off + len_width) =~= bytes.subrange(
                    off as int,
                    off + len_width,
                ));
                let c = header_count(bytes, off, len_width as nat);
                assert(c * elem.spec_size() >= 0) by (nonlinear_arith);
            },
            _ => {},
        }
        assert(validate_slot(f, t, off, present, base) == validate_slot(f, bytes, off, present, base));
    }
}

/// A payload read from a checked buffer.
#[derive(Debug)]
pub enum FieldRead<'a> {
    /// The payload of a plain field.
    Value(&'a [u8]),
    /// The payload of an option, when present.
    Optional(Option<&'a [u8]>),
    /// The payloads of a `Vec` field, stored one after another.
    Items { bytes: &'a [u8], count: usize, elem_size: usize },
}

impl<'a> View for FieldRead<'a> {
    type V = FieldData;

    open spec fn view(&self) -> FieldData {
        match self {
            FieldRead::Value(p) => FieldData::Value(p@),
            FieldRead::Optional(o) => FieldData::Optional(
                match o {
                    Some(p) => Some(p@),
                    None => None,
                },
            ),
            FieldRead::Items { bytes, count, elem_size } => FieldData::Items(
                Seq::new(
                    *count as nat,
                    |k: int| bytes@.subrange(k * (*elem_size as int), (k + 1) * (*elem_size as int)),
                ),
            ),
        }
    }
}

/// The offset after the slot of `f` at `off` in a checked buffer.
pub fn slot_end_of(f: FieldLayout, bytes: &[u8], off: usize, present: &[bool], base: usize) -> (next:
    usize)
    requires
        field_wf(f),
        off <= bytes@.len(),
        validate_slot(f, bytes@, off as nat, present@, base as nat) is Ok,
        f matches FieldLayout::Value { optional: OptionalKind::Implicit(bit), .. } ==> bit
            < present@.len(),
    ensures
        next == slot_end(f, bytes@, off as nat, present@),
{
    let r = check_slot(f, bytes, off, present, base);
    proof {
        lemma_validate_slot_end(f, bytes@, off as nat, present@, base as nat);
    }
    match r {
        Ok(n) => n,
        Err(_) => off,
    }
}

/// The payload of the slot of `f` at `off` in a buffer checked from an
/// address that is `base` modulo 8.
pub fn slot_read<'a>(f: FieldLayout, bytes: &'a [u8], off: usize, present: &[bool], base: usize) -> (r:
    FieldRead<'a>)
    requires
        field_wf(f),
        off <= bytes@.len(),
        validate_slot(f, bytes@, off as nat, present@, base as nat) is Ok,
        f matches FieldLayout::Value { optional: OptionalKind::Implicit(bit), .. } ==> bit
            < present@.len(),
    ensures
        r@ == slot_data(f, bytes@, off as nat, present@),
{
    let total = bytes.len();
    proof {
        lemma_validate_slot_end(f, bytes@, off as nat, present@, base as nat);
    }
    match f {
        FieldLayout::Value { value, optional } => {
            let size = value.size();
            match optional {
                OptionalKind::No => FieldRead::Value(slice_range(bytes, off, off + size)),
                OptionalKind::Tagged => if bytes[off] == 0 {
                    FieldRead::Optional(None)
                } else {
                    FieldRead::Optional(Some(slice_range(bytes, off + 1, off + 1 + size)))
                },
                OptionalKind::Implicit(bit) => if present[bit] {
                    FieldRead::Optional(Some(slice_range(bytes, off, off + size)))
                } else {
                    FieldRead::Optional(None)
                },
            }
        },
        FieldLayout::Vec { elem, len_width } => {
            let raw = read_le(bytes, off, len_width);
            let count = raw as usize;
            let size = elem.size();
            let data = off + len_width;
            proof {
                assert(count * size >= 0) by (nonlinear_arith);
                assert(data + count * size <= total);
            }
            let items = slice_range(bytes, data, data + count * size);
            let r = FieldRead::Items { bytes: items, count, elem_size: size };
            proof {
                let expect = slot_data(f, bytes@, off as nat, present@);
                assert forall|k: int| 0 <= k < count implies #[trigger] items@.subrange(
                    k * (size as int),
                    (k + 1) * (size as int),
                ) == bytes@.subrange(data + k * size, data + (k + 1) * size) by {
                    assert(0 <= k * size) by (nonlinear_arith)
                        requires 0 <= k;
                    assert(k * size <= (k + 1) * size) by (nonlinear_arith)
                        requires 0 <= k;
                    assert((k + 1) * size <= count * size) by (nonlinear_arith)
                        requires k < count;
                    assert(items@.subrange(k * (size as int), (k + 1) * (size as int)) =~= bytes@.subrange(
                        data + k * size,
                        data + (k + 1) * size,
                    ));
                }
                assert(r@ == expect) by {
                    match r@ {
                        FieldData::Items(a) => match expect {
                            FieldData::Items(b) => {
                                assert(a =~= b);
                            },
                            _ => {},
                        },
                        _ => {},
                    }
                }
            }
            r
        },
    }
}

/// The bytes `s[a..b]`.
pub fn slice_range<'a>(s: &'a [u8], a: usize, b: usize) -> (r: &'a [u8])
    requires
        a <= b <= s@.len(),
    ensures
        r@ == s@.subrange(a as int, b as int),
{
    &s[a..b]
}

/// The value of a `bool` payload: any byte other than 0 is `true`.
pub fn read_bool(p: &[u8]) -> (b: bool)
    requires
        p@.len() >= 1,
    ensures
        b == (p@[0] != 0),
{
    p[0] != 0
}

/// The unsigned little-endian integer stored in a payload of at most 8 bytes.
pub fn read_uint(p: &[u8]) -> (v: u64)
    requires
        p@.len() <= 8,
    ensures
        v as nat == le_value(p@),
{
    let r = read_le(p, 0, p.len());
    proof {
        assert(p@.subrange(0, p@.len() as int) =~= p@);
    }
    r
}

} // verus!
