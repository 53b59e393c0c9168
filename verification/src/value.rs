use vstd::prelude::*;

verus! {

/// The largest alignment that a borrowed view may rely on: layouts only assume
/// that the base of the input buffer is 8-byte aligned.
pub const MAX_BORROW_ALIGN: usize = 8;

/// The kind of a fixed-size value stored in a layout slot.
///
/// - `Bool` is one byte; `0` means `false`, anything else decodes as `true`.
/// - `Int` is a little-endian integer primitive of 1, 2, 4, 8 or 16 bytes,
///   aligned to its size.
/// - `Pubkey` is 32 raw bytes with alignment 1.
/// - `Array` is a fixed-size array of integers (or of such arrays) with the
///   given total size and the alignment of its element.
#[derive(Clone, Copy, Debug, PartialEq, Eq, Structural)]
pub enum ValueKind {
    Bool,
    Int { size: usize },
    Pubkey,
    Array { size: usize, align: usize },
}

pub open spec fn is_int_size(n: nat) -> bool {
    n == 1 || n == 2 || n == 4 || n == 8 || n == 16
}

impl ValueKind {
    pub open spec fn spec_size(self) -> nat {
        match self {
            ValueKind::Bool => 1,
            ValueKind::Pubkey => 32,
            ValueKind::Int { size } => size as nat,
            ValueKind::Array { size, .. } => size as nat,
        }
    }

    pub open spec fn spec_align(self) -> nat {
        match self {
            ValueKind::Bool => 1,
            ValueKind::Pubkey => 1,
            ValueKind::Int { size } => size as nat,
            ValueKind::Array { align, .. } => align as nat,
        }
    }

    /// Values larger than 8 bytes are read by reference rather than copied.
    pub open spec fn spec_is_borrowed(self) -> bool {
        self.spec_size() > 8
    }

    pub open spec fn wf(self) -> bool {
        match self {
            ValueKind::Int { size } => is_int_size(size as nat),
            ValueKind::Array { align, .. } => is_int_size(align as nat),
            _ => true,
        }
    }

    /// The number of bytes a value of this kind occupies.
    pub fn size(&self) -> (n: usize)
        ensures
            n == self.spec_size(),
    {
        match self {
            ValueKind::Bool => 1,
            ValueKind::Pubkey => 32,
            ValueKind::Int { size } => *size,
            ValueKind::Array { size, .. } => *size,
        }
    }

    /// The alignment a borrowed reference to this kind needs.
    pub fn align(&self) -> (n: usize)
        ensures
            n == self.spec_align(),
    {
        match self {
            ValueKind::Bool => 1,
            ValueKind::Pubkey => 1,
            ValueKind::Int { size } => *size,
            ValueKind::Array { align, .. } => *align,
        }
    }

    /// Whether views hand out a reference to the stored bytes (values larger
    /// than 8 bytes) instead of a copy.
    pub fn is_borrowed(&self) -> (b: bool)
        ensures
            b == self.spec_is_borrowed(),
    {
        self.size() > 8
    }

    /// Whether this kind is well formed.
    pub fn check(&self) -> (b: bool)
        ensures
            b == self.wf(),
    {
        match self {
            ValueKind::Int { size } => *size == 1 || *size == 2 || *size == 4 || *size == 8
                || *size == 16,
            ValueKind::Array { align, .. } => *align == 1 || *align == 2 || *align == 4
                || *align == 8 || *align == 16,
            _ => true,
        }
    }
}

/// The kind of an array of `len` elements of kind `elem`, which must be an
/// integer or itself an array: `len` times the element's size, with the
/// element's alignment. Other element kinds make no array, and neither does
/// a size that does not fit in `usize`.
pub open spec fn spec_array_of(elem: ValueKind, len: usize) -> Option<ValueKind> {
    match elem {
        ValueKind::Int { .. } | ValueKind::Array { .. } => if elem.spec_size() * len <= usize::MAX {
            Some(
                ValueKind::Array {
                    size: (elem.spec_size() * len) as usize,
                    align: elem.spec_align() as usize,
                },
            )
        } else {
            None
        },
        _ => None,
    }
}

impl ValueKind {
    /// The kind of `[T; len]` for an element kind `elem` (see
    /// `spec_array_of`).
    pub fn array_of(elem: ValueKind, len: usize) -> (r: Option<ValueKind>)
        ensures
            r == spec_array_of(elem, len),
            elem.wf() && r is Some ==> r->Some_0.wf(),
    {
        match elem {
            ValueKind::Int { size } | ValueKind::Array { size, .. } => match size.checked_mul(len) {
                Some(total) => Some(ValueKind::Array { size: total, align: elem.align() }),
                None => None,
            },
            _ => None,
        }
    }
}

/// Whether `p` is a valid stored payload for a value of kind `k`.
pub open spec fn payload_ok(k: ValueKind, p: Seq<u8>) -> bool {
    &&& p.len() == k.spec_size()
    &&& k is Bool ==> p[0] <= 1
}

/// The value of one field of a record, as the bytes of its payload(s).
///
/// Integers are given in little-endian order, `bool` as the byte `0` or `1`,
/// keys and arrays as their raw bytes.
#[derive(Clone, Debug, PartialEq, Eq)]
pub enum FieldValue {
    /// A plain field.
    Value(Vec<u8>),
    /// An `Option<T>` field.
    Optional(Option<Vec<u8>>),
    /// A `Vec<T>` field: one payload per element.
    Items(Vec<Vec<u8>>),
}

/// The mathematical content of a field value.
pub enum FieldData {
    Value(Seq<u8>),
    Optional(Option<Seq<u8>>),
    Items(Seq<Seq<u8>>),
}

pub open spec fn items_view(v: Vec<Vec<u8>>) -> Seq<Seq<u8>> {
    Seq::new(v@.len(), |i: int| v@[i]@)
}

impl View for FieldValue {
    type V = FieldData;

    open spec fn view(&self) -> FieldData {
        match self {
            FieldValue::Value(p) => FieldData::Value(p@),
            FieldValue::Optional(o) => FieldData::Optional(
                match o {
                    Some(p) => Some(p@),
                    None => None,
                },
            ),
            FieldValue::Items(v) => FieldData::Items(items_view(*v)),
        }
    }
}

/// The contents of a sequence of field values.
pub open spec fn values_view(v: Seq<FieldValue>) -> Seq<FieldData> {
    Seq::new(v.len(), |i: int| v[i]@)
}

/// The concatenation of a sequence of payloads.
pub open spec fn flatten(items: Seq<Seq<u8>>) -> Seq<u8>
    decreases items.len(),
{
    if items.len() == 0 {
        Seq::empty()
    } else {
        flatten(items.drop_last()) + items.last()
    }
}

pub proof fn lemma_flatten_len(items: Seq<Seq<u8>>, size: nat)
    requires
        forall|i: int| 0 <= i < items.len() ==> #[trigger] items[i].len() == size,
    ensures
        flatten(items).len() == items.len() * size,
    decreases items.len(),
{
    if items.len() > 0 {
        lemma_flatten_len(items.drop_last(), size);
        assert(flatten(items).len() == (items.len() - 1) * size + size);
        assert((items.len() - 1) * size + size == items.len() * size) by (nonlinear_arith);
    }
}

} // verus!
