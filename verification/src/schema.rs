use vstd::prelude::*;
use crate::implicit::unique_subset_sums;
use crate::value::ValueKind;
use crate::variable::{implicit_sizes, max_len, FieldLayout, OptionEncoding, OptionalKind};

verus! {

/// How a field of a variable-offset layout is declared.
#[derive(Clone, Copy, Debug, PartialEq, Eq, Structural)]
pub enum FieldDecl {
    /// A plain field of the given kind.
    Value(ValueKind),
    /// An `Option<T>` field.
    Option(ValueKind),
    /// A `Vec<T>` field whose length header takes `len_width` bytes.
    Vec { elem: ValueKind, len_width: usize },
}

/// Why a variable-offset layout declaration is rejected.
#[derive(Clone, Copy, Debug, PartialEq, Eq, Structural)]
pub enum SchemaError {
    /// `buffer_offset` is not in `0..=7`.
    InvalidBufferOffset,
    /// A `Vec` length header width is not in `1..=8`.
    InvalidLenWidth { field: usize },
    /// `Vec<bool>` fields are not supported.
    VecOfBool { field: usize },
    /// An integer size or array alignment that no primitive has.
    InvalidValueKind { field: usize },
    /// `option = implicit` with a `Vec` field.
    ImplicitWithVec { field: usize },
    /// `option = implicit` without any `Option<T>` field.
    ImplicitWithoutOption,
    /// `option = implicit` with more than 128 `Option<T>` fields.
    TooManyImplicitOptions,
    /// Adding this implicit option makes two presence combinations encode to
    /// the same length.
    AmbiguousImplicitLengths { field: usize },
    /// With `buffer_offset = unaligned`, a borrowed field needs alignment.
    UnalignedBorrow { field: usize, align: usize },
    /// A borrowed field needs more than 8-byte alignment.
    AlignmentAboveEight { field: usize, align: usize },
    /// A borrowed field at a fixed offset is misaligned: its payload starts at
    /// `payload_offset`, whose address is `residue` modulo `align`.
    MisalignedAtFixedOffset { field: usize, payload_offset: usize, residue: usize, align: usize },
    /// After variable-sized fields, a borrowed field's address is always
    /// `residue` modulo `align`, which is not 0.
    MisalignedStable { field: usize, residue: usize, align: usize },
    /// After variable-sized fields, a borrowed field's address modulo `align`
    /// varies between encodings.
    MisalignedAfterVariable { field: usize, align: usize },
    /// The largest encoding does not fit in `usize`.
    TooLarge,
}

/// The error of a single field declaration, if any.
pub open spec fn decl_error(d: FieldDecl, i: nat) -> Option<SchemaError> {
    match d {
        FieldDecl::Vec { elem, len_width } => {
            if !(1 <= len_width <= 8) {
                Some(SchemaError::InvalidLenWidth { field: i as usize })
            } else if elem is Bool {
                Some(SchemaError::VecOfBool { field: i as usize })
            } else if !elem.wf() {
                Some(SchemaError::InvalidValueKind { field: i as usize })
            } else {
                None
            }
        },
        FieldDecl::Option(k) | FieldDecl::Value(k) => if !k.wf() {
            Some(SchemaError::InvalidValueKind { field: i as usize })
        } else {
            None
        },
    }
}

/// The first error among the declarations from `i` on.
pub open spec fn first_decl_error(decls: Seq<FieldDecl>, i: nat) -> Option<SchemaError>
    decreases decls.len() - i,
{
    if i >= decls.len() {
        None
    } else {
        match decl_error(decls[i as int], i) {
            Some(e) => Some(e),
            None => first_decl_error(decls, i + 1),
        }
    }
}

/// The number of `Option<T>` declarations.
pub open spec fn option_count(decls: Seq<FieldDecl>) -> nat
    decreases decls.len(),
{
    if decls.len() == 0 {
        0
    } else {
        option_count(decls.drop_last()) + if decls.last() is Option {
            1nat
        } else {
            0nat
        }
    }
}

/// The layout of declaration `i`.
pub open spec fn field_of(decls: Seq<FieldDecl>, e: OptionEncoding, i: int) -> FieldLayout {
    match decls[i] {
        FieldDecl::Value(k) => FieldLayout::Value { value: k, optional: OptionalKind::No },
        FieldDecl::Option(k) => FieldLayout::Value {
            value: k,
            optional: match e {
                OptionEncoding::Tagged => OptionalKind::Tagged,
                OptionEncoding::Implicit => OptionalKind::Implicit(
                    option_count(decls.take(i)) as usize,
                ),
            },
        },
        FieldDecl::Vec { elem, len_width } => FieldLayout::Vec { elem, len_width },
    }
}

/// The field layouts of all declarations.
pub open spec fn fields_of(decls: Seq<FieldDecl>, e: OptionEncoding) -> Seq<FieldLayout> {
    Seq::new(decls.len(), |i: int| field_of(decls, e, i))
}

/// Whether `field` is the first `Vec` declaration.
pub open spec fn is_first_vec(decls: Seq<FieldDecl>, field: nat) -> bool {
    &&& field < decls.len()
    &&& decls[field as int] is Vec
    &&& forall|j: int| 0 <= j < field ==> !(#[trigger] decls[j] is Vec)
}

/// The check that `option = implicit` puts on a layout, given that every
/// declaration is valid.
pub open spec fn implicit_options_error(decls: Seq<FieldDecl>, e: SchemaError) -> bool {
    let fields = fields_of(decls, OptionEncoding::Implicit);
    let sizes = implicit_sizes(fields);
    match e {
        SchemaError::ImplicitWithVec { field } => is_first_vec(decls, field as nat),
        SchemaError::ImplicitWithoutOption => (forall|j: int|
            0 <= j < decls.len() ==> !(#[trigger] decls[j] is Vec)) && option_count(decls) == 0,
        SchemaError::TooManyImplicitOptions => (forall|j: int|
            0 <= j < decls.len() ==> !(#[trigger] decls[j] is Vec)) && option_count(decls) > 128,
        SchemaError::AmbiguousImplicitLengths { field } => {
            &&& forall|j: int| 0 <= j < decls.len() ==> !(#[trigger] decls[j] is Vec)
            &&& 0 < option_count(decls) <= 128
            &&& field < fields.len()
            &&& fields[field as int] matches FieldLayout::Value {
                optional: OptionalKind::Implicit(bit),
                ..
            } && unique_subset_sums(sizes, bit as nat) && !unique_subset_sums(sizes, (bit + 1) as nat)
        },
        _ => false,
    }
}

/// Whether the implicit-option check accepts the declarations.
pub open spec fn implicit_options_ok(decls: Seq<FieldDecl>) -> bool {
    let fields = fields_of(decls, OptionEncoding::Implicit);
    &&& forall|j: int| 0 <= j < decls.len() ==> !(#[trigger] decls[j] is Vec)
    &&& 0 < option_count(decls) <= 128
    &&& unique_subset_sums(implicit_sizes(fields), implicit_sizes(fields).len())
}

} // verus!

verus! {

pub proof fn lemma_option_count_step(decls: Seq<FieldDecl>, i: int)
    requires
        0 <= i < decls.len(),
    ensures
        option_count(decls.take(i + 1)) == option_count(decls.take(i)) + if decls[i] is Option {
            1nat
        } else {
            0nat
        },
{
    assert(decls.take(i + 1).drop_last() =~= decls.take(i));
}

pub proof fn lemma_implicit_sizes_step(fields: Seq<FieldLayout>, i: int)
    requires
        0 <= i < fields.len(),
    ensures
        implicit_sizes(fields.take(i + 1)) == match fields[i] {
            FieldLayout::Value { value, optional: OptionalKind::Implicit(_) } => implicit_sizes(
                fields.take(i),
            ).push(value.spec_size()),
            _ => implicit_sizes(fields.take(i)),
        },
{
    assert(fields.take(i + 1).drop_last() =~= fields.take(i));
}

/// The implicit options of the declared layout are numbered in order.
pub proof fn lemma_implicit_count(decls: Seq<FieldDecl>, i: int)
    requires
        0 <= i <= decls.len(),
    ensures
        implicit_sizes(fields_of(decls, OptionEncoding::Implicit).take(i)).len() == option_count(
            decls.take(i),
        ),
    decreases i,
{
    let fields = fields_of(decls, OptionEncoding::Implicit);
    if i > 0 {
        lemma_implicit_count(decls, i - 1);
        lemma_implicit_sizes_step(fields, i - 1);
        lemma_option_count_step(decls, i - 1);
    } else {
        assert(fields.take(0) =~= Seq::<FieldLayout>::empty());
        assert(decls.take(0) =~= Seq::<FieldDecl>::empty());
    }
}

pub proof fn lemma_take_full<A>(s: Seq<A>)
    ensures
        s.take(s.len() as int) == s,
{
    assert(s.take(s.len() as int) =~= s);
}

} // verus!

verus! {

/// Whether the declarations pass every check before the alignment of
/// borrowed fields.
pub open spec fn structure_ok(
    bo: crate::variable::BufferOffset,
    oe: OptionEncoding,
    decls: Seq<FieldDecl>,
) -> bool {
    &&& bo matches crate::variable::BufferOffset::Fixed(b) ==> b <= 7
    &&& first_decl_error(decls, 0) is None
    &&& oe == OptionEncoding::Implicit ==> implicit_options_ok(decls)
    &&& max_len(fields_of(decls, oe)) <= usize::MAX
}

/// Whether `e` is the error of the first failing check before the alignment
/// of borrowed fields.
pub open spec fn structure_error(
    bo: crate::variable::BufferOffset,
    oe: OptionEncoding,
    decls: Seq<FieldDecl>,
    e: SchemaError,
) -> bool {
    let fields = fields_of(decls, oe);
    let no_vec = forall|j: int| 0 <= j < decls.len() ==> !(#[trigger] decls[j] is Vec);
    let bo_ok = bo matches crate::variable::BufferOffset::Fixed(b) ==> b <= 7;
    match e {
        SchemaError::InvalidBufferOffset => !bo_ok,
        SchemaError::InvalidLenWidth { .. } | SchemaError::VecOfBool { .. }
        | SchemaError::InvalidValueKind { .. } => bo_ok && first_decl_error(decls, 0) == Some(e),
        SchemaError::ImplicitWithVec { .. } | SchemaError::ImplicitWithoutOption
        | SchemaError::TooManyImplicitOptions => bo_ok && first_decl_error(decls, 0) is None && oe
            == OptionEncoding::Implicit && implicit_options_error(decls, e),
        SchemaError::TooLarge => bo_ok && first_decl_error(decls, 0) is None && (oe
            == OptionEncoding::Implicit ==> no_vec && 0 < option_count(decls) <= 128) && max_len(
            fields,
        ) > usize::MAX,
        SchemaError::AmbiguousImplicitLengths { .. } => bo_ok && first_decl_error(decls, 0) is None
            && oe == OptionEncoding::Implicit && max_len(fields) <= usize::MAX
            && implicit_options_error(decls, e),
        _ => false,
    }
}

} // verus!

verus! {

pub proof fn lemma_option_count_bound(decls: Seq<FieldDecl>)
    ensures
        option_count(decls) <= decls.len(),
    decreases decls.len(),
{
    if decls.len() > 0 {
        lemma_option_count_bound(decls.drop_last());
    }
}

pub proof fn lemma_first_decl_error_kind(decls: Seq<FieldDecl>, i: nat)
    ensures
        first_decl_error(decls, i) matches Some(e) ==> (e is InvalidLenWidth || e is VecOfBool
            || e is InvalidValueKind),
    decreases decls.len() - i,
{
    if i < decls.len() {
        lemma_first_decl_error_kind(decls, i + 1);
    }
}

} // verus!
