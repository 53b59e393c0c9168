use wheels::args::{check_fixed_layout_args, parse_layout_args, LayoutArgsError};
use wheels::fixed::{FixedDecl, FixedLayout, FixedSchemaError};
use wheels::schema::{FieldDecl, SchemaError};
use wheels::value::ValueKind;
use wheels::variable::{BufferOffset, OptionEncoding, VariableLayout};

fn int_kind(size: usize) -> ValueKind {
    ValueKind::Int { size }
}

fn bytes_array(size: usize) -> ValueKind {
    ValueKind::Array { size, align: 1 }
}

fn u64_array(n: usize) -> ValueKind {
    ValueKind::Array { size: 8 * n, align: 8 }
}

fn fixed_errors(decls: &[FixedDecl]) -> Vec<FixedSchemaError> {
    FixedLayout::new(decls).unwrap_err()
}

fn layout(attr: &str, decls: &[FieldDecl]) -> Result<VariableLayout, SchemaError> {
    let args = parse_layout_args(attr.as_bytes()).unwrap();
    VariableLayout::new(args.buffer_offset, args.option_encoding, decls)
}

fn variable_error(attr: &str, decls: &[FieldDecl]) -> SchemaError {
    layout(attr, decls).unwrap_err()
}

#[test]
fn fixed_offset_layout_reports_padding_for_large_field() {
    let errors = fixed_errors(&[FixedDecl::Value(int_kind(1)), FixedDecl::Value(u64_array(2))]);
    assert_eq!(
        errors,
        vec![FixedSchemaError::NeedsPadding { field: 1, padding: 7, start: 1, align: 8 }]
    );
}

#[test]
fn fixed_offset_layout_reports_padding_for_optional_payload() {
    let errors = fixed_errors(&[FixedDecl::Value(int_kind(1)), FixedDecl::Option(u64_array(2))]);
    assert_eq!(
        errors,
        vec![FixedSchemaError::NeedsPadding { field: 1, padding: 6, start: 2, align: 8 }]
    );
}

#[test]
fn fixed_offset_layout_reports_padding_for_vec_elements() {
    let errors = fixed_errors(&[
        FixedDecl::Value(int_kind(1)),
        FixedDecl::Value(bytes_array(7)),
        FixedDecl::Vec { elem: u64_array(2), capacity: 2 },
    ]);
    assert_eq!(
        errors,
        vec![FixedSchemaError::NeedsPadding { field: 2, padding: 7, start: 9, align: 8 }]
    );
}

#[test]
fn fixed_offset_layout_assumes_earlier_padding_errors_are_fixed() {
    let errors = fixed_errors(&[
        FixedDecl::Value(int_kind(1)),
        FixedDecl::Value(u64_array(2)),
        FixedDecl::Value(bytes_array(7)),
        FixedDecl::Vec { elem: u64_array(2), capacity: 2 },
    ]);
    assert_eq!(
        errors,
        vec![FixedSchemaError::NeedsPadding { field: 1, padding: 7, start: 1, align: 8 }]
    );
}

#[test]
fn fixed_offset_layout_rejects_alignment_above_eight() {
    let errors = fixed_errors(&[FixedDecl::Value(int_kind(16))]);
    assert_eq!(errors, vec![FixedSchemaError::AlignmentAboveEight { field: 0, align: 16 }]);
}

#[test]
fn variable_offset_layout_rejects_implicit_without_option() {
    let error = variable_error(
        "buffer_offset = 0, option = implicit",
        &[FieldDecl::Value(int_kind(2))],
    );
    assert_eq!(error, SchemaError::ImplicitWithoutOption);
}

#[test]
fn variable_offset_layout_rejects_implicit_with_vec() {
    let error = variable_error(
        "buffer_offset = 0, option = implicit",
        &[FieldDecl::Option(int_kind(2)), FieldDecl::Vec { elem: int_kind(1), len_width: 1 }],
    );
    assert_eq!(error, SchemaError::ImplicitWithVec { field: 1 });
}

#[test]
fn variable_offset_layout_rejects_implicit_with_ambiguous_subset_sums() {
    let error = variable_error(
        "buffer_offset = 0, option = implicit",
        &[FieldDecl::Option(int_kind(1)), FieldDecl::Option(int_kind(2)), FieldDecl::Option(bytes_array(3))],
    );
    assert_eq!(error, SchemaError::AmbiguousImplicitLengths { field: 2 });
}

#[test]
fn variable_offset_layout_rejects_invalid_buffer_offset() {
    assert_eq!(
        parse_layout_args(b"buffer_offset = 8").unwrap_err(),
        LayoutArgsError::BufferOffsetRange { index: 0 }
    );
    let error = VariableLayout::new(BufferOffset::Fixed(8), OptionEncoding::Tagged, &[FieldDecl::Value(int_kind(2))])
        .unwrap_err();
    assert_eq!(error, SchemaError::InvalidBufferOffset);
}

#[test]
fn variable_offset_layout_accepts_unaligned_buffer_offset() {
    layout(
        "buffer_offset = unaligned",
        &[
            FieldDecl::Value(int_kind(8)),
            FieldDecl::Value(ValueKind::Pubkey),
            FieldDecl::Vec { elem: int_kind(1), len_width: 1 },
        ],
    )
    .unwrap();
}

#[test]
fn variable_offset_layout_rejects_unaligned_borrowed_field_requiring_alignment() {
    let error = variable_error(
        "buffer_offset = unaligned",
        &[FieldDecl::Value(u64_array(2))],
    );
    assert_eq!(error, SchemaError::UnalignedBorrow { field: 0, align: 8 });
}

#[test]
fn variable_offset_layout_rejects_unaligned_vec_slice_requiring_alignment() {
    let error = variable_error(
        "buffer_offset = unaligned",
        &[FieldDecl::Vec { elem: int_kind(2), len_width: 1 }],
    );
    assert_eq!(error, SchemaError::UnalignedBorrow { field: 0, align: 2 });
}

#[test]
fn variable_offset_layout_accepts_flexible_len_width_eight() {
    layout(
        "buffer_offset = 0",
        &[FieldDecl::Value(int_kind(1)), FieldDecl::Vec { elem: int_kind(1), len_width: 8 }],
    )
    .unwrap();
}

#[test]
fn variable_offset_layout_rejects_invalid_flexible_len_width() {
    let error = variable_error(
        "buffer_offset = 0",
        &[FieldDecl::Vec { elem: int_kind(1), len_width: 9 }],
    );
    assert_eq!(error, SchemaError::InvalidLenWidth { field: 0 });
}

#[test]
fn variable_offset_layout_rejects_borrowed_field_when_buffer_offset_prevents_alignment() {
    let error = variable_error(
        "buffer_offset = 1",
        &[FieldDecl::Value(u64_array(2))],
    );
    assert_eq!(
        error,
        SchemaError::MisalignedAtFixedOffset { field: 0, payload_offset: 0, residue: 1, align: 8 }
    );
}

#[test]
fn variable_offset_layout_rejects_fixed_misaligned_vec_slice() {
    let error = variable_error(
        "buffer_offset = 0",
        &[FieldDecl::Value(int_kind(1)), FieldDecl::Vec { elem: int_kind(8), len_width: 1 }],
    );
    assert_eq!(
        error,
        SchemaError::MisalignedAtFixedOffset { field: 1, payload_offset: 2, residue: 2, align: 8 }
    );
}

#[test]
fn variable_offset_layout_rejects_vec_bool() {
    let error = variable_error(
        "buffer_offset = 0",
        &[FieldDecl::Vec { elem: ValueKind::Bool, len_width: 1 }],
    );
    assert_eq!(error, SchemaError::VecOfBool { field: 0 });
}

#[test]
fn variable_offset_layout_rejects_borrowed_field_after_unstable_variable_field() {
    let error = variable_error(
        "buffer_offset = 0",
        &[
            FieldDecl::Value(int_kind(1)),
            FieldDecl::Vec { elem: int_kind(1), len_width: 1 },
            FieldDecl::Value(u64_array(2)),
        ],
    );
    assert_eq!(error, SchemaError::MisalignedAfterVariable { field: 2, align: 8 });
}

#[test]
fn fixed_offset_layout_rejects_parameters() {
    assert_eq!(check_fixed_layout_args(b"mut"), Err(LayoutArgsError::ParametersNotSupported));
    assert_eq!(check_fixed_layout_args(b"  "), Ok(()));
}

#[test]
fn variable_offset_layout_rejects_unknown_parameters() {
    assert_eq!(
        parse_layout_args(b"foo = bar").unwrap_err(),
        LayoutArgsError::UnknownParameter { index: 0 }
    );
}

#[test]
fn variable_offset_layout_requires_buffer_offset() {
    assert_eq!(parse_layout_args(b"").unwrap_err(), LayoutArgsError::MissingBufferOffset);
}

#[test]
fn variable_offset_layout_rejects_unknown_buffer_offset_identifier() {
    assert_eq!(
        parse_layout_args(b"buffer_offset = dynamic").unwrap_err(),
        LayoutArgsError::BufferOffsetForm { index: 0 }
    );
}
