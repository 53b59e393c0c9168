use pinocchio::error::ProgramError;
use wheels::args::{check_fixed_layout_args, parse_layout_args, LayoutArgs, LayoutArgsError};
use wheels::bytes::{le_bytes_of, read_le};
use wheels::decode::{read_bool, read_uint, FieldRead};
use wheels::error::DataLayoutError;
use wheels::fixed::{FixedDecl, FixedLayout, FixedLayoutError, FixedSchemaError};
use wheels::implicit::length_table;
use wheels::layout::{DataLayoutKind, Decodable, Encodable, OptionalLayout, PrefixDecodable};
use wheels::lens::DataLens;
use wheels::program_error::error_from_program_code;
use wheels::record::VariableRecord;
use wheels::residue::gcd;
use wheels::schema::{FieldDecl, SchemaError};
use wheels::value::{FieldValue, ValueKind};
use wheels::variable::{BufferOffset, OptionEncoding, VariableLayout};

fn int_kind(size: usize) -> ValueKind {
    ValueKind::Int { size }
}

fn bytes_array(size: usize) -> ValueKind {
    ValueKind::Array { size, align: 1 }
}

fn u64_array(n: usize) -> ValueKind {
    ValueKind::Array { size: 8 * n, align: 8 }
}

/// A zeroed buffer of `len` bytes whose first byte is `skew` bytes past an
/// 8-byte aligned address.
struct Placed {
    buf: Vec<u8>,
    start: usize,
    len: usize,
}

impl Placed {
    fn new(len: usize, skew: usize) -> Self {
        let buf = vec![0u8; len + 16];
        let start = (8 - (buf.as_ptr() as usize) % 8) % 8 + skew;
        Placed { buf, start, len }
    }

    fn with(bytes: &[u8], skew: usize) -> Self {
        let mut p = Placed::new(bytes.len(), skew);
        p.bytes().copy_from_slice(bytes);
        p
    }

    fn bytes(&mut self) -> &mut [u8] {
        &mut self.buf[self.start..self.start + self.len]
    }

    fn get(&self) -> &[u8] {
        &self.buf[self.start..self.start + self.len]
    }
}

fn address_mod_8(bytes: &[u8]) -> usize {
    (bytes.as_ptr() as usize) % 8
}

fn le(v: u64, n: usize) -> Vec<u8> {
    v.to_le_bytes()[..n].to_vec()
}

fn value(v: u64, n: usize) -> FieldValue {
    FieldValue::Value(le(v, n))
}

fn byte_items(bytes: &[u8]) -> FieldValue {
    FieldValue::Items(bytes.iter().map(|b| vec![*b]).collect())
}

/// What a field reads back, as the value it would be encoded from.
fn read_back(read: FieldRead) -> FieldValue {
    match read {
        FieldRead::Value(p) => FieldValue::Value(p.to_vec()),
        FieldRead::Optional(o) => FieldValue::Optional(o.map(|p| p.to_vec())),
        FieldRead::Items { bytes, count, elem_size } => {
            assert_eq!(bytes.len(), count * elem_size);
            FieldValue::Items(bytes.chunks(elem_size.max(1)).take(count).map(|c| c.to_vec()).collect())
        }
    }
}

fn tagged(offset: usize, decls: &[FieldDecl]) -> VariableLayout {
    VariableLayout::new(BufferOffset::Fixed(offset), OptionEncoding::Tagged, decls).unwrap()
}

fn mixed_layout() -> VariableLayout {
    tagged(
        0,
        &[
            FieldDecl::Value(int_kind(2)),
            FieldDecl::Vec { elem: int_kind(2), len_width: 2 },
            FieldDecl::Option(int_kind(4)),
            FieldDecl::Option(ValueKind::Bool),
            FieldDecl::Value(ValueKind::Pubkey),
        ],
    )
}

fn mixed_values() -> Vec<FieldValue> {
    vec![
        value(0x1234, 2),
        FieldValue::Items(vec![le(1, 2), le(2, 2), le(0xFFFF, 2)]),
        FieldValue::Optional(Some(le(0xDEADBEEF, 4))),
        FieldValue::Optional(None),
        FieldValue::Value(vec![7; 32]),
    ]
}

#[test]
fn variable_roundtrip_reads_back_every_field() {
    let layout = mixed_layout();
    let values = mixed_values();
    let encoded = layout.encode(&values).unwrap();
    let placed = Placed::with(&encoded, 0);
    let view = layout.decode(placed.get(), 0).unwrap();
    for (i, v) in values.iter().enumerate() {
        assert_eq!(&read_back(view.field(i)), v);
    }
}

#[test]
fn implicit_roundtrip_reads_back_every_presence() {
    let layout = VariableLayout::new(
        BufferOffset::Fixed(3),
        OptionEncoding::Implicit,
        &[
            FieldDecl::Option(int_kind(1)),
            FieldDecl::Value(int_kind(2)),
            FieldDecl::Option(bytes_array(3)),
        ],
    )
    .unwrap();
    for (a, b) in [(false, false), (true, false), (false, true), (true, true)] {
        let values = vec![
            FieldValue::Optional(if a { Some(vec![5]) } else { None }),
            value(77, 2),
            FieldValue::Optional(if b { Some(vec![1, 2, 3]) } else { None }),
        ];
        let encoded = layout.encode(&values).unwrap();
        let placed = Placed::with(&encoded, 3);
        let view = layout.decode(placed.get(), 3).unwrap();
        for (i, v) in values.iter().enumerate() {
            assert_eq!(&read_back(view.field(i)), v);
        }
    }
}

#[test]
fn fixed_roundtrip_reads_back_every_field() {
    let layout = FixedLayout::new(&[
        FixedDecl::Value(int_kind(8)),
        FixedDecl::Option(int_kind(1)),
        FixedDecl::Vec { elem: int_kind(2), capacity: 300 },
        FixedDecl::FlexibleOption(bytes_array(5)),
    ])
    .unwrap();
    let values = vec![
        value(42, 8),
        FieldValue::Optional(None),
        FieldValue::Items(vec![le(3, 2), le(4, 2)]),
        FieldValue::Optional(Some(vec![1, 2, 3, 4, 5])),
    ];
    let encoded = layout.encode(&values).unwrap();
    assert_eq!(encoded.len(), layout.min_data_len() + 1 + 5);
    let placed = Placed::with(&encoded, 0);
    let view = layout.decode(placed.get(), 0).unwrap();
    for (i, v) in values.iter().enumerate() {
        assert_eq!(&read_back(view.field(i)), v);
    }
}

#[test]
fn encoded_lengths_are_valid_lengths() {
    let layout = mixed_layout();
    let encoded = layout.encode(&mixed_values()).unwrap();
    match layout.data_lens() {
        DataLens::Range(lo, hi) => assert!(lo <= encoded.len() && encoded.len() <= hi),
        other => panic!("expected a range: {:?}", other),
    }

    let exact = tagged(0, &[FieldDecl::Value(int_kind(4)), FieldDecl::Value(ValueKind::Bool)]);
    assert_eq!(exact.data_lens(), DataLens::Exact(5));
    assert_eq!(exact.encode(&[value(1, 4), FieldValue::Value(vec![0])]).unwrap().len(), 5);

    let several = tagged(0, &[FieldDecl::Option(int_kind(2)), FieldDecl::Option(int_kind(4))]);
    assert_eq!(several.data_lens(), DataLens::OneOf(vec![2, 4, 6, 8]));
    let both = several
        .encode(&[FieldValue::Optional(Some(le(1, 2))), FieldValue::Optional(Some(le(2, 4)))])
        .unwrap();
    assert_eq!(both.len(), 8);
}

#[test]
fn encode_to_leaves_the_rest_untouched() {
    let layout = mixed_layout();
    let values = mixed_values();
    let encoded = layout.encode(&values).unwrap();
    let mut out = vec![0xAA; encoded.len() + 5];
    let n = layout.encode_to(&values, &mut out).unwrap();
    assert_eq!(n, encoded.len());
    assert_eq!(&out[..n], encoded.as_slice());
    assert_eq!(&out[n..], &[0xAA; 5]);

    let fixed = FixedLayout::new(&[FixedDecl::Value(int_kind(2)), FixedDecl::Option(int_kind(1))]).unwrap();
    let mut out = vec![0xAA; 6];
    fixed.encode_to(&[value(9, 2), FieldValue::Optional(None)], &mut out).unwrap();
    assert_eq!(out, vec![9, 0, 0, 0, 0xAA, 0xAA]);
}

#[test]
fn fixed_encode_to_stops_at_the_first_vec_without_room() {
    let layout = FixedLayout::new(&[
        FixedDecl::Value(int_kind(2)),
        FixedDecl::Vec { elem: int_kind(1), capacity: 2 },
        FixedDecl::Value(int_kind(1)),
    ])
    .unwrap();
    let values = [value(0x0102, 2), byte_items(&[1, 2, 3]), value(9, 1)];
    let mut out = vec![0xAA; 6];
    assert_eq!(layout.encode_to(&values, &mut out), Err(FixedLayoutError::InvalidRealloc));
    assert_eq!(out, vec![2, 1, 0xAA, 0xAA, 0xAA, 0xAA]);
    assert_eq!(layout.encode(&values), Err(FixedLayoutError::InvalidRealloc));
}

#[test]
fn fixed_decode_reports_invalid_instruction_data() {
    let layout = FixedLayout::new(&[FixedDecl::Value(int_kind(2)), FixedDecl::Option(int_kind(1))]).unwrap();
    assert_eq!(layout.data_len(), Some(4));
    let good = Placed::with(&[1, 0, 1, 5], 0);
    assert!(layout.decode(good.get(), 0).is_ok());

    let short = Placed::with(&[1, 0, 1], 0);
    assert_eq!(layout.decode(short.get(), 0).unwrap_err(), FixedLayoutError::InvalidInstructionData);

    let skewed = Placed::with(&[1, 0, 1, 5], 1);
    assert_eq!(layout.decode(skewed.get(), address_mod_8(skewed.get())).unwrap_err(), FixedLayoutError::InvalidInstructionData);

    let bad_tag = Placed::with(&[1, 0, 2, 5], 0);
    assert_eq!(layout.decode(bad_tag.get(), 0).unwrap_err(), FixedLayoutError::InvalidInstructionData);
    assert_eq!(FixedLayoutError::InvalidRealloc.into_program_error(), ProgramError::InvalidRealloc);
}

#[test]
fn fixed_flexible_vec_longer_than_its_header_counts_is_refused() {
    let layout = FixedLayout::new(&[FixedDecl::FlexibleVec { elem: int_kind(1), len_width: 1 }]).unwrap();
    assert_eq!(layout.max_data_len(), 1 + 255);
    let items: Vec<u8> = (0..300).map(|i| i as u8).collect();
    assert_eq!(layout.encode(&[byte_items(&items)]).unwrap_err(), FixedLayoutError::InvalidRealloc);
    let full: Vec<u8> = (0..255).map(|i| i as u8).collect();
    let encoded = layout.encode(&[byte_items(&full)]).unwrap();
    assert_eq!(encoded.len(), 256);
    assert_eq!(encoded[0], 255);
    let placed = Placed::with(&encoded, 0);
    let view = layout.decode(placed.get(), 0).unwrap();
    assert_eq!(read_back(view.field(0)), byte_items(&full));
    let empty = layout.encode(&[byte_items(&[])]).unwrap();
    assert!(empty.is_empty());
}

#[test]
fn fixed_minimal_encodings_decode_as_absent_or_empty() {
    let option = FixedLayout::new(&[FixedDecl::Value(int_kind(2)), FixedDecl::FlexibleOption(int_kind(4))]).unwrap();
    let encoded = option.encode(&[value(9, 2), FieldValue::Optional(None)]).unwrap();
    assert_eq!(encoded, vec![9, 0]);
    let placed = Placed::with(&encoded, 0);
    let view = option.decode(placed.get(), 0).unwrap();
    assert_eq!(read_uint(&encoded[..2]), 9);
    assert_eq!(read_back(view.field(0)), value(9, 2));
    assert_eq!(read_back(view.field(1)), FieldValue::Optional(None));

    let vec = FixedLayout::new(&[FixedDecl::Value(int_kind(2)), FixedDecl::FlexibleVec { elem: int_kind(2), len_width: 2 }])
        .unwrap();
    let encoded = vec.encode(&[value(7, 2), FieldValue::Items(vec![])]).unwrap();
    assert_eq!(encoded, vec![7, 0]);
    let placed = Placed::with(&encoded, 0);
    let view = vec.decode(placed.get(), 0).unwrap();
    assert_eq!(read_back(view.field(1)), FieldValue::Items(vec![]));
    match view.field(1) {
        FieldRead::Items { bytes, count, .. } => {
            assert_eq!(count, 0);
            assert!(bytes.is_empty());
        }
        _ => panic!("a Vec field reads as items"),
    }
}

#[test]
fn fixed_flexible_fields_that_do_not_fit_are_refused() {
    // A trailing `Vec<u8>` whose header counts 100 elements in a 10-byte input.
    let layout = FixedLayout::new(&[
        FixedDecl::Value(int_kind(2)),
        FixedDecl::Value(bytes_array(5)),
        FixedDecl::FlexibleVec { elem: int_kind(1), len_width: 2 },
    ])
    .unwrap();
    assert_eq!(layout.min_data_len(), 7);
    let mut bytes = vec![0u8; 10];
    bytes[7..9].copy_from_slice(&100u16.to_le_bytes());
    let placed = Placed::with(&bytes, 0);
    assert_eq!(layout.decode(placed.get(), 0).unwrap_err(), FixedLayoutError::InvalidInstructionData);
    // Header 1 with its one element fits.
    bytes[7..9].copy_from_slice(&1u16.to_le_bytes());
    let placed = Placed::with(&bytes, 0);
    let view = layout.decode(placed.get(), 0).unwrap();
    assert_eq!(read_back(view.field(2)), byte_items(&[0]));
    // One byte of a two-byte header.
    let placed = Placed::with(&bytes[..8], 0);
    assert_eq!(layout.decode(placed.get(), 0).unwrap_err(), FixedLayoutError::InvalidInstructionData);

    // A present trailing option whose payload is cut short.
    let option = FixedLayout::new(&[FixedDecl::Value(int_kind(2)), FixedDecl::FlexibleOption(int_kind(4))]).unwrap();
    let placed = Placed::with(&[9, 0, 1, 5, 6], 0);
    assert_eq!(option.decode(placed.get(), 0).unwrap_err(), FixedLayoutError::InvalidInstructionData);
    let placed = Placed::with(&[9, 0, 0, 5, 6], 0);
    let view = option.decode(placed.get(), 0).unwrap();
    assert_eq!(read_back(view.field(1)), FieldValue::Optional(None));
}

#[test]
fn every_decode_error_has_an_input() {
    let layout = tagged(
        0,
        &[
            FieldDecl::Value(int_kind(2)),
            FieldDecl::Option(int_kind(1)),
            FieldDecl::Vec { elem: int_kind(1), len_width: 1 },
        ],
    );
    let check = |bytes: &[u8]| {
        let placed = Placed::with(bytes, 0);
        layout.decode(placed.get(), 0).map(|_| ()).unwrap_err()
    };
    assert_eq!(check(&[1]), DataLayoutError::TruncatedPayload);
    assert_eq!(check(&[1, 0]), DataLayoutError::MissingOptionTag);
    assert_eq!(check(&[1, 0, 3, 0]), DataLayoutError::InvalidOptionTag);
    assert_eq!(check(&[1, 0, 0]), DataLayoutError::MissingLengthHeader);
    assert_eq!(check(&[1, 0, 0, 2, 9]), DataLayoutError::TruncatedVectorPayload);
    assert_eq!(check(&[1, 0, 0, 1, 9, 9]), DataLayoutError::InvalidDataLength);

    let placed = Placed::with(&[1, 0, 0, 0], 0);
    assert_eq!(layout.decode(placed.get(), 4).map(|_| ()).unwrap_err(), DataLayoutError::InvalidBufferOffset);

    let small = tagged(0, &[FieldDecl::Vec { elem: int_kind(1), len_width: 1 }]);
    let placed = Placed::with(&[0], 0);
    assert!(small.decode(placed.get(), 0).is_ok());
    assert_eq!(small.encode(&[byte_items(&[0; 256])]).unwrap_err(), DataLayoutError::LengthExceedsCapacity);

    let wide = tagged(0, &[FieldDecl::Vec { elem: int_kind(1), len_width: 8 }]);
    let header = le(u32::MAX as u64 + 1, 8);
    let placed = Placed::with(&header, 0);
    assert_eq!(wide.decode(placed.get(), 0).map(|_| ()).unwrap_err(), DataLayoutError::LengthExceedsCapacity);

    // Run-time alignment is checked at the address the buffer starts at, so
    // an accepted layout decoded at its buffer offset never reports
    // `InvalidFieldAlignment`: elements at offset 3 of a slice that starts
    // at 1 modulo 8 are 2-byte aligned.
    let shifted = tagged(
        1,
        &[FieldDecl::Value(bytes_array(1)), FieldDecl::Vec { elem: int_kind(2), len_width: 2 }],
    );
    let placed = Placed::with(&[9, 1, 0, 5, 0], 1);
    let view = shifted.decode(placed.get(), 1).unwrap();
    assert_eq!(read_back(view.field(1)), FieldValue::Items(vec![vec![5, 0]]));
}

#[test]
fn borrowed_fields_read_back_at_a_skewed_buffer_offset() {
    // `values` lies at 1 + 7 == 0 modulo 8.
    let layout = tagged(1, &[FieldDecl::Value(bytes_array(7)), FieldDecl::Value(u64_array(2))]);
    let pad = FieldValue::Value(vec![1, 2, 3, 4, 5, 6, 7]);
    let values = FieldValue::Value([10u64.to_le_bytes(), 20u64.to_le_bytes()].concat());
    let encoded = layout.encode(&[pad.clone(), values.clone()]).unwrap();
    assert_eq!(encoded.len(), 23);
    let placed = Placed::with(&encoded, 1);
    assert_eq!(address_mod_8(placed.get()), 1);
    let view = layout.decode(placed.get(), 1).unwrap();
    assert_eq!(read_back(view.field(0)), pad);
    assert_eq!(read_back(view.field(1)), values);
    match view.field(1) {
        FieldRead::Value(p) => assert_eq!((p.as_ptr() as usize) % 8, 0),
        _ => panic!("a plain field reads as a value"),
    }
}

#[test]
fn length_tables_list_lengths_in_increasing_order() {
    assert_eq!(length_table(&[], 5), Ok(vec![]));
    let table = length_table(&[2, 1], 3).unwrap();
    let lengths: Vec<usize> = table.iter().map(|e| e.0).collect();
    assert_eq!(lengths, vec![3, 4, 5, 6]);
    assert_eq!(table[1].1, vec![false, true]);
    assert_eq!(table[2].1, vec![true, false]);
    assert_eq!(table[3].1, vec![true, true]);
    assert_eq!(length_table(&[1, 2, 3], 0).unwrap_err(), 2);
}

#[test]
fn error_codes_are_distinct_and_read_back() {
    let all = [
        DataLayoutError::InvalidDataLength,
        DataLayoutError::InvalidBufferOffset,
        DataLayoutError::InvalidOptionTag,
        DataLayoutError::LengthExceedsCapacity,
        DataLayoutError::OutputBufferTooSmall,
        DataLayoutError::MissingOptionTag,
        DataLayoutError::TruncatedPayload,
        DataLayoutError::InvalidFieldAlignment,
        DataLayoutError::MissingLengthHeader,
        DataLayoutError::TruncatedVectorPayload,
        DataLayoutError::InvalidImplicitOptionEncoding,
    ];
    for (i, e) in all.iter().enumerate() {
        assert_eq!(e.code(), DataLayoutError::MIN + i as u32);
        assert_eq!(DataLayoutError::try_from_code(e.code()), Some(*e));
        assert_eq!(error_from_program_code(e.code() as u64), Some(*e));
        assert!(!e.message().is_empty());
        let program = e.into_program_error();
        assert_eq!(program, ProgramError::Custom(e.code()));
        assert_eq!(u64::from(program.clone()), e.code() as u64);
        assert_eq!(DataLayoutError::try_from_program_error(program), Ok(*e));
    }
    assert_eq!(DataLayoutError::MIN, 0x444C_0000);
    assert_eq!(DataLayoutError::MAX, 0x444C_00FF);
    assert_eq!(DataLayoutError::try_from_code(DataLayoutError::MIN + 11), None);
    assert_eq!(DataLayoutError::try_from_code(0), None);
    assert_eq!(DataLayoutError::TruncatedVectorPayload.message(), "Truncated vector payload");
}

#[test]
fn program_errors_convert_both_ways() {
    let err = DataLayoutError::InvalidOptionTag.into_program_error();
    assert_eq!(err, ProgramError::Custom(0x444C_0002));
    assert_eq!(DataLayoutError::try_from_program_error(err), Ok(DataLayoutError::InvalidOptionTag));
    assert_eq!(
        DataLayoutError::try_from_program_error(ProgramError::InvalidArgument),
        Err(ProgramError::InvalidArgument)
    );
    assert_eq!(
        DataLayoutError::try_from_program_error(ProgramError::Custom(0)),
        Err(ProgramError::Custom(0))
    );
    assert_eq!(
        DataLayoutError::try_from_program_error(ProgramError::Custom(7)),
        Err(ProgramError::Custom(7))
    );
    assert_eq!(error_from_program_code(1 << 32), None);
    assert_eq!(error_from_program_code(3 << 32), None);
    assert_eq!(FixedLayoutError::InvalidInstructionData.program_code(), 3 << 32);
}

#[test]
fn tuples_encode_as_the_concatenation_of_their_parts() {
    let a_layout = tagged(0, &[FieldDecl::Value(int_kind(2))]);
    let b_layout = tagged(0, &[FieldDecl::Option(int_kind(1))]);
    let a_values = [value(0x0201, 2)];
    let b_values = [FieldValue::Optional(Some(vec![9]))];
    let a = VariableRecord::new(&a_layout, &a_values);
    let b = VariableRecord::new(&b_layout, &b_values);
    let pair = (a, b);
    assert_eq!(pair.encoded_len(), Ok(4));
    assert_eq!(pair.encode(), Ok(vec![1, 2, 1, 9]));

    let mut out = [0xAA; 6];
    let rest = pair.encode_to(&mut out).unwrap();
    assert_eq!(rest.len(), 2);
    assert_eq!(out, [1, 2, 1, 9, 0xAA, 0xAA]);

    let mut small = [0u8; 3];
    assert_eq!(pair.encode_to(&mut small).unwrap_err(), DataLayoutError::OutputBufferTooSmall);

    let c_values = [byte_items(&[1])];
    let c_layout = tagged(0, &[FieldDecl::Vec { elem: int_kind(1), len_width: 1 }]);
    let c = VariableRecord::new(&c_layout, &c_values);
    let single = (VariableRecord::new(&c_layout, &c_values),);
    assert_eq!(single.encode(), Ok(vec![1, 1]));
    let triple = (VariableRecord::new(&a_layout, &a_values), VariableRecord::new(&b_layout, &b_values), c);
    assert_eq!(triple.encode(), Ok(vec![1, 2, 1, 9, 1, 1]));

    let too_long = [byte_items(&[0; 300])];
    let bad = (VariableRecord::new(&a_layout, &a_values), VariableRecord::new(&c_layout, &too_long));
    assert_eq!(bad.encoded_len(), Err(DataLayoutError::LengthExceedsCapacity));
    assert_eq!(bad.encode(), Err(DataLayoutError::LengthExceedsCapacity));
}

#[test]
fn prefix_and_exact_decoding() {
    let layout = tagged(0, &[FieldDecl::Value(int_kind(1)), FieldDecl::Option(int_kind(1))]);
    let placed = Placed::with(&[5, 0, 7, 7], 0);
    let (view, rest) = PrefixDecodable::decode_prefix(&layout, placed.get(), 0).unwrap();
    assert_eq!(view.bytes(), &[5, 0]);
    assert_eq!(rest, &[7, 7]);
    assert_eq!(
        Decodable::decode(&layout, placed.get(), 0).map(|_| ()).unwrap_err(),
        DataLayoutError::InvalidDataLength
    );
    let exact = Placed::with(&[5, 1, 3], 0);
    let view = Decodable::decode(&layout, exact.get(), 0).unwrap();
    assert_eq!(read_back(view.field(1)), FieldValue::Optional(Some(vec![3])));

    let optional = OptionalLayout { inner: layout };
    assert!(optional.decode(&[], 0).unwrap().is_none());
    assert!(optional.decode(exact.get(), 0).unwrap().is_some());
    assert_eq!(optional.decode(&exact.get()[..1], 0).map(|_| ()).unwrap_err(), DataLayoutError::MissingOptionTag);
}

#[test]
fn layout_kinds() {
    assert!(<FixedLayout as DataLayoutKind>::IS_FIXED);
    assert!(!<VariableLayout as DataLayoutKind>::IS_FIXED);
}

#[test]
fn little_endian_helpers() {
    assert_eq!(le_bytes_of(0x0102_0304, 3), vec![4, 3, 2]);
    assert_eq!(le_bytes_of(0x0102_0304, 0), Vec::<u8>::new());
    assert_eq!(read_le(&[9, 4, 3, 2, 1], 1, 4), 0x0102_0304);
    assert_eq!(read_uint(&[0xFF; 8]), u64::MAX);
    assert!(read_bool(&[2]));
    assert!(!read_bool(&[0]));
}

#[test]
fn variable_declaration_errors() {
    let err = |offset: BufferOffset, options: OptionEncoding, decls: &[FieldDecl]| {
        VariableLayout::new(offset, options, decls).unwrap_err()
    };
    assert_eq!(
        err(BufferOffset::Fixed(0), OptionEncoding::Tagged, &[FieldDecl::Value(int_kind(3))]),
        SchemaError::InvalidValueKind { field: 0 }
    );
    assert_eq!(
        err(BufferOffset::Fixed(0), OptionEncoding::Tagged, &[FieldDecl::Value(int_kind(16))]),
        SchemaError::AlignmentAboveEight { field: 0, align: 16 }
    );
    assert_eq!(
        err(
            BufferOffset::Fixed(0),
            OptionEncoding::Tagged,
            &[FieldDecl::Vec { elem: bytes_array(8), len_width: 1 }, FieldDecl::Value(u64_array(2))]
        ),
        SchemaError::MisalignedStable { field: 1, residue: 1, align: 8 }
    );
    assert_eq!(
        err(
            BufferOffset::Fixed(0),
            OptionEncoding::Tagged,
            &[FieldDecl::Vec { elem: bytes_array(usize::MAX), len_width: 8 }]
        ),
        SchemaError::TooLarge
    );
    let many: Vec<FieldDecl> = (0..129).map(|_| FieldDecl::Option(int_kind(1))).collect();
    assert_eq!(err(BufferOffset::Fixed(0), OptionEncoding::Implicit, &many), SchemaError::TooManyImplicitOptions);
}

#[test]
fn fixed_declaration_errors() {
    let err = |decls: &[FixedDecl]| FixedLayout::new(decls).unwrap_err();
    assert_eq!(
        err(&[FixedDecl::Vec { elem: int_kind(1), capacity: 0x1_0000 }]),
        vec![FixedSchemaError::CapacityTooLarge { field: 0 }]
    );
    assert_eq!(
        err(&[FixedDecl::FlexibleOption(int_kind(1)), FixedDecl::Value(int_kind(1))]),
        vec![FixedSchemaError::FlexibleNotLast { field: 0 }]
    );
    assert_eq!(
        err(&[FixedDecl::FlexibleVec { elem: int_kind(1), len_width: 3 }]),
        vec![FixedSchemaError::InvalidFlexibleWidth { field: 0 }]
    );
    assert_eq!(
        err(&[FixedDecl::Vec { elem: ValueKind::Bool, capacity: 1 }]),
        vec![FixedSchemaError::VecOfBool { field: 0 }]
    );
    assert_eq!(
        err(&[FixedDecl::Value(u64_array(2)), FixedDecl::Option(int_kind(5))]),
        vec![FixedSchemaError::InvalidValueKind { field: 1 }]
    );
    assert_eq!(
        err(&[FixedDecl::Vec { elem: bytes_array(usize::MAX), capacity: 2 }]),
        vec![FixedSchemaError::TooLarge]
    );
    assert_eq!(
        err(&[
            FixedDecl::Value(int_kind(1)),
            FixedDecl::Value(u64_array(2)),
            FixedDecl::Value(int_kind(1)),
            FixedDecl::Vec { elem: int_kind(4), capacity: 1 },
        ]),
        vec![
            FixedSchemaError::NeedsPadding { field: 1, padding: 7, start: 1, align: 8 },
            FixedSchemaError::NeedsPadding { field: 3, padding: 2, start: 26, align: 4 },
        ]
    );
}

#[test]
fn layout_parameter_lists() {
    let ok = |attr: &str| parse_layout_args(attr.as_bytes()).unwrap();
    let err = |attr: &str| parse_layout_args(attr.as_bytes()).unwrap_err();
    assert_eq!(
        ok("buffer_offset = 1, option = implicit"),
        LayoutArgs { buffer_offset: BufferOffset::Fixed(1), option_encoding: OptionEncoding::Implicit }
    );
    assert_eq!(
        ok("\toption=implicit ,\n buffer_offset=7usize ,"),
        LayoutArgs { buffer_offset: BufferOffset::Fixed(7), option_encoding: OptionEncoding::Implicit }
    );
    assert_eq!(
        ok("buffer_offset = 3, buffer_offset = unaligned"),
        LayoutArgs { buffer_offset: BufferOffset::Unaligned, option_encoding: OptionEncoding::Tagged }
    );
    assert_eq!(ok("buffer_offset = 0_0").buffer_offset, BufferOffset::Fixed(0));
    assert_eq!(err("buffer_offset = 1_0"), LayoutArgsError::BufferOffsetRange { index: 0 });
    assert_eq!(err("buffer_offset = 99999999999999999999999"), LayoutArgsError::BufferOffsetRange { index: 0 });
    assert_eq!(err("option = 1, buffer_offset = 0"), LayoutArgsError::OptionForm { index: 0 });
    assert_eq!(err("option = explicit, buffer_offset = 0"), LayoutArgsError::OptionNotImplicit { index: 0 });
    assert_eq!(err("buffer_offset"), LayoutArgsError::UnknownParameter { index: 0 });
    assert_eq!(err("buffer_offset = 2, foo"), LayoutArgsError::UnknownParameter { index: 1 });
    assert_eq!(err("foo = bar, buffer_offset = x"), LayoutArgsError::UnknownParameter { index: 0 });
    assert_eq!(err("option = implicit"), LayoutArgsError::MissingBufferOffset);
    assert_eq!(err("   "), LayoutArgsError::MissingBufferOffset);
    assert_eq!(err("buffer_offset = 0 option"), LayoutArgsError::Syntax);
    assert_eq!(err(",,"), LayoutArgsError::Syntax);
    assert_eq!(ok("buffer_offset = 0x1").buffer_offset, BufferOffset::Fixed(1));
    assert_eq!(err("buffer_offset = 1 = 2"), LayoutArgsError::Syntax);
    assert_eq!(err("foo = bar, 3"), LayoutArgsError::Syntax);
}

#[test]
fn layout_parameters_take_rust_integer_literals_and_comments() {
    let ok = |attr: &str| parse_layout_args(attr.as_bytes()).unwrap();
    let err = |attr: &str| parse_layout_args(attr.as_bytes()).unwrap_err();
    assert_eq!(ok("buffer_offset = 0o7").buffer_offset, BufferOffset::Fixed(7));
    assert_eq!(ok("buffer_offset = 0b1_1").buffer_offset, BufferOffset::Fixed(3));
    assert_eq!(ok("buffer_offset = 0x_5u8").buffer_offset, BufferOffset::Fixed(5));
    assert_eq!(err("buffer_offset = 0X0"), LayoutArgsError::Syntax);
    assert_eq!(err("buffer_offset = 0xA"), LayoutArgsError::BufferOffsetRange { index: 0 });
    assert_eq!(err("buffer_offset = 0x"), LayoutArgsError::Syntax);
    assert_eq!(err("buffer_offset = 0x_"), LayoutArgsError::Syntax);
    assert_eq!(err("buffer_offset = 0b12"), LayoutArgsError::Syntax);
    assert_eq!(err("buffer_offset = 0o8"), LayoutArgsError::Syntax);
    assert_eq!(err("buffer_offset = 0x1g"), LayoutArgsError::Syntax);

    assert_eq!(
        ok("/* a */ buffer_offset /* b */ = 2 // c\n, option = implicit"),
        LayoutArgs { buffer_offset: BufferOffset::Fixed(2), option_encoding: OptionEncoding::Implicit }
    );
    assert_eq!(
        ok("buffer_offset = 2 // , option = implicit"),
        LayoutArgs { buffer_offset: BufferOffset::Fixed(2), option_encoding: OptionEncoding::Tagged }
    );
    assert_eq!(ok("/* a /* nested */ still */ buffer_offset = 1").buffer_offset, BufferOffset::Fixed(1));
    assert_eq!(ok("/**/ buffer_offset = 1 /***/").buffer_offset, BufferOffset::Fixed(1));
    assert_eq!(ok("//// not a doc comment\nbuffer_offset = 1").buffer_offset, BufferOffset::Fixed(1));
    assert_eq!(ok("\x0Bbuffer_offset = 1\x0C").buffer_offset, BufferOffset::Fixed(1));
    assert_eq!(err("/// doc\nbuffer_offset = 1"), LayoutArgsError::Syntax);
    assert_eq!(err("//! doc\nbuffer_offset = 1"), LayoutArgsError::Syntax);
    assert_eq!(err("/** doc */ buffer_offset = 1"), LayoutArgsError::Syntax);
    assert_eq!(err("/* open buffer_offset = 1"), LayoutArgsError::Syntax);
    assert_eq!(err("buffer_offset = 1 /"), LayoutArgsError::Syntax);
    assert_eq!(err("// only a comment"), LayoutArgsError::MissingBufferOffset);

    assert_eq!(err("option = true, buffer_offset = 0"), LayoutArgsError::OptionForm { index: 0 });
    assert_eq!(err("buffer_offset = false"), LayoutArgsError::BufferOffsetForm { index: 0 });
    assert_eq!(check_fixed_layout_args(b" /* none */ // here"), Ok(()));
}

#[test]
fn rejected_alignment_has_a_misaligned_record() {
    // A `Vec<u8>` of any length before a borrowed 16-byte array: the check
    // rejects it, and an empty `Vec` indeed puts the array at offset 1.
    let decls = [FieldDecl::Vec { elem: int_kind(1), len_width: 1 }, FieldDecl::Value(u64_array(2))];
    let error = VariableLayout::new(BufferOffset::Fixed(0), OptionEncoding::Tagged, &decls).unwrap_err();
    assert_eq!(error, SchemaError::MisalignedAfterVariable { field: 1, align: 8 });
    let copied = tagged(0, &[FieldDecl::Vec { elem: int_kind(1), len_width: 1 }, FieldDecl::Value(bytes_array(16))]);
    let encoded = copied.encode(&[byte_items(&[]), FieldValue::Value(vec![3; 16])]).unwrap();
    assert_eq!(encoded.len(), 17);
    assert_eq!(encoded[0], 0);
    assert_eq!(&encoded[1..], &[3; 16]);
}

#[test]
fn gcd_is_divided_by_every_common_divisor() {
    assert_eq!(gcd(12, 18), 6);
    assert_eq!(gcd(0, 7), 7);
    assert_eq!(gcd(7, 0), 7);
    assert_eq!(gcd(0, 0), 0);
    for (a, b) in [(12usize, 18usize), (8, 20), (9, 28), (48, 36)] {
        let g = gcd(a, b);
        assert_eq!(a % g, 0);
        assert_eq!(b % g, 0);
        for d in 1..=a.max(b) {
            if a % d == 0 && b % d == 0 {
                assert_eq!(g % d, 0);
            }
        }
    }
}

#[test]
fn array_kinds_multiply_the_element_size() {
    assert_eq!(ValueKind::array_of(int_kind(8), 2), Some(ValueKind::Array { size: 16, align: 8 }));
    let inner = ValueKind::array_of(int_kind(2), 3).unwrap();
    assert_eq!(inner, ValueKind::Array { size: 6, align: 2 });
    assert_eq!(ValueKind::array_of(inner, 2), Some(ValueKind::Array { size: 12, align: 2 }));
    assert_eq!(ValueKind::array_of(int_kind(1), 0), Some(ValueKind::Array { size: 0, align: 1 }));
    assert_eq!(ValueKind::array_of(ValueKind::Bool, 4), None);
    assert_eq!(ValueKind::array_of(ValueKind::Pubkey, 4), None);
    assert_eq!(ValueKind::array_of(int_kind(2), usize::MAX), None);
}
