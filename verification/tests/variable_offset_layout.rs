use pinocchio::error::ProgramError;
use pinocchio::Address;
use wheels::decode::{read_bool, read_uint, FieldRead};
use wheels::error::DataLayoutError;
use wheels::layout::Encodable;
use wheels::lens::DataLens;
use wheels::record::VariableRecord;
use wheels::schema::FieldDecl;
use wheels::value::{FieldValue, ValueKind};
use wheels::variable::{BufferOffset, LayoutView, OptionEncoding, VariableLayout};

/// A zeroed buffer of `len` bytes whose first byte is 8-byte aligned.
struct Aligned {
    buf: Vec<u8>,
    start: usize,
    len: usize,
}

impl Aligned {
    fn new(len: usize) -> Self {
        let buf = vec![0u8; len + 8];
        let start = (8 - (buf.as_ptr() as usize) % 8) % 8;
        Aligned { buf, start, len }
    }

    fn bytes(&mut self) -> &mut [u8] {
        &mut self.buf[self.start..self.start + self.len]
    }

    fn get(&self) -> &[u8] {
        &self.buf[self.start..self.start + self.len]
    }
}

fn int_kind(size: usize) -> ValueKind {
    ValueKind::Int { size }
}

fn bytes_array(size: usize) -> ValueKind {
    ValueKind::Array { size, align: 1 }
}

fn u64_array(n: usize) -> ValueKind {
    ValueKind::Array { size: 8 * n, align: 8 }
}

fn tagged(offset: usize, decls: &[FieldDecl]) -> VariableLayout {
    VariableLayout::new(BufferOffset::Fixed(offset), OptionEncoding::Tagged, decls).unwrap()
}

fn implicit(offset: usize, decls: &[FieldDecl]) -> VariableLayout {
    VariableLayout::new(BufferOffset::Fixed(offset), OptionEncoding::Implicit, decls).unwrap()
}

fn address_mod_8(bytes: &[u8]) -> usize {
    (bytes.as_ptr() as usize) % 8
}

fn decode<'a>(layout: &'a VariableLayout, bytes: &'a [u8]) -> Result<LayoutView<'a>, DataLayoutError> {
    layout.decode(bytes, address_mod_8(bytes))
}

fn le(v: u64, n: usize) -> Vec<u8> {
    v.to_le_bytes()[..n].to_vec()
}

fn value(v: u64, n: usize) -> FieldValue {
    FieldValue::Value(le(v, n))
}

fn raw(bytes: &[u8]) -> FieldValue {
    FieldValue::Value(bytes.to_vec())
}

fn some(bytes: Vec<u8>) -> FieldValue {
    FieldValue::Optional(Some(bytes))
}

fn none() -> FieldValue {
    FieldValue::Optional(None)
}

fn items(payloads: &[Vec<u8>]) -> FieldValue {
    FieldValue::Items(payloads.to_vec())
}

fn byte_items(bytes: &[u8]) -> FieldValue {
    FieldValue::Items(bytes.iter().map(|b| vec![*b]).collect())
}

fn key(fill: u8) -> Vec<u8> {
    Address::from([fill; 32]).to_bytes().to_vec()
}

fn uint(read: FieldRead) -> u64 {
    match read {
        FieldRead::Value(p) => read_uint(p),
        other => panic!("not a plain value: {:?}", other),
    }
}

fn flag(read: FieldRead) -> bool {
    match read {
        FieldRead::Value(p) => read_bool(p),
        other => panic!("not a plain value: {:?}", other),
    }
}

fn opt_flag(read: FieldRead) -> Option<bool> {
    match read {
        FieldRead::Optional(o) => o.map(read_bool),
        other => panic!("not an option: {:?}", other),
    }
}

fn payload(read: FieldRead) -> Vec<u8> {
    match read {
        FieldRead::Value(p) => p.to_vec(),
        other => panic!("not a plain value: {:?}", other),
    }
}

fn opt_payload(read: FieldRead) -> Option<Vec<u8>> {
    match read {
        FieldRead::Optional(o) => o.map(|p| p.to_vec()),
        other => panic!("not an option: {:?}", other),
    }
}

fn opt_uint(read: FieldRead) -> Option<u64> {
    match read {
        FieldRead::Optional(o) => o.map(read_uint),
        other => panic!("not an option: {:?}", other),
    }
}

fn elements(read: FieldRead) -> Vec<Vec<u8>> {
    match read {
        FieldRead::Items { bytes, count, elem_size } => {
            assert_eq!(bytes.len(), count * elem_size);
            bytes.chunks(elem_size).map(|c| c.to_vec()).collect()
        }
        other => panic!("not a Vec: {:?}", other),
    }
}

fn element_uints(read: FieldRead) -> Vec<u64> {
    elements(read).iter().map(|e| read_uint(e)).collect()
}

fn pubkey_args() -> VariableLayout {
    tagged(
        0,
        &[
            FieldDecl::Value(ValueKind::Pubkey),
            FieldDecl::Option(ValueKind::Pubkey),
            FieldDecl::Value(int_kind(8)),
        ],
    )
}

fn raw_pubkey_args() -> VariableLayout {
    tagged(
        0,
        &[
            FieldDecl::Value(bytes_array(32)),
            FieldDecl::Option(bytes_array(32)),
            FieldDecl::Value(int_kind(8)),
        ],
    )
}

#[test]
fn variable_layout_supports_pubkey_fields() {
    let layout = pubkey_args();
    let raw_layout = raw_pubkey_args();
    assert_eq!(layout.data_lens(), raw_layout.data_lens());
    assert_eq!(layout.data_lens(), DataLens::OneOf(vec![41, 73]));

    let values = [raw(&key(9)), some(key(1)), value(200, 8)];
    let raw_values = [raw(&[9; 32]), some(vec![1; 32]), value(200, 8)];

    let encoded = layout.encode(&values).unwrap();
    assert_eq!(encoded, raw_layout.encode(&raw_values).unwrap());
    assert_eq!(
        encoded,
        [[9; 32].as_slice(), &[1], &[1; 32], 200_u64.to_le_bytes().as_slice()].concat()
    );

    let view = decode(&layout, &encoded).unwrap();
    assert_eq!(payload(view.field(0)), key(9));
    assert_eq!(opt_payload(view.field(1)), Some(key(1)));
    assert_eq!(uint(view.field(2)), 200);
}

#[test]
fn variable_layout_supports_implicit_pubkey_option() {
    let layout = implicit(
        0,
        &[
            FieldDecl::Value(int_kind(4)),
            FieldDecl::Option(ValueKind::Pubkey),
            FieldDecl::Value(int_kind(8)),
        ],
    );
    assert_eq!(layout.data_lens(), DataLens::OneOf(vec![12, 44]));

    let none_values = [value(100, 4), none(), value(200, 8)];
    assert_eq!(
        layout.encode(&none_values).unwrap(),
        [100_u32.to_le_bytes().as_slice(), 200_u64.to_le_bytes().as_slice()].concat()
    );

    let some_values = [value(100, 4), some(key(1)), value(200, 8)];
    let some_encoded = layout.encode(&some_values).unwrap();
    assert_eq!(
        some_encoded,
        [100_u32.to_le_bytes().as_slice(), &[1; 32], 200_u64.to_le_bytes().as_slice()].concat()
    );

    let view = decode(&layout, &some_encoded).unwrap();
    assert_eq!(uint(view.field(0)), 100);
    assert_eq!(opt_payload(view.field(1)), Some(key(1)));
    assert_eq!(uint(view.field(2)), 200);
}

#[test]
fn variable_layout_computes_pubkey_offset_after_variable_field() {
    let layout = tagged(
        0,
        &[
            FieldDecl::Value(int_kind(2)),
            FieldDecl::Vec { elem: int_kind(1), len_width: 1 },
            FieldDecl::Value(ValueKind::Pubkey),
            FieldDecl::Value(int_kind(2)),
        ],
    );
    assert_eq!(layout.data_lens(), DataLens::Range(37, 292));

    let values = [value(7, 2), byte_items(&[1, 2, 3]), raw(&key(8)), value(0xBEEF, 2)];
    let encoded = layout.encode(&values).unwrap();
    assert_eq!(
        encoded,
        [
            7_u16.to_le_bytes().as_slice(),
            &[3],
            &[1, 2, 3],
            &[8; 32],
            0xBEEF_u16.to_le_bytes().as_slice(),
        ]
        .concat()
    );

    let view = decode(&layout, &encoded).unwrap();
    assert_eq!(uint(view.field(0)), 7);
    assert_eq!(element_uints(view.field(1)), vec![1, 2, 3]);
    assert_eq!(payload(view.field(2)), key(8));
    assert_eq!(uint(view.field(3)), 0xBEEF);
}

#[test]
fn variable_layout_supports_address_vec() {
    let layout = tagged(
        0,
        &[
            FieldDecl::Value(int_kind(2)),
            FieldDecl::Vec { elem: ValueKind::Pubkey, len_width: 1 },
            FieldDecl::Value(int_kind(2)),
        ],
    );
    assert_eq!(layout.data_lens(), DataLens::Range(5, 2 + 1 + 0xFF * 32 + 2));

    let signers = vec![key(1), key(2)];
    let values = [value(7, 2), items(&signers), value(0xBEEF, 2)];
    let encoded = layout.encode(&values).unwrap();
    assert_eq!(
        encoded,
        [
            7_u16.to_le_bytes().as_slice(),
            [2].as_slice(),
            [1; 32].as_slice(),
            [2; 32].as_slice(),
            0xBEEF_u16.to_le_bytes().as_slice(),
        ]
        .concat()
    );

    let view = decode(&layout, &encoded).unwrap();
    assert_eq!(uint(view.field(0)), 7);
    assert_eq!(elements(view.field(1)), signers);
    assert_eq!(uint(view.field(2)), 0xBEEF);
}

fn private_transfer_args() -> VariableLayout {
    tagged(
        0,
        &[
            FieldDecl::Value(int_kind(4)),
            FieldDecl::Value(int_kind(8)),
            FieldDecl::Option(bytes_array(32)),
            FieldDecl::Vec { elem: int_kind(1), len_width: 1 },
            FieldDecl::Vec { elem: int_kind(1), len_width: 2 },
        ],
    )
}

#[test]
fn variable_layout_private_args() {
    let layout = private_transfer_args();
    let range = (16, 12 + (1 + 32) + (1 + 0xFF) + (2 + 0xFFFF));
    assert_eq!(layout.data_lens(), DataLens::Range(range.0, range.1));

    let values = [
        value(100, 4),
        value(200, 8),
        some(vec![1; 32]),
        byte_items(&[1, 2, 3, 4]),
        byte_items(&[10, 20, 30, 40, 50, 60, 70, 80]),
    ];

    let expected_len = 4 + 8 + (1 + 32) + (1 + 4) + (2 + 8);
    let mut aligned = Aligned::new(4 + 8 + (1 + 32) + (1 + 4) + (2 + 8));

    assert!(aligned.get().len() <= range.1);
    assert!(aligned.get().len() >= range.0);

    let bytes = aligned.bytes();

    // shuttle_id: u32 (offset: 0)
    bytes[0..4].copy_from_slice(&100_u32.to_le_bytes());

    // amount: u64 (offset: 4)
    bytes[4..12].copy_from_slice(&200_u64.to_le_bytes());

    // validator: Option<[u8; 32]> (offset: 12)
    bytes[12] = 1;
    bytes[13..45].copy_from_slice(&[1; 32]);

    // encrypted_destination: Vec<u8> (offset: 45, len_width = 1)
    bytes[45] = 4;
    bytes[46..50].copy_from_slice(&[1, 2, 3, 4]);

    // encrypted_data_suffix: Vec<u8> (offset: 50, len_width = 2)
    bytes[50..52].copy_from_slice(&8_u16.to_le_bytes());
    bytes[52..60].copy_from_slice(&[10, 20, 30, 40, 50, 60, 70, 80]);

    let view = decode(&layout, bytes).unwrap();

    assert_eq!(uint(view.field(0)), 100);
    assert_eq!(uint(view.field(1)), 200);
    assert_eq!(opt_payload(view.field(2)), Some(vec![1; 32]));
    assert_eq!(element_uints(view.field(3)), vec![1, 2, 3, 4]);
    assert_eq!(element_uints(view.field(4)), vec![10, 20, 30, 40, 50, 60, 70, 80]);

    let encoded = layout.encode(&values);
    assert_eq!(encoded, Ok(aligned.get().to_vec()));
    let encoded = encoded.unwrap();

    let mut encoded_out = vec![255; expected_len + 4];
    let record = VariableRecord::new(&layout, &values);
    record.encode_to(&mut encoded_out).unwrap();

    assert_eq!(&encoded_out[..expected_len], &encoded);

    assert_eq!(&encoded_out[expected_len..], &[255, 255, 255, 255]);
}

fn variable_offset_view_args() -> VariableLayout {
    tagged(
        0,
        &[
            FieldDecl::Value(int_kind(2)),
            FieldDecl::Option(int_kind(4)),
            FieldDecl::Vec { elem: int_kind(1), len_width: 1 },
            FieldDecl::Value(int_kind(8)),
            FieldDecl::Value(int_kind(2)),
        ],
    )
}

fn min_data_len(layout: &VariableLayout) -> usize {
    match layout.data_lens() {
        DataLens::Range(min, _) => min,
        DataLens::Exact(n) => n,
        DataLens::OneOf(lens) => lens[0],
    }
}

#[test]
fn variable_layout_computes_offsets_after_variable_fields() {
    let layout = variable_offset_view_args();
    assert_eq!(layout.data_lens(), DataLens::Range(14, 2 + (1 + 4) + (1 + 0xFF) + 8 + 2));

    let mut aligned = Aligned::new(21);
    let bytes = aligned.bytes();

    bytes[0..2].copy_from_slice(&7_u16.to_le_bytes());
    bytes[2] = 1;
    bytes[3..7].copy_from_slice(&9_u32.to_le_bytes());
    bytes[7] = 3;
    bytes[8..11].copy_from_slice(&[1, 2, 3]);
    bytes[11..19].copy_from_slice(&77_u64.to_le_bytes());
    bytes[19..21].copy_from_slice(&0xBEEF_u16.to_le_bytes());

    let view = decode(&layout, bytes).unwrap();

    assert_eq!(uint(view.field(0)), 7);
    assert_eq!(opt_uint(view.field(1)), Some(9));
    assert_eq!(element_uints(view.field(2)), vec![1, 2, 3]);
    assert_eq!(uint(view.field(3)), 77);
    assert_eq!(uint(view.field(4)), 0xBEEF);
}

fn view_args_values() -> Vec<FieldValue> {
    vec![value(7, 2), some(le(9, 4)), byte_items(&[1, 2, 3]), value(77, 8), value(0xBEEF, 2)]
}

#[test]
fn variable_layout_encode_supports_fields_after_variable_fields() {
    let layout = variable_offset_view_args();
    let values = view_args_values();

    let encoded = layout.encode(&values).unwrap();
    assert_eq!(
        encoded,
        [
            7_u16.to_le_bytes().as_slice(),
            &[1],
            9_u32.to_le_bytes().as_slice(),
            &[3],
            &[1, 2, 3],
            77_u64.to_le_bytes().as_slice(),
            0xBEEF_u16.to_le_bytes().as_slice(),
        ]
        .concat()
    );

    let mut encoded_out = [255; 24];
    layout.encode_to(&values, &mut encoded_out).unwrap();
    assert_eq!(&encoded_out[..encoded.len()], &encoded);
    assert_eq!(&encoded_out[encoded.len()..], &[255, 255, 255]);
}

#[test]
fn variable_layout_handles_none_and_empty_vec_before_trailing_fields() {
    let layout = variable_offset_view_args();
    assert_eq!(min_data_len(&layout), 14);
    let mut aligned = Aligned::new(14);
    let bytes = aligned.bytes();

    bytes[0..2].copy_from_slice(&5_u16.to_le_bytes());
    bytes[2] = 0;
    bytes[3] = 0;
    bytes[4..12].copy_from_slice(&55_u64.to_le_bytes());
    bytes[12..14].copy_from_slice(&9_u16.to_le_bytes());

    let view = decode(&layout, bytes).unwrap();

    assert_eq!(uint(view.field(0)), 5);
    assert_eq!(opt_uint(view.field(1)), None);
    assert_eq!(element_uints(view.field(2)), Vec::<u64>::new());
    assert_eq!(uint(view.field(3)), 55);
    assert_eq!(uint(view.field(4)), 9);
}

#[test]
fn variable_layout_encode_minimal_case_with_trailing_fields() {
    let layout = variable_offset_view_args();
    let values = [value(5, 2), none(), byte_items(&[]), value(55, 8), value(9, 2)];

    let encoded = layout.encode(&values).unwrap();
    assert_eq!(encoded.len(), min_data_len(&layout));
    assert_eq!(
        encoded,
        [
            5_u16.to_le_bytes().as_slice(),
            &[0],
            &[0],
            55_u64.to_le_bytes().as_slice(),
            9_u16.to_le_bytes().as_slice(),
        ]
        .concat()
    );
}

#[test]
fn variable_layout_encode_to_rejects_small_output_buffer() {
    let layout = variable_offset_view_args();
    let values = view_args_values();
    let record = VariableRecord::new(&layout, &values);

    let mut out = [0_u8; 20];
    assert_eq!(record.encode_to(&mut out).unwrap_err(), DataLayoutError::OutputBufferTooSmall);
}

#[test]
fn variable_offset_layout_supports_four_byte_length_prefixes() {
    let layout = tagged(
        0,
        &[
            FieldDecl::Value(int_kind(2)),
            FieldDecl::Vec { elem: int_kind(2), len_width: 4 },
            FieldDecl::Value(int_kind(4)),
        ],
    );
    let mut aligned = Aligned::new(16);
    let bytes = aligned.bytes();

    bytes[0..2].copy_from_slice(&7_u16.to_le_bytes());
    bytes[2..6].copy_from_slice(&3_u32.to_le_bytes());
    bytes[6..12].copy_from_slice(&[11, 0, 12, 0, 13, 0]);
    bytes[12..16].copy_from_slice(&99_u32.to_le_bytes());

    let view = decode(&layout, bytes).unwrap();
    assert_eq!(uint(view.field(0)), 7);
    assert_eq!(element_uints(view.field(1)), vec![11, 12, 13]);
    assert_eq!(uint(view.field(2)), 99);

    let values = [value(7, 2), items(&[le(11, 2), le(12, 2), le(13, 2)]), value(99, 4)];
    assert_eq!(layout.encode(&values).unwrap(), bytes.to_vec());
}

#[test]
fn variable_offset_layout_supports_eight_byte_length_prefixes() {
    let layout = tagged(
        0,
        &[
            FieldDecl::Value(int_kind(1)),
            FieldDecl::Vec { elem: int_kind(1), len_width: 8 },
            FieldDecl::Value(int_kind(2)),
        ],
    );
    let range = match layout.data_lens() {
        DataLens::Range(lo, hi) => (lo, hi),
        other => panic!("expected a range: {:?}", other),
    };
    assert_eq!(range.0, 11);
    assert_eq!(range.1, 11 + u32::MAX as usize);

    let mut aligned = Aligned::new(18);
    let bytes = aligned.bytes();

    bytes[0] = 9;
    bytes[1..9].copy_from_slice(&5_u64.to_le_bytes());
    bytes[9..14].copy_from_slice(&[1, 2, 3, 4, 5]);
    bytes[14..16].copy_from_slice(&0xBEEF_u16.to_le_bytes());

    let view = decode(&layout, &bytes[..16]).unwrap();
    assert_eq!(uint(view.field(0)), 9);
    assert_eq!(element_uints(view.field(1)), vec![1, 2, 3, 4, 5]);
    assert_eq!(uint(view.field(2)), 0xBEEF);

    let values = [value(9, 1), byte_items(&[1, 2, 3, 4, 5]), value(0xBEEF, 2)];
    assert_eq!(layout.encode(&values).unwrap(), bytes[..16].to_vec());
}

#[test]
fn variable_layout_encode_rejects_vec_len_that_exceeds_len_width() {
    let layout = private_transfer_args();
    let values = [
        value(100, 4),
        value(200, 8),
        some(vec![1; 32]),
        byte_items(&[0; 256]),
        byte_items(&[]),
    ];

    assert_eq!(layout.encode(&values).unwrap_err(), DataLayoutError::LengthExceedsCapacity);
}

#[test]
fn variable_layout_try_view_from_rejects_invalid_option_tag() {
    let layout = variable_offset_view_args();
    let mut aligned = Aligned::new(14);
    let bytes = aligned.bytes();

    bytes[0..2].copy_from_slice(&1_u16.to_le_bytes());
    bytes[2] = 2;
    bytes[3] = 0;
    bytes[4..12].copy_from_slice(&11_u64.to_le_bytes());
    bytes[12..14].copy_from_slice(&13_u16.to_le_bytes());

    assert_eq!(decode(&layout, bytes).unwrap_err(), DataLayoutError::InvalidOptionTag);
}

#[test]
fn variable_layout_try_view_from_rejects_truncated_vec_payload() {
    let layout = variable_offset_view_args();
    let mut aligned = Aligned::new(14);
    let bytes = aligned.bytes();

    bytes[0..2].copy_from_slice(&1_u16.to_le_bytes());
    bytes[2] = 0;
    bytes[3] = 11;
    bytes[4..12].copy_from_slice(&11_u64.to_le_bytes());
    bytes[12..14].copy_from_slice(&13_u16.to_le_bytes());

    assert_eq!(decode(&layout, bytes).unwrap_err(), DataLayoutError::TruncatedVectorPayload);
}

#[test]
fn variable_layout_error_converts_to_program_error() {
    let layout = variable_offset_view_args();
    let values = view_args_values();
    let record = VariableRecord::new(&layout, &values);

    let mut out = [0_u8; 20];
    let err = (|| -> Result<(), ProgramError> {
        record.encode_to(&mut out).map_err(|e| e.into_program_error())?;
        Ok(())
    })()
    .unwrap_err();

    assert_eq!(err, ProgramError::Custom(DataLayoutError::OutputBufferTooSmall.code()));
    assert_eq!(
        DataLayoutError::try_from_program_error(err).unwrap(),
        DataLayoutError::OutputBufferTooSmall
    );
}

fn borrowed_after_stable_variable_args() -> VariableLayout {
    tagged(
        0,
        &[
            FieldDecl::Value(bytes_array(7)),
            FieldDecl::Vec { elem: int_kind(8), len_width: 1 },
            FieldDecl::Value(u64_array(2)),
        ],
    )
}

#[test]
fn variable_layout_allows_borrowed_fields_after_stably_aligned_variable_data() {
    let layout = borrowed_after_stable_variable_args();
    let mut aligned = Aligned::new(40);
    let bytes = aligned.bytes();

    bytes[0..7].copy_from_slice(&[9; 7]);
    bytes[7] = 2;
    bytes[8..24].copy_from_slice(&[10, 0, 0, 0, 0, 0, 0, 0, 11, 0, 0, 0, 0, 0, 0, 0]);
    bytes[24..40].copy_from_slice(&[1, 0, 0, 0, 0, 0, 0, 0, 2, 0, 0, 0, 0, 0, 0, 0]);

    let view = decode(&layout, bytes).unwrap();

    assert_eq!(payload(view.field(0)), vec![9; 7]);
    assert_eq!(element_uints(view.field(1)), vec![10, 11]);
    let values = payload(view.field(2));
    assert_eq!(values.len(), 16);
    assert_eq!([read_uint(&values[..8]), read_uint(&values[8..])], [1, 2]);
}

#[test]
fn variable_layout_rejects_misaligned_base_buffer_for_borrowed_fields() {
    let layout = borrowed_after_stable_variable_args();
    let mut aligned = Aligned::new(41);
    let bytes = aligned.bytes();

    bytes[1..8].copy_from_slice(&[9; 7]);
    bytes[8] = 2;
    bytes[9..25].copy_from_slice(&[10, 0, 0, 0, 0, 0, 0, 0, 11, 0, 0, 0, 0, 0, 0, 0]);
    bytes[25..41].copy_from_slice(&[1, 0, 0, 0, 0, 0, 0, 0, 2, 0, 0, 0, 0, 0, 0, 0]);

    assert_eq!(decode(&layout, &bytes[1..]).unwrap_err(), DataLayoutError::InvalidBufferOffset);
}

#[test]
fn variable_layout_buffer_offset_one_allows_unaligned_copy_only_views() {
    let layout = tagged(1, &[FieldDecl::Value(int_kind(8)), FieldDecl::Value(int_kind(4))]);
    let mut aligned = Aligned::new(13);
    let bytes = aligned.bytes();
    bytes[1..9].copy_from_slice(&55_u64.to_le_bytes());
    bytes[9..13].copy_from_slice(&7_u32.to_le_bytes());

    let view = decode(&layout, &bytes[1..]).unwrap();
    assert_eq!(uint(view.field(0)), 55);
    assert_eq!(uint(view.field(1)), 7);
}

#[test]
fn variable_layout_supports_bool_and_tagged_option_bool() {
    let layout = tagged(
        0,
        &[
            FieldDecl::Value(ValueKind::Bool),
            FieldDecl::Option(ValueKind::Bool),
            FieldDecl::Value(int_kind(2)),
        ],
    );
    assert_eq!(layout.data_lens(), DataLens::OneOf(vec![4, 5]));

    let none_bytes = [2, 0, 9, 0].to_vec();
    let none_view = decode(&layout, &none_bytes).unwrap();
    assert_eq!(flag(none_view.field(0)), true);
    assert_eq!(opt_flag(none_view.field(1)), None);
    assert_eq!(uint(none_view.field(2)), 9);

    let some_bytes = [7, 1, 3, 9, 0].to_vec();
    let some_view = decode(&layout, &some_bytes).unwrap();
    assert_eq!(flag(some_view.field(0)), true);
    assert_eq!(opt_flag(some_view.field(1)), Some(true));
    assert_eq!(uint(some_view.field(2)), 9);

    let values = [raw(&[1]), some(vec![1]), value(9, 2)];
    assert_eq!(layout.encode(&values).unwrap(), vec![1, 1, 1, 9, 0]);
}

#[test]
fn variable_layout_supports_implicit_option_without_tag() {
    let layout = implicit(
        0,
        &[
            FieldDecl::Value(int_kind(4)),
            FieldDecl::Option(bytes_array(32)),
            FieldDecl::Value(int_kind(8)),
        ],
    );
    assert_eq!(layout.data_lens(), DataLens::OneOf(vec![12, 44]));

    let none_values = [value(100, 4), none(), value(200, 8)];
    let some_values = [value(100, 4), some(vec![1; 32]), value(200, 8)];

    let none_encoded = layout.encode(&none_values).unwrap();
    assert_eq!(none_encoded.len(), 12);
    assert_eq!(
        none_encoded,
        [100_u32.to_le_bytes().as_slice(), 200_u64.to_le_bytes().as_slice()].concat()
    );

    let some_encoded = layout.encode(&some_values).unwrap();
    assert_eq!(some_encoded.len(), 44);
    assert_eq!(
        some_encoded,
        [100_u32.to_le_bytes().as_slice(), &[1; 32], 200_u64.to_le_bytes().as_slice()].concat()
    );

    let none_view = decode(&layout, &none_encoded).unwrap();
    assert_eq!(uint(none_view.field(0)), 100);
    assert_eq!(uint(none_view.field(2)), 200);
    assert_eq!(opt_payload(none_view.field(1)), None);

    let some_view = decode(&layout, &some_encoded).unwrap();
    assert_eq!(uint(some_view.field(0)), 100);
    assert_eq!(uint(some_view.field(2)), 200);
    assert_eq!(opt_payload(some_view.field(1)), Some(vec![1; 32]));
}

fn implicit_option_with_trailing_args() -> VariableLayout {
    implicit(
        0,
        &[
            FieldDecl::Value(int_kind(2)),
            FieldDecl::Option(bytes_array(4)),
            FieldDecl::Value(int_kind(8)),
            FieldDecl::Value(int_kind(2)),
        ],
    )
}

#[test]
fn variable_layout_computes_offsets_after_implicit_option() {
    let layout = implicit_option_with_trailing_args();
    assert_eq!(layout.data_lens(), DataLens::OneOf(vec![12, 16]));

    let none_bytes = [
        7_u16.to_le_bytes().as_slice(),
        55_u64.to_le_bytes().as_slice(),
        0xBEEF_u16.to_le_bytes().as_slice(),
    ]
    .concat();
    let none_view = decode(&layout, &none_bytes).unwrap();
    assert_eq!(uint(none_view.field(0)), 7);
    assert_eq!(opt_payload(none_view.field(1)), None);
    assert_eq!(uint(none_view.field(2)), 55);
    assert_eq!(uint(none_view.field(3)), 0xBEEF);

    let some_bytes = [
        7_u16.to_le_bytes().as_slice(),
        &[9, 8, 7, 6],
        55_u64.to_le_bytes().as_slice(),
        0xBEEF_u16.to_le_bytes().as_slice(),
    ]
    .concat();
    let some_view = decode(&layout, &some_bytes).unwrap();
    assert_eq!(uint(some_view.field(0)), 7);
    assert_eq!(opt_payload(some_view.field(1)), Some(vec![9, 8, 7, 6]));
    assert_eq!(uint(some_view.field(2)), 55);
    assert_eq!(uint(some_view.field(3)), 0xBEEF);
}

#[test]
fn variable_layout_rejects_invalid_implicit_option_length() {
    let layout = implicit_option_with_trailing_args();
    let bytes = [7_u16.to_le_bytes().as_slice(), &[1, 2, 3, 4], 55_u64.to_le_bytes().as_slice()]
        .concat();

    assert_eq!(decode(&layout, &bytes).unwrap_err(), DataLayoutError::InvalidDataLength);
}

#[test]
fn variable_layout_supports_multiple_implicit_options_with_unique_subset_sums() {
    let layout = implicit(
        0,
        &[
            FieldDecl::Value(int_kind(8)),
            FieldDecl::Value(int_kind(4)),
            FieldDecl::Option(int_kind(1)),
            FieldDecl::Option(int_kind(8)),
        ],
    );
    assert_eq!(layout.data_lens(), DataLens::OneOf(vec![12, 13, 20, 21]));

    let none = [value(11, 8), value(2, 4), FieldValue::Optional(None), FieldValue::Optional(None)];
    let flags_only = [value(11, 8), value(2, 4), some(le(7, 1)), FieldValue::Optional(None)];
    let client_ref_id_only = [value(11, 8), value(2, 4), FieldValue::Optional(None), some(le(99, 8))];
    let both = [value(11, 8), value(2, 4), some(le(7, 1)), some(le(99, 8))];

    assert_eq!(layout.encode(&none).unwrap().len(), 12);
    assert_eq!(layout.encode(&flags_only).unwrap().len(), 13);
    assert_eq!(layout.encode(&client_ref_id_only).unwrap().len(), 20);
    assert_eq!(layout.encode(&both).unwrap().len(), 21);

    let none_encoded = layout.encode(&none).unwrap();
    let none_view = decode(&layout, &none_encoded).unwrap();
    assert_eq!(uint(none_view.field(0)), 11);
    assert_eq!(uint(none_view.field(1)), 2);
    assert_eq!(opt_uint(none_view.field(2)), None);
    assert_eq!(opt_uint(none_view.field(3)), None);

    let flags_only_encoded = layout.encode(&flags_only).unwrap();
    let flags_only_view = decode(&layout, &flags_only_encoded).unwrap();
    assert_eq!(opt_uint(flags_only_view.field(2)), Some(7));
    assert_eq!(opt_uint(flags_only_view.field(3)), None);

    let client_ref_id_only_encoded = layout.encode(&client_ref_id_only).unwrap();
    let client_ref_id_only_view = decode(&layout, &client_ref_id_only_encoded).unwrap();
    assert_eq!(opt_uint(client_ref_id_only_view.field(2)), None);
    assert_eq!(opt_uint(client_ref_id_only_view.field(3)), Some(99));

    let both_encoded = layout.encode(&both).unwrap();
    let both_view = decode(&layout, &both_encoded).unwrap();
    assert_eq!(opt_uint(both_view.field(2)), Some(7));
    assert_eq!(opt_uint(both_view.field(3)), Some(99));
}

#[test]
fn variable_layout_supports_implicit_option_bool() {
    let layout = implicit(
        0,
        &[
            FieldDecl::Value(int_kind(2)),
            FieldDecl::Option(ValueKind::Bool),
            FieldDecl::Value(int_kind(1)),
        ],
    );
    assert_eq!(layout.data_lens(), DataLens::OneOf(vec![3, 4]));

    let none_values = [value(11, 2), none(), value(2, 1)];
    let some_values = [value(11, 2), some(vec![1]), value(2, 1)];

    assert_eq!(layout.encode(&none_values).unwrap(), vec![11, 0, 2]);
    assert_eq!(layout.encode(&some_values).unwrap(), vec![11, 0, 1, 2]);

    let some_nonzero_bytes = vec![11, 0, 9, 2];
    let some_view = decode(&layout, &some_nonzero_bytes).unwrap();
    assert_eq!(uint(some_view.field(0)), 11);
    assert_eq!(opt_flag(some_view.field(1)), Some(true));
    assert_eq!(uint(some_view.field(2)), 2);
}
