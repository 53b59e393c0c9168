use pinocchio::error::ProgramError;
use pinocchio::Address;
use wheels::decode::{read_bool, read_uint, FieldRead};
use wheels::fixed::{FixedDecl, FixedLayout, FixedLayoutError, FixedView};
use wheels::value::{FieldValue, ValueKind};

/// A zeroed buffer of `len` bytes whose first byte is 8-byte aligned.
struct Aligned {
    buf: Vec<u8>,
    start: usize,
    len: usize,
}

impl Aligned {
    fn new(len: usize) -> Self {
        let buf = vec![0u8; len + 8];
        let start = (8 - (buf.as_ptr() as usize) % 8) % 8;
        Aligned { buf, start, len }
    }

    fn bytes(&mut self) -> &mut [u8] {
        &mut self.buf[self.start..self.start + self.len]
    }

    fn get(&self) -> &[u8] {
        &self.buf[self.start..self.start + self.len]
    }
}

fn int_kind(size: usize) -> ValueKind {
    ValueKind::Int { size }
}

fn bytes_array(size: usize) -> ValueKind {
    ValueKind::Array { size, align: 1 }
}

fn address_mod_8(bytes: &[u8]) -> usize {
    (bytes.as_ptr() as usize) % 8
}

fn decode<'a>(layout: &'a FixedLayout, bytes: &'a [u8]) -> Result<FixedView<'a>, FixedLayoutError> {
    layout.decode(bytes, address_mod_8(bytes))
}

fn le(v: u64, n: usize) -> Vec<u8> {
    v.to_le_bytes()[..n].to_vec()
}

fn value(v: u64, n: usize) -> FieldValue {
    FieldValue::Value(le(v, n))
}

fn byte_items(bytes: &[u8]) -> FieldValue {
    FieldValue::Items(bytes.iter().map(|b| vec![*b]).collect())
}

fn key(fill: u8) -> Vec<u8> {
    Address::from([fill; 32]).to_bytes().to_vec()
}

fn uint(read: FieldRead) -> u64 {
    match read {
        FieldRead::Value(p) => read_uint(p),
        other => panic!("not a plain value: {:?}", other),
    }
}

fn flag(read: FieldRead) -> bool {
    match read {
        FieldRead::Value(p) => read_bool(p),
        other => panic!("not a plain value: {:?}", other),
    }
}

fn payload(read: FieldRead) -> Vec<u8> {
    match read {
        FieldRead::Value(p) => p.to_vec(),
        other => panic!("not a plain value: {:?}", other),
    }
}

fn opt_payload(read: FieldRead) -> Option<Vec<u8>> {
    match read {
        FieldRead::Optional(o) => o.map(|p| p.to_vec()),
        other => panic!("not an option: {:?}", other),
    }
}

fn opt_flag(read: FieldRead) -> Option<bool> {
    match read {
        FieldRead::Optional(o) => o.map(read_bool),
        other => panic!("not an option: {:?}", other),
    }
}

fn elements(read: FieldRead) -> Vec<Vec<u8>> {
    match read {
        FieldRead::Items { bytes, count, elem_size } => {
            assert_eq!(bytes.len(), count * elem_size);
            bytes.chunks(elem_size).map(|c| c.to_vec()).collect()
        }
        other => panic!("not a Vec: {:?}", other),
    }
}

fn private_transfer_fixed_args() -> FixedLayout {
    FixedLayout::new(&[
        FixedDecl::Value(int_kind(4)),
        FixedDecl::Value(int_kind(8)),
        FixedDecl::Option(bytes_array(32)),
        FixedDecl::Vec { elem: int_kind(1), capacity: 72 },
        FixedDecl::Value(int_kind(2)),
    ])
    .unwrap()
}

#[test]
fn fixed_offset_layout_reserves_constant_space() {
    let layout = private_transfer_fixed_args();
    assert_eq!(layout.data_len(), Some(120));
    assert_eq!(layout.offsets(), &[0, 4, 12, 45, 118]);

    let values = [
        value(100, 4),
        value(200, 8),
        FieldValue::Optional(Some(vec![1; 32])),
        byte_items(&[1, 2, 3, 4]),
        value(0xBEEF, 2),
    ];

    let mut aligned = Aligned::new(120);
    let bytes = aligned.bytes();

    bytes[0..4].copy_from_slice(&100_u32.to_le_bytes());
    bytes[4..12].copy_from_slice(&200_u64.to_le_bytes());
    bytes[12] = 1;
    bytes[13..45].copy_from_slice(&[1; 32]);
    bytes[45] = 4;
    bytes[46..50].copy_from_slice(&[1, 2, 3, 4]);
    bytes[118..120].copy_from_slice(&0xBEEF_u16.to_le_bytes());

    let view = decode(&layout, bytes).unwrap();
    assert_eq!(uint(view.field(0)), 100);
    assert_eq!(uint(view.field(1)), 200);
    assert_eq!(opt_payload(view.field(2)), Some(vec![1; 32]));
    assert_eq!(elements(view.field(3)), vec![vec![1], vec![2], vec![3], vec![4]]);
    assert_eq!(layout.capacity(3), Some(72));
    assert_eq!(uint(view.field(4)), 0xBEEF);

    assert_eq!(layout.encode(&values), Ok(aligned.get().to_vec()));
}

#[test]
fn fixed_offset_layout_rejects_invalid_vec_len() {
    let layout = private_transfer_fixed_args();
    let mut aligned = Aligned::new(120);
    aligned.bytes()[45] = 73;

    let err = decode(&layout, aligned.get()).unwrap_err();
    assert_eq!(err, FixedLayoutError::InvalidInstructionData);
    assert_eq!(err.into_program_error(), ProgramError::InvalidInstructionData);
}

#[test]
fn fixed_offset_layout_supports_trailing_flexible_vec() {
    let layout = FixedLayout::new(&[
        FixedDecl::Value(int_kind(2)),
        FixedDecl::Vec { elem: int_kind(1), capacity: 4 },
        FixedDecl::FlexibleVec { elem: int_kind(1), len_width: 2 },
    ])
    .unwrap();
    assert_eq!(layout.min_data_len(), 7);
    assert_eq!(layout.max_data_len(), 7 + 2 + 0xFFFF);
    assert_eq!(layout.offsets(), &[0, 2, 7]);

    let values = [value(7, 2), byte_items(&[1, 2]), byte_items(&[9, 8, 7])];
    let encoded = layout.encode(&values).unwrap();
    assert_eq!(
        encoded,
        [7_u16.to_le_bytes().as_slice(), &[2, 1, 2, 0, 0], 3_u16.to_le_bytes().as_slice(), &[9, 8, 7]]
            .concat()
    );

    let view = decode(&layout, &encoded).unwrap();
    assert_eq!(uint(view.field(0)), 7);
    assert_eq!(elements(view.field(1)), vec![vec![1], vec![2]]);
    assert_eq!(layout.capacity(1), Some(4));
    assert_eq!(elements(view.field(2)), vec![vec![9], vec![8], vec![7]]);
}

#[test]
fn fixed_offset_layout_supports_pubkey_and_trailing_flexible_option() {
    let layout = FixedLayout::new(&[
        FixedDecl::Value(int_kind(2)),
        FixedDecl::Value(ValueKind::Pubkey),
        FixedDecl::FlexibleOption(ValueKind::Pubkey),
    ])
    .unwrap();
    assert_eq!(layout.min_data_len(), 34);
    assert_eq!(layout.max_data_len(), 67);
    assert_eq!(layout.offsets(), &[0, 2, 34]);

    let none_values = [value(9, 2), FieldValue::Value(key(3)), FieldValue::Optional(None)];
    assert_eq!(
        layout.encode(&none_values).unwrap(),
        [9_u16.to_le_bytes().as_slice(), &[3; 32]].concat()
    );

    let some_values = [value(9, 2), FieldValue::Value(key(3)), FieldValue::Optional(Some(key(4)))];
    let encoded = layout.encode(&some_values).unwrap();
    assert_eq!(encoded, [9_u16.to_le_bytes().as_slice(), &[3; 32], &[1], &[4; 32]].concat());

    let view = decode(&layout, &encoded).unwrap();
    assert_eq!(uint(view.field(0)), 9);
    assert_eq!(payload(view.field(1)), key(3));
    assert_eq!(opt_payload(view.field(2)), Some(key(4)));
}

#[test]
fn fixed_offset_layout_supports_bool_and_address() {
    let layout = FixedLayout::new(&[
        FixedDecl::Value(ValueKind::Bool),
        FixedDecl::Value(ValueKind::Pubkey),
        FixedDecl::Option(ValueKind::Bool),
    ])
    .unwrap();
    assert_eq!(layout.data_len(), Some(35));

    let values = [FieldValue::Value(vec![1]), FieldValue::Value(key(5)), FieldValue::Optional(Some(vec![0]))];
    let encoded = layout.encode(&values).unwrap();
    assert_eq!(encoded[0], 1);
    assert_eq!(&encoded[1..33], &[5; 32]);
    assert_eq!(&encoded[33..35], &[1, 0]);

    let mut aligned = Aligned::new(35);
    aligned.bytes().copy_from_slice(&encoded);

    let view = decode(&layout, aligned.get()).unwrap();
    assert!(flag(view.field(0)));
    assert_eq!(payload(view.field(1)), key(5));
    assert_eq!(opt_flag(view.field(2)), Some(false));
}

#[test]
fn fixed_offset_layout_supports_address_vec() {
    let layout = FixedLayout::new(&[
        FixedDecl::Value(int_kind(1)),
        FixedDecl::Vec { elem: ValueKind::Pubkey, capacity: 2 },
        FixedDecl::Value(int_kind(2)),
    ])
    .unwrap();
    assert_eq!(layout.data_len(), Some(68));
    assert_eq!(layout.offsets(), &[0, 1, 66]);

    let owners = vec![key(1), key(2)];
    let values = [value(9, 1), FieldValue::Items(owners.clone()), value(0xBEEF, 2)];
    let encoded = layout.encode(&values).unwrap();
    let expected = [
        [9, 2].as_slice(),
        [1; 32].as_slice(),
        [2; 32].as_slice(),
        0xBEEF_u16.to_le_bytes().as_slice(),
    ]
    .concat();
    assert_eq!(encoded.as_slice(), expected.as_slice());

    let mut aligned = Aligned::new(68);
    aligned.bytes().copy_from_slice(&encoded);

    let view = decode(&layout, aligned.get()).unwrap();
    assert_eq!(uint(view.field(0)), 9);
    assert_eq!(elements(view.field(1)), owners);
    assert_eq!(layout.capacity(1), Some(2));
    assert_eq!(uint(view.field(2)), 0xBEEF);
}
