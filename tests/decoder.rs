use bub::gbasm::{
    bitops_info, decode, decode_slice, main_info, DecodeError, Instruction, OperandKind,
    OPCODE_FLAG_CALL, OPCODE_FLAG_JUMP,
};
use bub::util::{dedup, sorted_merge};
use bub::xaddr::XAddr;

#[test]
fn decode_errors() {
    assert_eq!(decode(0, &[]), Err(DecodeError::SliceTooSmall));
    assert_eq!(decode(0, &[0xD3]), Err(DecodeError::InvalidOpcode));
    assert_eq!(decode(0, &[0xC3, 0x00]), Err(DecodeError::SliceTooSmall));
    assert_eq!(decode(0, &[0xCB]), Err(DecodeError::SliceTooSmall));
}

#[test]
fn decode_operands() {
    let ins = decode(0x100, &[0xC3, 0x34, 0x12]).unwrap();
    assert_eq!(ins, Instruction { opcode: 0xC3, operand: 0x1234 });
    assert_eq!(ins.encoded_len(), 3);
    let ins = decode(0x100, &[0x3E, 0x42, 0x99]).unwrap();
    assert_eq!(ins.operand, 0x42);
    assert_eq!(ins.encoded_len(), 2);
}

#[test]
fn relative_operand_fix_up() {
    assert_eq!(decode(0x102, &[0x18, 0xFE]).unwrap().operand, 0x102);
    assert_eq!(decode(0x100, &[0x20, 0x05]).unwrap().operand, 0x107);
    assert_eq!(decode(0x0000, &[0x18, 0x80]).unwrap().operand, 0xFF82);
    assert_eq!(decode(0xFFFF, &[0x18, 0x7F]).unwrap().operand, 0x0080);
}

#[test]
fn high_ram_operand_fix_up() {
    assert_eq!(decode(0, &[0xE0, 0x40]).unwrap().operand, 0xFF40);
    assert_eq!(decode(0, &[0xF0, 0xFF]).unwrap().operand, 0xFFFF);
}

#[test]
fn redecoding_encoded_bytes() {
    let bytes = [0xCD, 0x00, 0x40, 0xC9];
    let first = decode(0x200, &bytes).unwrap();
    let again = decode(0x200, &bytes[..first.encoded_len()]).unwrap();
    assert_eq!(first, again);
}

#[test]
fn bit_operations() {
    let ins = decode(0, &[0xCB, 0x7E]).unwrap();
    assert_eq!(ins, Instruction { opcode: 0xCB, operand: 0x7E });
    assert_eq!(ins.encoded_len(), 2);
    assert_eq!(ins.info().fmt, "bit 7, [hl]");
    assert!(ins.is_valid());
    for op in 0..=255u8 {
        assert_eq!(bitops_info(op).operand_len, 1);
        assert_eq!(bitops_info(op).operand_kind, OperandKind::LongOpcode);
        assert!(main_info(op).operand_len <= 2);
    }
    assert_eq!(main_info(0xCB).operand_len, 1);
}

#[test]
fn table_entries() {
    let call = main_info(0xCD);
    assert_eq!(call.fmt, "call %");
    assert_eq!(call.flags, OPCODE_FLAG_JUMP | OPCODE_FLAG_CALL);
    assert_eq!(call.operand_kind, OperandKind::Code);
    assert_eq!(main_info(0xE9).fmt, "jp hl");
    assert_eq!(main_info(0x00).operand_kind, OperandKind::NoOperand);
}

#[test]
fn jump_targets() {
    let rst = [0xC7u8, 0xCF, 0xD7, 0xDF, 0xE7, 0xEF, 0xF7, 0xFF];
    for (i, op) in rst.iter().enumerate() {
        let ins = Instruction { opcode: *op, operand: 0x1234 };
        assert_eq!(ins.get_jump_target(), Some(8 * i as u16));
    }
    for op in [0xC9u8, 0xD9, 0xE9, 0xC0] {
        assert_eq!(Instruction { opcode: op, operand: 0x55 }.get_jump_target(), None);
    }
    assert_eq!(Instruction { opcode: 0xC3, operand: 0x4000 }.get_jump_target(), Some(0x4000));
    assert_eq!(Instruction { opcode: 0x21, operand: 0x4000 }.get_jump_target(), None);
    assert_eq!(Instruction::new(), Instruction { opcode: 0, operand: 0 });
}

#[test]
fn address_operands() {
    assert!(Instruction { opcode: 0xFA, operand: 0xC000 }.is_addr_operand());
    assert!(Instruction { opcode: 0xE0, operand: 0xFF40 }.is_addr_operand());
    assert!(Instruction { opcode: 0x18, operand: 0x100 }.is_addr_operand());
    assert!(!Instruction { opcode: 0x21, operand: 0xC000 }.is_addr_operand());
    assert!(!Instruction { opcode: 0x7E, operand: 0 }.is_addr_operand());
}

#[test]
fn slice_walk_stops_after_error() {
    let bytes = [0x00, 0x3E, 0x01, 0xD3, 0x00];
    let mut it = decode_slice(XAddr::new(1, 0x4000), &bytes);
    let (a, r) = it.next().unwrap();
    assert_eq!((a, r), (XAddr::new(1, 0x4000), Ok(Instruction { opcode: 0, operand: 0 })));
    let (a, r) = it.next().unwrap();
    assert_eq!((a, r.unwrap().operand), (XAddr::new(1, 0x4001), 1));
    let (a, r) = it.next().unwrap();
    assert_eq!((a, r), (XAddr::new(1, 0x4003), Err(DecodeError::InvalidOpcode)));
    assert!(it.next().is_none());
}

#[test]
fn merge_sorted_lists() {
    let a = [XAddr::new(0, 1), XAddr::new(0, 5), XAddr::new(2, 0)];
    let b = [XAddr::new(0, 3), XAddr::new(0, 5), XAddr::new(1, 0)];
    let m = sorted_merge(&a, &b);
    assert_eq!(
        m,
        vec![
            XAddr::new(0, 1),
            XAddr::new(0, 3),
            XAddr::new(0, 5),
            XAddr::new(0, 5),
            XAddr::new(1, 0),
            XAddr::new(2, 0)
        ]
    );
    assert_eq!(sorted_merge(&m, &[]), m);
    assert_eq!(sorted_merge(&[], &b), b.to_vec());
    assert_eq!(dedup(&m).len(), 5);
}
