use vstd::prelude::*;

use crate::xaddr::{xadd, XAddr};

verus! {

/// What the operand of an instruction denotes.
#[derive(Clone, Copy, PartialEq, Eq, Structural, Debug)]
pub enum OperandKind {
    NoOperand,
    Undefined,
    LongOpcode,
    Code,
    CodeRelative,
    Data,
    DataHram,
}

pub const OPCODE_FLAG_JUMP: u8 = 0b00000001;

pub const OPCODE_FLAG_CALL: u8 = 0b00000010;

pub const OPCODE_FLAG_CONDITIONAL: u8 = 0b00000100;

pub const OPCODE_FLAG_WRITE_MEM: u8 = 0b00001000;

pub const OPCODE_FLAG_READ_MEM: u8 = 0b00010000;

pub const OPCODE_FLAG_INVALID: u8 = 0b10000000;

/// One entry of an opcode table.
#[derive(Clone, Copy, Debug)]
pub struct OpcodeInfo {
    pub fmt: &'static str,
    pub operand_len: u8,
    pub operand_kind: OperandKind,
    pub flags: u8,
}

// ---- the opcode tables, stated by the shape of the instruction set ----

/// `jp` and `call` with an absolute 16-bit target.
pub open spec fn is_abs_jump(op: u8) -> bool {
    op == 0xC2 || op == 0xC3 || op == 0xC4 || op == 0xCA || op == 0xCC || op == 0xCD || op == 0xD2
        || op == 0xD4 || op == 0xDA || op == 0xDC
}

/// `jr`, conditional or not.
pub open spec fn is_rel_jump(op: u8) -> bool {
    op == 0x18 || op == 0x20 || op == 0x28 || op == 0x30 || op == 0x38
}

/// Opcodes that the processor does not define.
pub open spec fn is_undefined_opcode(op: u8) -> bool {
    op == 0xD3 || op == 0xDB || op == 0xDD || op == 0xE3 || op == 0xE4 || op == 0xEB || op == 0xEC
        || op == 0xED || op == 0xF4 || op == 0xFC || op == 0xFD
}

/// The eight `rst` opcodes.
pub open spec fn is_rst(op: u8) -> bool {
    op >= 0xC7 && (op - 0xC7) % 8 == 0
}

/// Opcodes followed by one operand byte.
pub open spec fn has_byte_operand(op: u8) -> bool {
    (op < 0x40 && op % 8 == 6) || op == 0x10 || is_rel_jump(op) || (op >= 0xC0 && op % 8 == 6)
        || op == 0xCB || op == 0xE0 || op == 0xE8 || op == 0xF0 || op == 0xF8
}

/// Operand length of an entry of the primary table.
pub open spec fn main_operand_len(op: u8) -> u8 {
    if op == 0x01 || op == 0x08 || op == 0x11 || op == 0x21 || op == 0x31 || op == 0xEA || op == 0xFA
        || is_abs_jump(op) || op == 0xDD || op == 0xEC || op == 0xED || op == 0xFC || op == 0xFD {
        2
    } else if has_byte_operand(op) {
        1
    } else {
        0
    }
}

/// Operand kind of an entry of the primary table.
pub open spec fn main_operand_kind(op: u8) -> OperandKind {
    if is_abs_jump(op) {
        OperandKind::Code
    } else if is_rel_jump(op) {
        OperandKind::CodeRelative
    } else if op == 0xE0 || op == 0xF0 {
        OperandKind::DataHram
    } else if op == 0x08 || op == 0xEA || op == 0xFA {
        OperandKind::Data
    } else if op == 0x10 {
        OperandKind::LongOpcode
    } else if op == 0x01 || op == 0x11 || op == 0x21 || op == 0x31 || op == 0xE8 || op == 0xF8 || (op
        < 0x40 && op % 8 == 6) || (op >= 0xC0 && op % 8 == 6) {
        OperandKind::Undefined
    } else {
        OperandKind::NoOperand
    }
}

/// Flags of an entry of the primary table.
pub open spec fn main_flags(op: u8) -> u8 {
    if is_undefined_opcode(op) {
        OPCODE_FLAG_INVALID
    } else if op == 0x18 || op == 0xC3 || op == 0xC9 || op == 0xD9 || op == 0xE9 {
        OPCODE_FLAG_JUMP
    } else if op == 0x20 || op == 0x28 || op == 0x30 || op == 0x38 || op == 0xC0 || op == 0xC8 || op
        == 0xD0 || op == 0xD8 || op == 0xC2 || op == 0xCA || op == 0xD2 || op == 0xDA {
        OPCODE_FLAG_JUMP | OPCODE_FLAG_CONDITIONAL
    } else if op == 0xC4 || op == 0xCC || op == 0xD4 || op == 0xDC {
        OPCODE_FLAG_JUMP | OPCODE_FLAG_CALL | OPCODE_FLAG_CONDITIONAL
    } else if op == 0xCD || is_rst(op) {
        OPCODE_FLAG_JUMP | OPCODE_FLAG_CALL
    } else if op == 0x34 || op == 0x35 {
        OPCODE_FLAG_WRITE_MEM | OPCODE_FLAG_READ_MEM
    } else if op == 0x02 || op == 0x12 || op == 0x22 || op == 0x32 || op == 0x08 || op == 0x36 || op
        == 0xE0 || op == 0xE2 || op == 0xEA || (0x70 <= op < 0x78 && op != 0x76) {
        OPCODE_FLAG_WRITE_MEM
    } else if op == 0x0A || op == 0x1A || op == 0x2A || op == 0x3A || op == 0xF0 || op == 0xF2 || op
        == 0xFA || ((0x40 <= op < 0x70 || 0x78 <= op < 0xC0) && op % 8 == 6) {
        OPCODE_FLAG_READ_MEM
    } else {
        0
    }
}

/// Flags of an entry of the bit-operation table: only the `[hl]` forms touch memory.
pub open spec fn bitops_flags(op: u8) -> u8 {
    if op % 8 != 6 {
        0
    } else if op < 0x40 {
        OPCODE_FLAG_WRITE_MEM | OPCODE_FLAG_READ_MEM
    } else if op < 0x80 {
        OPCODE_FLAG_READ_MEM
    } else {
        OPCODE_FLAG_WRITE_MEM
    }
}

fn opi(fmt: &'static str, operand_len: u8, operand_kind: OperandKind, flags: u8) -> (r: OpcodeInfo)
    ensures
        r.fmt == fmt,
        r.operand_len == operand_len,
        r.operand_kind == operand_kind,
        r.flags == flags,
{
    OpcodeInfo { fmt, operand_len, operand_kind, flags }
}

/// The entry of the primary opcode table for `op`.
pub fn main_info(op: u8) -> (r: OpcodeInfo)
    ensures
        r.operand_len == main_operand_len(op),
        r.operand_kind == main_operand_kind(op),
        r.flags == main_flags(op),
{
    opi(main_fmt(op), main_len_of(op), main_kind_of(op), main_flags_of(op))
}

fn abs_jump(op: u8) -> (r: bool)
    ensures
        r == is_abs_jump(op),
{
    op == 0xC2 || op == 0xC3 || op == 0xC4 || op == 0xCA || op == 0xCC || op == 0xCD || op == 0xD2
        || op == 0xD4 || op == 0xDA || op == 0xDC
}

fn rel_jump(op: u8) -> (r: bool)
    ensures
        r == is_rel_jump(op),
{
    op == 0x18 || op == 0x20 || op == 0x28 || op == 0x30 || op == 0x38
}

fn main_len_of(op: u8) -> (r: u8)
    ensures
        r == main_operand_len(op),
{
    if op == 0x01 || op == 0x08 || op == 0x11 || op == 0x21 || op == 0x31 || op == 0xEA || op == 0xFA
        || abs_jump(op) || op == 0xDD || op == 0xEC || op == 0xED || op == 0xFC || op == 0xFD {
        2
    } else if (op < 0x40 && op % 8 == 6) || op == 0x10 || rel_jump(op) || (op >= 0xC0 && op % 8 == 6)
        || op == 0xCB || op == 0xE0 || op == 0xE8 || op == 0xF0 || op == 0xF8 {
        1
    } else {
        0
    }
}

fn main_kind_of(op: u8) -> (r: OperandKind)
    ensures
        r == main_operand_kind(op),
{
    if abs_jump(op) {
        OperandKind::Code
    } else if rel_jump(op) {
        OperandKind::CodeRelative
    } else if op == 0xE0 || op == 0xF0 {
        OperandKind::DataHram
    } else if op == 0x08 || op == 0xEA || op == 0xFA {
        OperandKind::Data
    } else if op == 0x10 {
        OperandKind::LongOpcode
    } else if op == 0x01 || op == 0x11 || op == 0x21 || op == 0x31 || op == 0xE8 || op == 0xF8 || (op
        < 0x40 && op % 8 == 6) || (op >= 0xC0 && op % 8 == 6) {
        OperandKind::Undefined
    } else {
        OperandKind::NoOperand
    }
}

fn main_flags_of(op: u8) -> (r: u8)
    ensures
        r == main_flags(op),
{
    if op == 0xD3 || op == 0xDB || op == 0xDD || op == 0xE3 || op == 0xE4 || op == 0xEB || op == 0xEC
        || op == 0xED || op == 0xF4 || op == 0xFC || op == 0xFD {
        OPCODE_FLAG_INVALID
    } else if op == 0x18 || op == 0xC3 || op == 0xC9 || op == 0xD9 || op == 0xE9 {
        OPCODE_FLAG_JUMP
    } else if op == 0x20 || op == 0x28 || op == 0x30 || op == 0x38 || op == 0xC0 || op == 0xC8 || op
        == 0xD0 || op == 0xD8 || op == 0xC2 || op == 0xCA || op == 0xD2 || op == 0xDA {
        OPCODE_FLAG_JUMP | OPCODE_FLAG_CONDITIONAL
    } else if op == 0xC4 || op == 0xCC || op == 0xD4 || op == 0xDC {
        OPCODE_FLAG_JUMP | OPCODE_FLAG_CALL | OPCODE_FLAG_CONDITIONAL
    } else if op == 0xCD || (op >= 0xC7 && (op - 0xC7) % 8 == 0) {
        OPCODE_FLAG_JUMP | OPCODE_FLAG_CALL
    } else if op == 0x34 || op == 0x35 {
        OPCODE_FLAG_WRITE_MEM | OPCODE_FLAG_READ_MEM
    } else if op == 0x02 || op == 0x12 || op == 0x22 || op == 0x32 || op == 0x08 || op == 0x36 || op
        == 0xE0 || op == 0xE2 || op == 0xEA || (0x70 <= op && op < 0x78 && op != 0x76) {
        OPCODE_FLAG_WRITE_MEM
    } else if op == 0x0A || op == 0x1A || op == 0x2A || op == 0x3A || op == 0xF0 || op == 0xF2 || op
        == 0xFA || ((0x40 <= op && op < 0x70 || 0x78 <= op && op < 0xC0) && op % 8 == 6) {
        OPCODE_FLAG_READ_MEM
    } else {
        0
    }
}

/// The mnemonic format of the primary opcode `op`; `%` marks the operand.
fn main_fmt(op: u8) -> &'static str {
    match op {
        0x00 => "nop",
        0x01 => "ld bc, %",
        0x02 => "ld [bc], a",
        0x03 => "inc bc",
        0x04 => "inc b",
        0x05 => "dec b",
        0x06 => "ld b, %",
        0x07 => "rlca",
        0x08 => "ld [%], sp",
        0x09 => "add hl, bc",
        0x0A => "ld a, [bc]",
        0x0B => "dec bc",
        0x0C => "inc c",
        0x0D => "dec c",
        0x0E => "ld c, %",
        0x0F => "rrca",
        0x10 => "stop",
        0x11 => "ld de, %",
        0x12 => "ld [de], a",
        0x13 => "inc de",
        0x14 => "inc d",
        0x15 => "dec d",
        0x16 => "ld d, %",
        0x17 => "rla",
        0x18 => "jr %",
        0x19 => "add hl, de",
        0x1A => "ld a, [de]",
        0x1B => "dec de",
        0x1C => "inc e",
        0x1D => "dec e",
        0x1E => "ld e, %",
        0x1F => "rra",
        0x20 => "jr nz, %",
        0x21 => "ld hl, %",
        0x22 => "ld [hli], a",
        0x23 => "inc hl",
        0x24 => "inc h",
        0x25 => "dec h",
        0x26 => "ld h, %",
        0x27 => "daa",
        0x28 => "jr z, %",
        0x29 => "add hl, hl",
        0x2A => "ld a, [hli]",
        0x2B => "dec hl",
        0x2C => "inc l",
        0x2D => "dec l",
        0x2E => "ld l, %",
        0x2F => "cpl",
        0x30 => "jr nc, %",
        0x31 => "ld sp, %",
        0x32 => "ld [hld], a",
        0x33 => "inc sp",
        0x34 => "inc [hl]",
        0x35 => "dec [hl]",
        0x36 => "ld [hl], %",
        0x37 => "scf",
        0x38 => "jr c, %",
        0x39 => "add hl, sp",
        0x3A => "ld a, [hld]",
        0x3B => "dec sp",
        0x3C => "inc a",
        0x3D => "dec a",
        0x3E => "ld a, %",
        0x3F => "ccf",
        0x40 => "ld b, b",
        0x41 => "ld b, c",
        0x42 => "ld b, d",
        0x43 => "ld b, e",
        0x44 => "ld b, h",
        0x45 => "ld b, l",
        0x46 => "ld b, [hl]",
        0x47 => "ld b, a",
        0x48 => "ld c, b",
        0x49 => "ld c, c",
        0x4A => "ld c, d",
        0x4B => "ld c, e",
        0x4C => "ld c, h",
        0x4D => "ld c, l",
        0x4E => "ld c, [hl]",
        0x4F => "ld c, a",
        0x50 => "ld d, b",
        0x51 => "ld d, c",
        0x52 => "ld d, d",
        0x53 => "ld d, e",
        0x54 => "ld d, h",
        0x55 => "ld d, l",
        0x56 => "ld d, [hl]",
        0x57 => "ld d, a",
        0x58 => "ld e, b",
        0x59 => "ld e, c",
        0x5A => "ld e, d",
        0x5B => "ld e, e",
        0x5C => "ld e, h",
        0x5D => "ld e, l",
        0x5E => "ld e, [hl]",
        0x5F => "ld e, a",
        0x60 => "ld h, b",
        0x61 => "ld h, c",
        0x62 => "ld h, d",
        0x63 => "ld h, e",
        0x64 => "ld h, h",
        0x65 => "ld h, l",
        0x66 => "ld h, [hl]",
        0x67 => "ld h, a",
        0x68 => "ld l, b",
        0x69 => "ld l, c",
        0x6A => "ld l, d",
        0x6B => "ld l, e",
        0x6C => "ld l, h",
        0x6D => "ld l, l",
        0x6E => "ld l, [hl]",
        0x6F => "ld l, a",
        0x70 => "ld [hl], b",
        0x71 => "ld [hl], c",
        0x72 => "ld [hl], d",
        0x73 => "ld [hl], e",
        0x74 => "ld [hl], h",
        0x75 => "ld [hl], l",
        0x76 => "halt",
        0x77 => "ld [hl], a",
        0x78 => "ld a, b",
        0x79 => "ld a, c",
        0x7A => "ld a, d",
        0x7B => "ld a, e",
        0x7C => "ld a, h",
        0x7D => "ld a, l",
        0x7E => "ld a, [hl]",
        0x7F => "ld a, a",
        0x80 => "add a, b",
        0x81 => "add a, c",
        0x82 => "add a, d",
        0x83 => "add a, e",
        0x84 => "add a, h",
        0x85 => "add a, l",
        0x86 => "add a, [hl]",
        0x87 => "add a, a",
        0x88 => "adc a, b",
        0x89 => "adc a, c",
        0x8A => "adc a, d",
        0x8B => "adc a, e",
        0x8C => "adc a, h",
        0x8D => "adc a, l",
        0x8E => "adc a, [hl]",
        0x8F => "adc a, a",
        0x90 => "sub a, b",
        0x91 => "sub a, c",
        0x92 => "sub a, d",
        0x93 => "sub a, e",
        0x94 => "sub a, h",
        0x95 => "sub a, l",
        0x96 => "sub a, [hl]",
        0x97 => "sub a, a",
        0x98 => "sbc a, b",
        0x99 => "sbc a, c",
        0x9A => "sbc a, d",
        0x9B => "sbc a, e",
        0x9C => "sbc a, h",
        0x9D => "sbc a, l",
        0x9E => "sbc a, [hl]",
        0x9F => "sbc a, a",
        0xA0 => "and a, b",
        0xA1 => "and a, c",
        0xA2 => "and a, d",
        0xA3 => "and a, e",
        0xA4 => "and a, h",
        0xA5 => "and a, l",
        0xA6 => "and a, [hl]",
        0xA7 => "and a, a",
        0xA8 => "xor a, b",
        0xA9 => "xor a, c",
        0xAA => "xor a, d",
        0xAB => "xor a, e",
        0xAC => "xor a, h",
        0xAD => "xor a, l",
        0xAE => "xor a, [hl]",
        0xAF => "xor a, a",
        0xB0 => "or a, b",
        0xB1 => "or a, c",
        0xB2 => "or a, d",
        0xB3 => "or a, e",
        0xB4 => "or a, h",
        0xB5 => "or a, l",
        0xB6 => "or a, [hl]",
        0xB7 => "or a, a",
        0xB8 => "cp a, b",
        0xB9 => "cp a, c",
        0xBA => "cp a, d",
        0xBB => "cp a, e",
        0xBC => "cp a, h",
        0xBD => "cp a, l",
        0xBE => "cp a, [hl]",
        0xBF => "cp a, a",
        0xC0 => "ret nz",
        0xC1 => "pop bc",
        0xC2 => "jp nz, %",
        0xC3 => "jp %",
        0xC4 => "call nz, %",
        0xC5 => "push bc",
        0xC6 => "add a, %",
        0xC7 => "rst $0",
        0xC8 => "ret z",
        0xC9 => "ret",
        0xCA => "jp z, %",
        0xCB => "bitops",
        0xCC => "call z, %",
        0xCD => "call %",
        0xCE => "adc a, %",
        0xCF => "rst $8",
        0xD0 => "ret nc",
        0xD1 => "pop de",
        0xD2 => "jp nc, %",
        0xD3 => "",
        0xD4 => "call nc, %",
        0xD5 => "push de",
        0xD6 => "sub a, %",
        0xD7 => "rst $10",
        0xD8 => "ret c",
        0xD9 => "reti",
        0xDA => "jp c, %",
        0xDB => "",
        0xDC => "call c, %",
        0xDD => "",
        0xDE => "sbc a, %",
        0xDF => "rst $18",
        0xE0 => "ldh [%], a",
        0xE1 => "pop hl",
        0xE2 => "ld [$FF00+c], a",
        0xE3 => "",
        0xE4 => "",
        0xE5 => "push hl",
        0xE6 => "and a, %",
        0xE7 => "rst $20",
        0xE8 => "add sp, %",
        0xE9 => "jp hl",
        0xEA => "ld [%], a",
        0xEB => "",
        0xEC => "",
        0xED => "",
        0xEE => "xor a, %",
        0xEF => "rst $28",
        0xF0 => "ldh a, [%]",
        0xF1 => "pop af",
        0xF2 => "ld a, [$FF00+c]",
        0xF3 => "di",
        0xF4 => "",
        0xF5 => "push af",
        0xF6 => "or a, %",
        0xF7 => "rst $30",
        0xF8 => "ld hl, sp+%",
        0xF9 => "ld sp, hl",
        0xFA => "ld a, [%]",
        0xFB => "ei",
        0xFC => "",
        0xFD => "",
        0xFE => "cp a, %",
        _ => "rst $38",
    }
}

/// The entry of the bit-operation table (opcodes after the `CB` prefix) for `op`.
pub fn bitops_info(op: u8) -> (r: OpcodeInfo)
    ensures
        r.operand_len == 1,
        r.operand_kind == OperandKind::LongOpcode,
        r.flags == bitops_flags(op),
{
    match op {
        0x00 => opi("rlc b", 1, OperandKind::LongOpcode, 0),
        0x01 => opi("rlc c", 1, OperandKind::LongOpcode, 0),
        0x02 => opi("rlc d", 1, OperandKind::LongOpcode, 0),
        0x03 => opi("rlc e", 1, OperandKind::LongOpcode, 0),
        0x04 => opi("rlc h", 1, OperandKind::LongOpcode, 0),
        0x05 => opi("rlc l", 1, OperandKind::LongOpcode, 0),
        0x06 => opi("rlc [hl]", 1, OperandKind::LongOpcode, OPCODE_FLAG_WRITE_MEM | OPCODE_FLAG_READ_MEM),
        0x07 => opi("rlc a", 1, OperandKind::LongOpcode, 0),
        0x08 => opi("rrc b", 1, OperandKind::LongOpcode, 0),
        0x09 => opi("rrc c", 1, OperandKind::LongOpcode, 0),
        0x0A => opi("rrc d", 1, OperandKind::LongOpcode, 0),
        0x0B => opi("rrc e", 1, OperandKind::LongOpcode, 0),
        0x0C => opi("rrc h", 1, OperandKind::LongOpcode, 0),
        0x0D => opi("rrc l", 1, OperandKind::LongOpcode, 0),
        0x0E => opi("rrc [hl]", 1, OperandKind::LongOpcode, OPCODE_FLAG_WRITE_MEM | OPCODE_FLAG_READ_MEM),
        0x0F => opi("rrc a", 1, OperandKind::LongOpcode, 0),
        0x10 => opi("rl b", 1, OperandKind::LongOpcode, 0),
        0x11 => opi("rl c", 1, OperandKind::LongOpcode, 0),
        0x12 => opi("rl d", 1, OperandKind::LongOpcode, 0),
        0x13 => opi("rl e", 1, OperandKind::LongOpcode, 0),
        0x14 => opi("rl h", 1, OperandKind::LongOpcode, 0),
        0x15 => opi("rl l", 1, OperandKind::LongOpcode, 0),
        0x16 => opi("rl [hl]", 1, OperandKind::LongOpcode, OPCODE_FLAG_WRITE_MEM | OPCODE_FLAG_READ_MEM),
        0x17 => opi("rl a", 1, OperandKind::LongOpcode, 0),
        0x18 => opi("rr b", 1, OperandKind::LongOpcode, 0),
        0x19 => opi("rr c", 1, OperandKind::LongOpcode, 0),
        0x1A => opi("rr d", 1, OperandKind::LongOpcode, 0),
        0x1B => opi("rr e", 1, OperandKind::LongOpcode, 0),
        0x1C => opi("rr h", 1, OperandKind::LongOpcode, 0),
        0x1D => opi("rr l", 1, OperandKind::LongOpcode, 0),
        0x1E => opi("rr [hl]", 1, OperandKind::LongOpcode, OPCODE_FLAG_WRITE_MEM | OPCODE_FLAG_READ_MEM),
        0x1F => opi("rr a", 1, OperandKind::LongOpcode, 0),
        0x20 => opi("sla b", 1, OperandKind::LongOpcode, 0),
        0x21 => opi("sla c", 1, OperandKind::LongOpcode, 0),
        0x22 => opi("sla d", 1, OperandKind::LongOpcode, 0),
        0x23 => opi("sla e", 1, OperandKind::LongOpcode, 0),
        0x24 => opi("sla h", 1, OperandKind::LongOpcode, 0),
        0x25 => opi("sla l", 1, OperandKind::LongOpcode, 0),
        0x26 => opi("sla [hl]", 1, OperandKind::LongOpcode, OPCODE_FLAG_WRITE_MEM | OPCODE_FLAG_READ_MEM),
        0x27 => opi("sla a", 1, OperandKind::LongOpcode, 0),
        0x28 => opi("sra b", 1, OperandKind::LongOpcode, 0),
        0x29 => opi("sra c", 1, OperandKind::LongOpcode, 0),
        0x2A => opi("sra d", 1, OperandKind::LongOpcode, 0),
        0x2B => opi("sra e", 1, OperandKind::LongOpcode, 0),
        0x2C => opi("sra h", 1, OperandKind::LongOpcode, 0),
        0x2D => opi("sra l", 1, OperandKind::LongOpcode, 0),
        0x2E => opi("sra [hl]", 1, OperandKind::LongOpcode, OPCODE_FLAG_WRITE_MEM | OPCODE_FLAG_READ_MEM),
        0x2F => opi("sra a", 1, OperandKind::LongOpcode, 0),
        0x30 => opi("swap b", 1, OperandKind::LongOpcode, 0),
        0x31 => opi("swap c", 1, OperandKind::LongOpcode, 0),
        0x32 => opi("swap d", 1, OperandKind::LongOpcode, 0),
        0x33 => opi("swap e", 1, OperandKind::LongOpcode, 0),
        0x34 => opi("swap h", 1, OperandKind::LongOpcode, 0),
        0x35 => opi("swap l", 1, OperandKind::LongOpcode, 0),
        0x36 => opi("swap [hl]", 1, OperandKind::LongOpcode, OPCODE_FLAG_WRITE_MEM | OPCODE_FLAG_READ_MEM),
        0x37 => opi("swap a", 1, OperandKind::LongOpcode, 0),
        0x38 => opi("srl b", 1, OperandKind::LongOpcode, 0),
        0x39 => opi("srl c", 1, OperandKind::LongOpcode, 0),
        0x3A => opi("srl d", 1, OperandKind::LongOpcode, 0),
        0x3B => opi("srl e", 1, OperandKind::LongOpcode, 0),
        0x3C => opi("srl h", 1, OperandKind::LongOpcode, 0),
        0x3D => opi("srl l", 1, OperandKind::LongOpcode, 0),
        0x3E => opi("srl [hl]", 1, OperandKind::LongOpcode, OPCODE_FLAG_WRITE_MEM | OPCODE_FLAG_READ_MEM),
        0x3F => opi("srl a", 1, OperandKind::LongOpcode, 0),
        0x40 => opi("bit 0, b", 1, OperandKind::LongOpcode, 0),
        0x41 => opi("bit 0, c", 1, OperandKind::LongOpcode, 0),
        0x42 => opi("bit 0, d", 1, OperandKind::LongOpcode, 0),
        0x43 => opi("bit 0, e", 1, OperandKind::LongOpcode, 0),
        0x44 => opi("bit 0, h", 1, OperandKind::LongOpcode, 0),
        0x45 => opi("bit 0, l", 1, OperandKind::LongOpcode, 0),
        0x46 => opi("bit 0, [hl]", 1, OperandKind::LongOpcode, OPCODE_FLAG_READ_MEM),
        0x47 => opi("bit 0, a", 1, OperandKind::LongOpcode, 0),
        0x48 => opi("bit 1, b", 1, OperandKind::LongOpcode, 0),
        0x49 => opi("bit 1, c", 1, OperandKind::LongOpcode, 0),
        0x4A => opi("bit 1, d", 1, OperandKind::LongOpcode, 0),
        0x4B => opi("bit 1, e", 1, OperandKind::LongOpcode, 0),
        0x4C => opi("bit 1, h", 1, OperandKind::LongOpcode, 0),
        0x4D => opi("bit 1, l", 1, OperandKind::LongOpcode, 0),
        0x4E => opi("bit 1, [hl]", 1, OperandKind::LongOpcode, OPCODE_FLAG_READ_MEM),
        0x4F => opi("bit 1, a", 1, OperandKind::LongOpcode, 0),
        0x50 => opi("bit 2, b", 1, OperandKind::LongOpcode, 0),
        0x51 => opi("bit 2, c", 1, OperandKind::LongOpcode, 0),
        0x52 => opi("bit 2, d", 1, OperandKind::LongOpcode, 0),
        0x53 => opi("bit 2, e", 1, OperandKind::LongOpcode, 0),
        0x54 => opi("bit 2, h", 1, OperandKind::LongOpcode, 0),
        0x55 => opi("bit 2, l", 1, OperandKind::LongOpcode, 0),
        0x56 => opi("bit 2, [hl]", 1, OperandKind::LongOpcode, OPCODE_FLAG_READ_MEM),
        0x57 => opi("bit 2, a", 1, OperandKind::LongOpcode, 0),
        0x58 => opi("bit 3, b", 1, OperandKind::LongOpcode, 0),
        0x59 => opi("bit 3, c", 1, OperandKind::LongOpcode, 0),
        0x5A => opi("bit 3, d", 1, OperandKind::LongOpcode, 0),
        0x5B => opi("bit 3, e", 1, OperandKind::LongOpcode, 0),
        0x5C => opi("bit 3, h", 1, OperandKind::LongOpcode, 0),
        0x5D => opi("bit 3, l", 1, OperandKind::LongOpcode, 0),
        0x5E => opi("bit 3, [hl]", 1, OperandKind::LongOpcode, OPCODE_FLAG_READ_MEM),
        0x5F => opi("bit 3, a", 1, OperandKind::LongOpcode, 0),
        0x60 => opi("bit 4, b", 1, OperandKind::LongOpcode, 0),
        0x61 => opi("bit 4, c", 1, OperandKind::LongOpcode, 0),
        0x62 => opi("bit 4, d", 1, OperandKind::LongOpcode, 0),
        0x63 => opi("bit 4, e", 1, OperandKind::LongOpcode, 0),
        0x64 => opi("bit 4, h", 1, OperandKind::LongOpcode, 0),
        0x65 => opi("bit 4, l", 1, OperandKind::LongOpcode, 0),
        0x66 => opi("bit 4, [hl]", 1, OperandKind::LongOpcode, OPCODE_FLAG_READ_MEM),
        0x67 => opi("bit 4, a", 1, OperandKind::LongOpcode, 0),
        0x68 => opi("bit 5, b", 1, OperandKind::LongOpcode, 0),
        0x69 => opi("bit 5, c", 1, OperandKind::LongOpcode, 0),
        0x6A => opi("bit 5, d", 1, OperandKind::LongOpcode, 0),
        0x6B => opi("bit 5, e", 1, OperandKind::LongOpcode, 0),
        0x6C => opi("bit 5, h", 1, OperandKind::LongOpcode, 0),
        0x6D => opi("bit 5, l", 1, OperandKind::LongOpcode, 0),
        0x6E => opi("bit 5, [hl]", 1, OperandKind::LongOpcode, OPCODE_FLAG_READ_MEM),
        0x6F => opi("bit 5, a", 1, OperandKind::LongOpcode, 0),
        0x70 => opi("bit 6, b", 1, OperandKind::LongOpcode, 0),
        0x71 => opi("bit 6, c", 1, OperandKind::LongOpcode, 0),
        0x72 => opi("bit 6, d", 1, OperandKind::LongOpcode, 0),
        0x73 => opi("bit 6, e", 1, OperandKind::LongOpcode, 0),
        0x74 => opi("bit 6, h", 1, OperandKind::LongOpcode, 0),
        0x75 => opi("bit 6, l", 1, OperandKind::LongOpcode, 0),
        0x76 => opi("bit 6, [hl]", 1, OperandKind::LongOpcode, OPCODE_FLAG_READ_MEM),
        0x77 => opi("bit 6, a", 1, OperandKind::LongOpcode, 0),
        0x78 => opi("bit 7, b", 1, OperandKind::LongOpcode, 0),
        0x79 => opi("bit 7, c", 1, OperandKind::LongOpcode, 0),
        0x7A => opi("bit 7, d", 1, OperandKind::LongOpcode, 0),
        0x7B => opi("bit 7, e", 1, OperandKind::LongOpcode, 0),
        0x7C => opi("bit 7, h", 1, OperandKind::LongOpcode, 0),
        0x7D => opi("bit 7, l", 1, OperandKind::LongOpcode, 0),
        0x7E => opi("bit 7, [hl]", 1, OperandKind::LongOpcode, OPCODE_FLAG_READ_MEM),
        0x7F => opi("bit 7, a", 1, OperandKind::LongOpcode, 0),
        0x80 => opi("res 0, b", 1, OperandKind::LongOpcode, 0),
        0x81 => opi("res 0, c", 1, OperandKind::LongOpcode, 0),
        0x82 => opi("res 0, d", 1, OperandKind::LongOpcode, 0),
        0x83 => opi("res 0, e", 1, OperandKind::LongOpcode, 0),
        0x84 => opi("res 0, h", 1, OperandKind::LongOpcode, 0),
        0x85 => opi("res 0, l", 1, OperandKind::LongOpcode, 0),
        0x86 => opi("res 0, [hl]", 1, OperandKind::LongOpcode, OPCODE_FLAG_WRITE_MEM),
        0x87 => opi("res 0, a", 1, OperandKind::LongOpcode, 0),
        0x88 => opi("res 1, b", 1, OperandKind::LongOpcode, 0),
        0x89 => opi("res 1, c", 1, OperandKind::LongOpcode, 0),
        0x8A => opi("res 1, d", 1, OperandKind::LongOpcode, 0),
        0x8B => opi("res 1, e", 1, OperandKind::LongOpcode, 0),
        0x8C => opi("res 1, h", 1, OperandKind::LongOpcode, 0),
        0x8D => opi("res 1, l", 1, OperandKind::LongOpcode, 0),
        0x8E => opi("res 1, [hl]", 1, OperandKind::LongOpcode, OPCODE_FLAG_WRITE_MEM),
        0x8F => opi("res 1, a", 1, OperandKind::LongOpcode, 0),
        0x90 => opi("res 2, b", 1, OperandKind::LongOpcode, 0),
        0x91 => opi("res 2, c", 1, OperandKind::LongOpcode, 0),
        0x92 => opi("res 2, d", 1, OperandKind::LongOpcode, 0),
        0x93 => opi("res 2, e", 1, OperandKind::LongOpcode, 0),
        0x94 => opi("res 2, h", 1, OperandKind::LongOpcode, 0),
        0x95 => opi("res 2, l", 1, OperandKind::LongOpcode, 0),
        0x96 => opi("res 2, [hl]", 1, OperandKind::LongOpcode, OPCODE_FLAG_WRITE_MEM),
        0x97 => opi("res 2, a", 1, OperandKind::LongOpcode, 0),
        0x98 => opi("res 3, b", 1, OperandKind::LongOpcode, 0),
        0x99 => opi("res 3, c", 1, OperandKind::LongOpcode, 0),
        0x9A => opi("res 3, d", 1, OperandKind::LongOpcode, 0),
        0x9B => opi("res 3, e", 1, OperandKind::LongOpcode, 0),
        0x9C => opi("res 3, h", 1, OperandKind::LongOpcode, 0),
        0x9D => opi("res 3, l", 1, OperandKind::LongOpcode, 0),
        0x9E => opi("res 3, [hl]", 1, OperandKind::LongOpcode, OPCODE_FLAG_WRITE_MEM),
        0x9F => opi("res 3, a", 1, OperandKind::LongOpcode, 0),
        0xA0 => opi("res 4, b", 1, OperandKind::LongOpcode, 0),
        0xA1 => opi("res 4, c", 1, OperandKind::LongOpcode, 0),
        0xA2 => opi("res 4, d", 1, OperandKind::LongOpcode, 0),
        0xA3 => opi("res 4, e", 1, OperandKind::LongOpcode, 0),
        0xA4 => opi("res 4, h", 1, OperandKind::LongOpcode, 0),
        0xA5 => opi("res 4, l", 1, OperandKind::LongOpcode, 0),
        0xA6 => opi("res 4, [hl]", 1, OperandKind::LongOpcode, OPCODE_FLAG_WRITE_MEM),
        0xA7 => opi("res 4, a", 1, OperandKind::LongOpcode, 0),
        0xA8 => opi("res 5, b", 1, OperandKind::LongOpcode, 0),
        0xA9 => opi("res 5, c", 1, OperandKind::LongOpcode, 0),
        0xAA => opi("res 5, d", 1, OperandKind::LongOpcode, 0),
        0xAB => opi("res 5, e", 1, OperandKind::LongOpcode, 0),
        0xAC => opi("res 5, h", 1, OperandKind::LongOpcode, 0),
        0xAD => opi("res 5, l", 1, OperandKind::LongOpcode, 0),
        0xAE => opi("res 5, [hl]", 1, OperandKind::LongOpcode, OPCODE_FLAG_WRITE_MEM),
        0xAF => opi("res 5, a", 1, OperandKind::LongOpcode, 0),
        0xB0 => opi("res 6, b", 1, OperandKind::LongOpcode, 0),
        0xB1 => opi("res 6, c", 1, OperandKind::LongOpcode, 0),
        0xB2 => opi("res 6, d", 1, OperandKind::LongOpcode, 0),
        0xB3 => opi("res 6, e", 1, OperandKind::LongOpcode, 0),
        0xB4 => opi("res 6, h", 1, OperandKind::LongOpcode, 0),
        0xB5 => opi("res 6, l", 1, OperandKind::LongOpcode, 0),
        0xB6 => opi("res 6, [hl]", 1, OperandKind::LongOpcode, OPCODE_FLAG_WRITE_MEM),
        0xB7 => opi("res 6, a", 1, OperandKind::LongOpcode, 0),
        0xB8 => opi("res 7, b", 1, OperandKind::LongOpcode, 0),
        0xB9 => opi("res 7, c", 1, OperandKind::LongOpcode, 0),
        0xBA => opi("res 7, d", 1, OperandKind::LongOpcode, 0),
        0xBB => opi("res 7, e", 1, OperandKind::LongOpcode, 0),
        0xBC => opi("res 7, h", 1, OperandKind::LongOpcode, 0),
        0xBD => opi("res 7, l", 1, OperandKind::LongOpcode, 0),
        0xBE => opi("res 7, [hl]", 1, OperandKind::LongOpcode, OPCODE_FLAG_WRITE_MEM),
        0xBF => opi("res 7, a", 1, OperandKind::LongOpcode, 0),
        0xC0 => opi("set 0, b", 1, OperandKind::LongOpcode, 0),
        0xC1 => opi("set 0, c", 1, OperandKind::LongOpcode, 0),
        0xC2 => opi("set 0, d", 1, OperandKind::LongOpcode, 0),
        0xC3 => opi("set 0, e", 1, OperandKind::LongOpcode, 0),
        0xC4 => opi("set 0, h", 1, OperandKind::LongOpcode, 0),
        0xC5 => opi("set 0, l", 1, OperandKind::LongOpcode, 0),
        0xC6 => opi("set 0, [hl]", 1, OperandKind::LongOpcode, OPCODE_FLAG_WRITE_MEM),
        0xC7 => opi("set 0, a", 1, OperandKind::LongOpcode, 0),
        0xC8 => opi("set 1, b", 1, OperandKind::LongOpcode, 0),
        0xC9 => opi("set 1, c", 1, OperandKind::LongOpcode, 0),
        0xCA => opi("set 1, d", 1, OperandKind::LongOpcode, 0),
        0xCB => opi("set 1, e", 1, OperandKind::LongOpcode, 0),
        0xCC => opi("set 1, h", 1, OperandKind::LongOpcode, 0),
        0xCD => opi("set 1, l", 1, OperandKind::LongOpcode, 0),
        0xCE => opi("set 1, [hl]", 1, OperandKind::LongOpcode, OPCODE_FLAG_WRITE_MEM),
        0xCF => opi("set 1, a", 1, OperandKind::LongOpcode, 0),
        0xD0 => opi("set 2, b", 1, OperandKind::LongOpcode, 0),
        0xD1 => opi("set 2, c", 1, OperandKind::LongOpcode, 0),
        0xD2 => opi("set 2, d", 1, OperandKind::LongOpcode, 0),
        0xD3 => opi("set 2, e", 1, OperandKind::LongOpcode, 0),
        0xD4 => opi("set 2, h", 1, OperandKind::LongOpcode, 0),
        0xD5 => opi("set 2, l", 1, OperandKind::LongOpcode, 0),
        0xD6 => opi("set 2, [hl]", 1, OperandKind::LongOpcode, OPCODE_FLAG_WRITE_MEM),
        0xD7 => opi("set 2, a", 1, OperandKind::LongOpcode, 0),
        0xD8 => opi("set 3, b", 1, OperandKind::LongOpcode, 0),
        0xD9 => opi("set 3, c", 1, OperandKind::LongOpcode, 0),
        0xDA => opi("set 3, d", 1, OperandKind::LongOpcode, 0),
        0xDB => opi("set 3, e", 1, OperandKind::LongOpcode, 0),
        0xDC => opi("set 3, h", 1, OperandKind::LongOpcode, 0),
        0xDD => opi("set 3, l", 1, OperandKind::LongOpcode, 0),
        0xDE => opi("set 3, [hl]", 1, OperandKind::LongOpcode, OPCODE_FLAG_WRITE_MEM),
        0xDF => opi("set 3, a", 1, OperandKind::LongOpcode, 0),
        0xE0 => opi("set 4, b", 1, OperandKind::LongOpcode, 0),
        0xE1 => opi("set 4, c", 1, OperandKind::LongOpcode, 0),
        0xE2 => opi("set 4, d", 1, OperandKind::LongOpcode, 0),
        0xE3 => opi("set 4, e", 1, OperandKind::LongOpcode, 0),
        0xE4 => opi("set 4, h", 1, OperandKind::LongOpcode, 0),
        0xE5 => opi("set 4, l", 1, OperandKind::LongOpcode, 0),
        0xE6 => opi("set 4, [hl]", 1, OperandKind::LongOpcode, OPCODE_FLAG_WRITE_MEM),
        0xE7 => opi("set 4, a", 1, OperandKind::LongOpcode, 0),
        0xE8 => opi("set 5, b", 1, OperandKind::LongOpcode, 0),
        0xE9 => opi("set 5, c", 1, OperandKind::LongOpcode, 0),
        0xEA => opi("set 5, d", 1, OperandKind::LongOpcode, 0),
        0xEB => opi("set 5, e", 1, OperandKind::LongOpcode, 0),
        0xEC => opi("set 5, h", 1, OperandKind::LongOpcode, 0),
        0xED => opi("set 5, l", 1, OperandKind::LongOpcode, 0),
        0xEE => opi("set 5, [hl]", 1, OperandKind::LongOpcode, OPCODE_FLAG_WRITE_MEM),
        0xEF => opi("set 5, a", 1, OperandKind::LongOpcode, 0),
        0xF0 => opi("set 6, b", 1, OperandKind::LongOpcode, 0),
        0xF1 => opi("set 6, c", 1, OperandKind::LongOpcode, 0),
        0xF2 => opi("set 6, d", 1, OperandKind::LongOpcode, 0),
        0xF3 => opi("set 6, e", 1, OperandKind::LongOpcode, 0),
        0xF4 => opi("set 6, h", 1, OperandKind::LongOpcode, 0),
        0xF5 => opi("set 6, l", 1, OperandKind::LongOpcode, 0),
        0xF6 => opi("set 6, [hl]", 1, OperandKind::LongOpcode, OPCODE_FLAG_WRITE_MEM),
        0xF7 => opi("set 6, a", 1, OperandKind::LongOpcode, 0),
        0xF8 => opi("set 7, b", 1, OperandKind::LongOpcode, 0),
        0xF9 => opi("set 7, c", 1, OperandKind::LongOpcode, 0),
        0xFA => opi("set 7, d", 1, OperandKind::LongOpcode, 0),
        0xFB => opi("set 7, e", 1, OperandKind::LongOpcode, 0),
        0xFC => opi("set 7, h", 1, OperandKind::LongOpcode, 0),
        0xFD => opi("set 7, l", 1, OperandKind::LongOpcode, 0),
        0xFE => opi("set 7, [hl]", 1, OperandKind::LongOpcode, OPCODE_FLAG_WRITE_MEM),
        0xFF => opi("set 7, a", 1, OperandKind::LongOpcode, 0),    }
}

// ---- instructions ----

/// A decoded instruction. For `CB`-prefixed opcodes the operand is the second
/// opcode byte; PC-relative and high-RAM operands are stored already fixed up.
#[derive(Clone, Copy, Debug, PartialEq, Eq, Structural)]
pub struct Instruction {
    pub opcode: u8,
    pub operand: u16,
}

#[derive(Clone, Copy, Debug, PartialEq, Eq, Structural)]
pub enum DecodeError {
    SliceTooSmall,
    InvalidOpcode,
}

pub type DecodeResult = Result<Instruction, DecodeError>;

pub open spec fn info_len(opcode: u8) -> u8 {
    if opcode == 0xCB {
        1
    } else {
        main_operand_len(opcode)
    }
}

pub open spec fn info_kind(opcode: u8) -> OperandKind {
    if opcode == 0xCB {
        OperandKind::LongOpcode
    } else {
        main_operand_kind(opcode)
    }
}

pub open spec fn info_flags(opcode: u8, operand: u16) -> u8 {
    if opcode == 0xCB {
        bitops_flags(operand as u8)
    } else {
        main_flags(opcode)
    }
}

/// Bytes that an instruction occupies.
pub open spec fn ins_len(ins: Instruction) -> nat {
    info_len(ins.opcode) as nat + 1
}

pub open spec fn ins_flags(ins: Instruction) -> u8 {
    info_flags(ins.opcode, ins.operand)
}

pub open spec fn is_jump(ins: Instruction) -> bool {
    ins_flags(ins) & OPCODE_FLAG_JUMP != 0
}

pub open spec fn is_call(ins: Instruction) -> bool {
    ins_flags(ins) & OPCODE_FLAG_CALL != 0
}

pub open spec fn is_conditional(ins: Instruction) -> bool {
    ins_flags(ins) & OPCODE_FLAG_CONDITIONAL != 0
}

/// Where control may go after `ins`, as a bare 16-bit address.
pub open spec fn jump_target(ins: Instruction) -> Option<u16> {
    if is_rst(ins.opcode) {
        Some((ins.opcode - 0xC7) as u16)
    } else if is_jump(ins) && info_kind(ins.opcode) != OperandKind::NoOperand {
        Some(ins.operand)
    } else {
        None
    }
}

/// The operand of `ins` names a concrete memory address.
pub open spec fn addr_operand(ins: Instruction) -> bool {
    ins_flags(ins) & (OPCODE_FLAG_READ_MEM | OPCODE_FLAG_WRITE_MEM | OPCODE_FLAG_JUMP) != 0
        && info_kind(ins.opcode) != OperandKind::NoOperand && (info_len(ins.opcode) == 2
        || info_kind(ins.opcode) == OperandKind::DataHram || info_kind(ins.opcode)
        == OperandKind::CodeRelative)
}

/// An operand byte read as a two's complement number.
pub open spec fn sign_extend(b: u16) -> int {
    if b < 0x80 {
        b as int
    } else {
        b as int - 0x100
    }
}

/// The little-endian operand of `n` bytes that follows the opcode.
pub open spec fn raw_operand(b: Seq<u8>, n: u8) -> u16 {
    if n == 0 {
        0
    } else if n == 1 {
        b[1] as u16
    } else {
        (b[1] as int + b[2] as int * 0x100) as u16
    }
}

/// The operand as stored once the operand kind's fix-up is applied.
pub open spec fn fix_operand(kind: OperandKind, addr: u16, raw: u16) -> u16 {
    match kind {
        OperandKind::CodeRelative => ((addr as int + 2 + sign_extend(raw)) % 0x10000) as u16,
        OperandKind::DataHram => (0xFF00 + raw) as u16,
        _ => raw,
    }
}

/// The result of decoding the instruction at the start of `b`, located at `addr`.
pub open spec fn decode_spec(addr: u16, b: Seq<u8>) -> DecodeResult {
    if b.len() == 0 {
        Err(DecodeError::SliceTooSmall)
    } else if info_flags(b[0], 0) & OPCODE_FLAG_INVALID != 0 {
        Err(DecodeError::InvalidOpcode)
    } else if b.len() < info_len(b[0]) as nat + 1 {
        Err(DecodeError::SliceTooSmall)
    } else {
        let raw = raw_operand(b, info_len(b[0]));
        Ok(Instruction { opcode: b[0], operand: fix_operand(info_kind(b[0]), addr, raw) })
    }
}

impl Instruction {
    pub fn new() -> (r: Instruction)
        ensures
            r.opcode == 0,
            r.operand == 0,
    {
        Instruction { opcode: 0, operand: 0 }
    }

    /// The table entry describing this instruction; `CB`-prefixed opcodes are
    /// looked up in the bit-operation table by their operand byte.
    pub fn info(&self) -> (r: OpcodeInfo)
        ensures
            r.operand_len == info_len(self.opcode),
            r.operand_kind == info_kind(self.opcode),
            r.flags == info_flags(self.opcode, self.operand),
    {
        if self.opcode == 0xCB {
            bitops_info(self.operand as u8)
        } else {
            main_info(self.opcode)
        }
    }

    pub fn is_valid(&self) -> (r: bool)
        ensures
            r == (info_flags(self.opcode, self.operand) & OPCODE_FLAG_INVALID == 0),
    {
        (self.info().flags & OPCODE_FLAG_INVALID) == 0
    }

    pub fn encoded_len(&self) -> (r: usize)
        ensures
            r == ins_len(*self),
            1 <= r <= 3,
    {
        proof {
            lemma_operand_len_bounded(self.opcode);
        }
        self.info().operand_len as usize + 1
    }

    pub fn get_jump_target(&self) -> (r: Option<u16>)
        ensures
            r == jump_target(*self),
    {
        match self.opcode {
            0xC7 => Some(0x0000),
            0xCF => Some(0x0008),
            0xD7 => Some(0x0010),
            0xDF => Some(0x0018),
            0xE7 => Some(0x0020),
            0xEF => Some(0x0028),
            0xF7 => Some(0x0030),
            0xFF => Some(0x0038),
            _ => {
                let info = self.info();
                if (info.flags & OPCODE_FLAG_JUMP) != 0 && info.operand_kind
                    != OperandKind::NoOperand {
                    Some(self.operand)
                } else {
                    None
                }
            },
        }
    }

    pub fn is_addr_operand(&self) -> (r: bool)
        ensures
            r == addr_operand(*self),
    {
        let info = self.info();
        info.flags & (OPCODE_FLAG_READ_MEM | OPCODE_FLAG_WRITE_MEM | OPCODE_FLAG_JUMP) != 0
            && info.operand_kind != OperandKind::NoOperand && (info.operand_len == 2
            || info.operand_kind == OperandKind::DataHram || info.operand_kind
            == OperandKind::CodeRelative)
    }
}

/// Every table entry has an operand of at most two bytes.
pub proof fn lemma_operand_len_bounded(op: u8)
    ensures
        main_operand_len(op) <= 2,
        info_len(op) <= 2,
{
}

/// Decodes the instruction at `bytes[pos..]`, located at `addr`.
fn decode_at(addr: u16, bytes: &[u8], pos: usize) -> (r: DecodeResult)
    requires
        pos <= bytes@.len(),
    ensures
        r == decode_spec(addr, bytes@.skip(pos as int)),
{
    let ghost b = bytes@.skip(pos as int);
    if pos == bytes.len() {
        return Err(DecodeError::SliceTooSmall);
    }
    let mut result = Instruction::new();
    result.opcode = bytes[pos];
    if !result.is_valid() {
        return Err(DecodeError::InvalidOpcode);
    }
    let len = result.encoded_len();
    if bytes.len() - pos < len {
        return Err(DecodeError::SliceTooSmall);
    }
    if len == 2 {
        result.operand = bytes[pos + 1] as u16;
    } else if len == 3 {
        result.operand = bytes[pos + 1] as u16 + bytes[pos + 2] as u16 * 0x100;
    }
    assert(result.operand == raw_operand(b, info_len(b[0])));
    let kind = result.info().operand_kind;
    if kind == OperandKind::CodeRelative {
        let t: u32 = if result.operand < 0x80 {
            addr as u32 + 0x10000 + 2 + result.operand as u32
        } else {
            addr as u32 + 0x10000 + 2 + result.operand as u32 - 0x100
        };
        proof {
            vstd::arithmetic::div_mod::lemma_mod_add_multiples_vanish(
                addr as int + 2 + sign_extend(result.operand),
                0x10000,
            );
        }
        result.operand = (t % 0x10000) as u16;
    } else if kind == OperandKind::DataHram {
        result.operand = 0xFF00 + result.operand;
    }
    Ok(result)
}

/// Decodes the instruction at the start of `slice`, located at `addr`.
pub fn decode(addr: u16, slice: &[u8]) -> (r: DecodeResult)
    ensures
        r == decode_spec(addr, slice@),
{
    assert(slice@.skip(0) == slice@);
    decode_at(addr, slice, 0)
}

/// The item that a decoding walk at `xa` over `rest` yields next.
pub open spec fn first_item(xa: XAddr, rest: Seq<u8>) -> Option<(XAddr, DecodeResult)> {
    if rest.len() == 0 {
        None
    } else {
        Some((xa, decode_spec(xa.addr, rest)))
    }
}

/// Where a decoding walk stands after yielding its next item: past the
/// instruction, or at the end once an error has been yielded.
pub open spec fn after_item(xa: XAddr, rest: Seq<u8>) -> (XAddr, Seq<u8>) {
    if rest.len() == 0 {
        (xa, rest)
    } else {
        match decode_spec(xa.addr, rest) {
            Ok(ins) => (xadd(xa, ins_len(ins) as int), rest.skip(ins_len(ins) as int)),
            Err(_) => (xa, Seq::empty()),
        }
    }
}

/// A decoded instruction never claims more bytes than it was decoded from.
pub proof fn lemma_decoded_fits(addr: u16, b: Seq<u8>)
    ensures
        decode_spec(addr, b) is Ok ==> 1 <= ins_len(decode_spec(addr, b)->Ok_0) <= b.len(),
        decode_spec(addr, b) is Ok ==> decode_spec(addr, b)->Ok_0.opcode == b[0],
{
}

/// Streams the instructions of a byte slice, each with its address.
pub struct DecodeSliceIter<'a> {
    addr: XAddr,
    slice: &'a [u8],
    pos: usize,
}

impl<'a> DecodeSliceIter<'a> {
    /// Address of the next item.
    pub closed spec fn cur(&self) -> XAddr {
        self.addr
    }

    /// Bytes not yet decoded.
    pub closed spec fn rest(&self) -> Seq<u8> {
        self.slice@.skip(self.pos as int)
    }

    pub closed spec fn wf(&self) -> bool {
        self.pos <= self.slice@.len()
    }

    /// Yields the next instruction, or the error that ends the walk.
    pub fn next(&mut self) -> (r: Option<(XAddr, DecodeResult)>)
        requires
            old(self).wf(),
        ensures
            final(self).wf(),
            r == first_item(old(self).cur(), old(self).rest()),
            (final(self).cur(), final(self).rest()) == after_item(old(self).cur(), old(self).rest()),
    {
        if self.pos == self.slice.len() {
            return None;
        }
        let addr = self.addr;
        let res = decode_at(addr.addr, self.slice, self.pos);
        proof {
            lemma_decoded_fits(addr.addr, self.slice@.skip(self.pos as int));
        }
        match res {
            Ok(ins) => {
                let n = ins.encoded_len();
                self.addr = addr.add(n as u16);
                self.pos = self.pos + n;
                assert(self.slice@.skip(self.pos as int) =~= old(self).rest().skip(n as int));
            },
            Err(_) => {
                self.pos = self.slice.len();
                assert(self.slice@.skip(self.pos as int) =~= Seq::<u8>::empty());
            },
        }
        Some((addr, res))
    }
}

/// A walk over `slice` whose first instruction is at `addr`.
pub fn decode_slice<'a>(addr: XAddr, slice: &'a [u8]) -> (r: DecodeSliceIter<'a>)
    ensures
        r.wf(),
        r.cur() == addr,
        r.rest() == slice@,
{
    let r = DecodeSliceIter { addr, slice, pos: 0 };
    assert(r.rest() =~= slice@);
    r
}

// ---- laws of the decoder ----

/// Decoding the bytes that an instruction was decoded from, at the same
/// address, gives the same instruction.
pub proof fn lemma_redecode(addr: u16, b: Seq<u8>)
    requires
        decode_spec(addr, b) is Ok,
    ensures
        decode_spec(addr, b.take(ins_len(decode_spec(addr, b)->Ok_0) as int)) == decode_spec(
            addr,
            b,
        ),
{
    let n = ins_len(decode_spec(addr, b)->Ok_0) as int;
    let t = b.take(n);
    assert(t[0] == b[0]);
    assert(raw_operand(t, info_len(b[0])) == raw_operand(b, info_len(b[0])));
}

/// Operands are at most two bytes long; after the `CB` prefix comes exactly
/// one byte, so every bit operation is two bytes long.
pub proof fn lemma_table_operand_lengths(op: u8, sub: u16)
    ensures
        main_operand_len(op) <= 2,
        main_operand_len(0xCB) == 1,
        ins_len(Instruction { opcode: 0xCB, operand: sub }) == 2,
{
}

/// A PC-relative operand becomes the address two bytes past the instruction
/// plus the signed offset, wrapping within 16 bits; a high-RAM operand
/// becomes `0xFF00 | offset`.
pub proof fn lemma_operand_fixups(addr: u16, b: Seq<u8>)
    requires
        decode_spec(addr, b) is Ok,
    ensures
        info_kind(b[0]) == OperandKind::CodeRelative ==> decode_spec(addr, b)->Ok_0.operand == (
        addr as int + 2 + sign_extend(b[1] as u16)) % 0x10000,
        info_kind(b[0]) == OperandKind::DataHram ==> decode_spec(addr, b)->Ok_0.operand == (0xFF00u16
            | b[1] as u16),
{
    if info_kind(b[0]) == OperandKind::DataHram {
        let x = b[1] as u16;
        assert(x < 0x100 ==> 0xFF00u16 + x == (0xFF00u16 | x)) by (bit_vector);
    }
}

/// Every `rst` has a fixed target; `ret`, `reti` and `jp hl` have none.
pub proof fn lemma_static_jump_targets(operand: u16)
    ensures
        forall|op: u8|
            is_rst(op) ==> #[trigger] jump_target(Instruction { opcode: op, operand }) == Some(
                (op - 0xC7) as u16,
            ),
        jump_target(Instruction { opcode: 0xC9, operand }) is None,
        jump_target(Instruction { opcode: 0xD9, operand }) is None,
        jump_target(Instruction { opcode: 0xE9, operand }) is None,
{
}

/// Decoding needs no bytes past the instruction: any prefix that holds it
/// decodes the same.
pub proof fn lemma_decode_prefix(addr: u16, b: Seq<u8>, k: int)
    requires
        decode_spec(addr, b) is Ok,
        ins_len(decode_spec(addr, b)->Ok_0) <= k <= b.len(),
    ensures
        decode_spec(addr, b.take(k)) == decode_spec(addr, b),
{
    let t = b.take(k);
    assert(t[0] == b[0]);
    assert(raw_operand(t, info_len(b[0])) == raw_operand(b, info_len(b[0])));
}

} // verus!
