use vstd::prelude::*;

use vstd::string::{StrSliceExecFns, StringExecFns};

use crate::anal::{
    banks_at, expand, in_window, initial_regs, slice_bytes, AnalEmu, AnalInfo, BankRegs, RomInfo,
};
use crate::gbasm::{addr_operand, decode_spec, ins_len, jump_target, Instruction};
use crate::tags::{is_tag_range, tag_range, tags_sorted, Tag};
use crate::xaddr::{key_of, xadd, XAddr};

verus! {

pub const HEX_DIGITS: &'static str = "0123456789ABCDEF";

pub open spec fn hex_digit(d: int) -> char {
    HEX_DIGITS@[d]
}

/// `n` in upper-case hex, four digits.
pub open spec fn hex4(n: u16) -> Seq<char> {
    seq![
        hex_digit(n as int / 0x1000),
        hex_digit(n as int / 0x100 % 16),
        hex_digit(n as int / 0x10 % 16),
        hex_digit(n as int % 16),
    ]
}

/// `n` in upper-case hex, at least two digits.
pub open spec fn hex2(n: u16) -> Seq<char> {
    if n < 0x100 {
        hex4(n).skip(2)
    } else if n < 0x1000 {
        hex4(n).skip(1)
    } else {
        hex4(n)
    }
}

/// The name given to an address that no tag names, by the region it lies in.
pub open spec fn default_name(xa: XAddr, base: Seq<char>) -> Seq<char> {
    if 0xA000 <= xa.addr <= 0xAFFF {
        seq!['s'] + base + seq!['_'] + hex2(xa.bank) + seq!['_'] + hex4(xa.addr)
    } else if 0xFF80 <= xa.addr <= 0xFFFE {
        seq!['h'] + base + hex4(xa.addr)
    } else if 0xC000 <= xa.addr <= 0xDFFF {
        if xa.bank == 0 {
            seq!['w'] + base + hex4(xa.addr)
        } else {
            seq!['w'] + base + seq!['_'] + hex2(xa.bank) + seq!['_'] + hex4(xa.addr)
        }
    } else if xa.bank == 0 {
        base + seq!['_'] + hex4(xa.addr)
    } else {
        base + seq!['_'] + hex2(xa.bank) + seq!['_'] + hex4(xa.addr)
    }
}

fn push_digit(s: &mut String, d: u16)
    requires
        d < 16,
    ensures
        final(s)@ == old(s)@.push(hex_digit(d as int)),
{
    proof {
        reveal_strlit("0123456789ABCDEF");
    }
    let t = HEX_DIGITS.substring_char(d as usize, d as usize + 1);
    s.append(t);
    assert(t@ =~= seq![hex_digit(d as int)]);
}

fn push_hex4(s: &mut String, n: u16)
    ensures
        final(s)@ == old(s)@ + hex4(n),
{
    push_digit(s, n / 0x1000);
    push_digit(s, n / 0x100 % 16);
    push_digit(s, n / 0x10 % 16);
    push_digit(s, n % 16);
    assert(s@ =~= old(s)@ + hex4(n));
}

fn push_hex2(s: &mut String, n: u16)
    ensures
        final(s)@ == old(s)@ + hex2(n),
{
    if n >= 0x1000 {
        push_digit(s, n / 0x1000);
    }
    if n >= 0x100 {
        push_digit(s, n / 0x100 % 16);
    }
    push_digit(s, n / 0x10 % 16);
    push_digit(s, n % 16);
    assert(s@ =~= old(s)@ + hex2(n));
}

fn push_char(s: &mut String, c: char)
    requires
        c == 's' || c == 'h' || c == 'w' || c == '_',
    ensures
        final(s)@ == old(s)@.push(c),
{
    proof {
        reveal_strlit("s");
        reveal_strlit("h");
        reveal_strlit("w");
        reveal_strlit("_");
    }
    if c == 's' {
        s.append("s");
    } else if c == 'h' {
        s.append("h");
    } else if c == 'w' {
        s.append("w");
    } else {
        s.append("_");
    }
    assert(s@ =~= old(s)@.push(c));
}

/// The default name of `xa`, made from `base` and the address in hex.
pub fn default_xaddr_name(xa: XAddr, base: &str) -> (r: String)
    ensures
        r@ == default_name(xa, base@),
{
    let mut s = String::new();
    let bank = xa.bank;
    let addr = xa.addr;
    if 0xA000 <= addr && addr <= 0xAFFF {
        push_char(&mut s, 's');
        s.append(base);
        push_char(&mut s, '_');
        push_hex2(&mut s, bank);
        push_char(&mut s, '_');
        push_hex4(&mut s, addr);
    } else if 0xFF80 <= addr && addr <= 0xFFFE {
        push_char(&mut s, 'h');
        s.append(base);
        push_hex4(&mut s, addr);
    } else if 0xC000 <= addr && addr <= 0xDFFF {
        push_char(&mut s, 'w');
        s.append(base);
        if bank != 0 {
            push_char(&mut s, '_');
            push_hex2(&mut s, bank);
            push_char(&mut s, '_');
        }
        push_hex4(&mut s, addr);
    } else {
        s.append(base);
        push_char(&mut s, '_');
        if bank != 0 {
            push_hex2(&mut s, bank);
            push_char(&mut s, '_');
        }
        push_hex4(&mut s, addr);
    }
    assert(s@ =~= default_name(xa, base@));
    s
}

/// An address that an instruction refers to, for naming: the target of a
/// jump (`code`) or a memory operand, and the banked address it resolves to.
#[derive(Clone, Copy, Debug)]
pub struct CodeRef {
    pub at: XAddr,
    pub addr: u16,
    pub target: Option<XAddr>,
    pub code: bool,
}

pub open spec fn tagged_operand_addr(tags: Seq<(XAddr, Tag)>, xa: XAddr) -> bool {
    exists|i: int| 0 <= i < tags.len() && (#[trigger] tags[i]).0 == xa && tags[i].1 is OperandAddr
}

/// What `ins` at `xa` refers to under the registers `regs`.
pub open spec fn ins_refs(
    tags: Seq<(XAddr, Tag)>,
    ri: RomInfo,
    xa: XAddr,
    ins: Instruction,
    regs: BankRegs,
) -> Seq<CodeRef> {
    match jump_target(ins) {
        Some(a) => seq![CodeRef { at: xa, addr: a, target: expand(ri, regs, a), code: true }],
        None => if addr_operand(ins) || tagged_operand_addr(tags, xa) {
            seq![
                CodeRef {
                    at: xa,
                    addr: ins.operand,
                    target: expand(ri, regs, ins.operand),
                    code: false,
                },
            ]
        } else {
            Seq::empty()
        },
    }
}

/// The references of the instructions of a walk, in order.
pub open spec fn walk_refs(
    tags: Seq<(XAddr, Tag)>,
    ri: RomInfo,
    xa: XAddr,
    rest: Seq<u8>,
    regs: BankRegs,
) -> Seq<CodeRef>
    decreases rest.len(),
{
    if rest.len() == 0 {
        Seq::empty()
    } else {
        let regs2 = banks_at(tags, xa, regs);
        match decode_spec(xa.addr, rest) {
            Err(_) => Seq::empty(),
            Ok(ins) => ins_refs(tags, ri, xa, ins, regs2) + walk_refs(
                tags,
                ri,
                xadd(xa, ins_len(ins) as int),
                rest.skip(ins_len(ins) as int),
                regs2,
            ),
        }
    }
}

/// The references of all the blocks, block by block.
pub open spec fn blocks_refs(
    rom: Seq<u8>,
    ri: RomInfo,
    tags: Seq<(XAddr, Tag)>,
    blocks: Seq<(XAddr, usize)>,
) -> Seq<CodeRef>
    decreases blocks.len(),
{
    if blocks.len() == 0 {
        Seq::empty()
    } else {
        let (xa, len) = blocks.last();
        blocks_refs(rom, ri, tags, blocks.drop_last()) + walk_refs(
            tags,
            ri,
            xa,
            slice_bytes(rom, ri.big_rom, xa, len as nat),
            initial_regs(xa),
        )
    }
}

fn is_operand_addr_at(tags: &[(XAddr, Tag)], xa: XAddr) -> (r: bool)
    requires
        tags_sorted(tags@),
    ensures
        r == tagged_operand_addr(tags@, xa),
{
    let (lo, hi) = tag_range(tags, &xa);
    let mut i: usize = lo;
    while i < hi
        invariant
            is_tag_range(tags@, xa, lo as int, hi as int),
            lo <= i <= hi,
            forall|j: int| lo <= j < i ==> !(tags@[j].1 is OperandAddr),
        decreases hi - i,
    {
        if let Tag::OperandAddr = &tags[i].1 {
            proof {
                crate::xaddr::lemma_key_injective(tags@[i as int].0, xa);
            }
            return true;
        }
        i = i + 1;
    }
    proof {
        assert forall|j: int|
            0 <= j < tags@.len() && (#[trigger] tags@[j]).0 == xa implies !(
            tags@[j].1 is OperandAddr) by {
            if j < lo || j >= hi {
                assert(key_of(tags@[j].0) != key_of(xa));
            }
        }
    }
    false
}

fn block_refs(info: &AnalInfo, xa: XAddr, len: usize, result: &mut Vec<CodeRef>)
    requires
        info.wf(),
        in_window(info.rom@.len(), info.rom_info.big_rom, xa, len as nat),
    ensures
        final(result)@ == old(result)@ + walk_refs(
            info.tags@,
            info.rom_info,
            xa,
            slice_bytes(info.rom@, info.rom_info.big_rom, xa, len as nat),
            initial_regs(xa),
        ),
{
    let ghost whole = walk_refs(
        info.tags@,
        info.rom_info,
        xa,
        slice_bytes(info.rom@, info.rom_info.big_rom, xa, len as nat),
        initial_regs(xa),
    );
    let ghost before = result@;
    proof {
        crate::anal::lemma_window_slice(info.rom@.len(), info.rom_info.big_rom, xa, len as nat);
    }
    let mut emu = AnalEmu::with_bound(info, xa, len);
    assert(result@ + whole =~= before + whole);
    loop
        invariant
            info.wf(),
            emu.wf(),
            emu.info() == *info,
            result@ + walk_refs(info.tags@, info.rom_info, emu.cur(), emu.rest(), emu.regs())
                == before + whole,
        ensures
            result@ == before + whole,
        decreases emu.rest().len(),
    {
        let ghost cur = emu.cur();
        let ghost rest = emu.rest();
        let ghost regs = emu.regs();
        let ghost prev = result@;
        proof {
            crate::gbasm::lemma_decoded_fits(cur.addr, rest);
        }
        match emu.next() {
            Some((at, Ok(ins))) => {
                let ghost mine = ins_refs(info.tags@, info.rom_info, at, ins, emu.regs());
                if let Some(addr) = ins.get_jump_target() {
                    result.push(CodeRef { at, addr, target: emu.expand_addr(addr), code: true });
                } else if ins.is_addr_operand() || is_operand_addr_at(info.tags, at) {
                    let addr = ins.operand;
                    result.push(CodeRef { at, addr, target: emu.expand_addr(addr), code: false });
                }
                assert(result@ =~= prev + mine);
                assert(prev + walk_refs(info.tags@, info.rom_info, cur, rest, regs) =~= result@
                    + walk_refs(info.tags@, info.rom_info, emu.cur(), emu.rest(), emu.regs()));
            },
            _ => {
                assert(walk_refs(info.tags@, info.rom_info, cur, rest, regs) =~= Seq::<CodeRef>::empty());
                assert(result@ =~= result@ + Seq::<CodeRef>::empty());
                break;
            },
        }
    }
}

/// The references of every instruction of the code blocks, in block order,
/// each with the banked address it resolves to under the bank registers of
/// a walk through its block.
pub fn code_refs(info: &AnalInfo, code_blocks: &[(XAddr, usize)]) -> (r: Vec<CodeRef>)
    requires
        info.wf(),
        forall|k: int|
            0 <= k < code_blocks@.len() ==> in_window(
                info.rom@.len(),
                info.rom_info.big_rom,
                (#[trigger] code_blocks@[k]).0,
                code_blocks@[k].1 as nat,
            ),
    ensures
        r@ == blocks_refs(info.rom@, info.rom_info, info.tags@, code_blocks@),
{
    let mut result: Vec<CodeRef> = Vec::new();
    let mut i: usize = 0;
    while i < code_blocks.len()
        invariant
            info.wf(),
            i <= code_blocks@.len(),
            forall|k: int|
                0 <= k < code_blocks@.len() ==> in_window(
                    info.rom@.len(),
                    info.rom_info.big_rom,
                    (#[trigger] code_blocks@[k]).0,
                    code_blocks@[k].1 as nat,
                ),
            result@ == blocks_refs(info.rom@, info.rom_info, info.tags@, code_blocks@.take(i as int)),
        decreases code_blocks@.len() - i,
    {
        let (xa, len) = code_blocks[i];
        proof {
            assert(code_blocks@.take(i as int + 1).drop_last() =~= code_blocks@.take(i as int));
        }
        block_refs(info, xa, len, &mut result);
        i = i + 1;
    }
    assert(code_blocks@.take(code_blocks@.len() as int) =~= code_blocks@);
    result
}

} // verus!
