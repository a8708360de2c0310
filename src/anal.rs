use vstd::prelude::*;

use superslice::Ext;

use crate::gbasm::{
    after_item, decode_slice, decode_spec, first_item, ins_flags, ins_len, is_jump, jump_target,
    DecodeResult, DecodeSliceIter, OPCODE_FLAG_CALL, OPCODE_FLAG_CONDITIONAL, OPCODE_FLAG_JUMP,
};
use crate::tags::{is_tag_range, tag_range, tags_sorted, Tag};
use crate::xaddr::{key_of, sorted, strictly_sorted, xadd, XAddr};

verus! {

/// Cartridge layout.
#[derive(Clone, Copy, Debug)]
pub struct RomInfo {
    pub big_rom: bool,
    pub cgb_ram: bool,
    pub sram_count: usize,
}

/// The cartridge image with its layout and tags.
#[derive(Debug)]
pub struct AnalInfo<'a> {
    pub rom: &'a [u8],
    pub rom_info: RomInfo,
    pub tags: &'a [(XAddr, Tag)],
}

#[derive(Clone, Copy, Debug, PartialEq, Eq, Structural)]
pub enum RomSliceError {
    NonRomAddr,
    BankedRomAddr,
    NonBankedHiRomAddr,
    BankTooHigh,
}

pub open spec fn min(a: int, b: int) -> int {
    if a < b {
        a
    } else {
        b
    }
}

/// The offsets into a ROM of `rom_len` bytes that a slice request selects.
pub open spec fn slice_range(rom_len: nat, big_rom: bool, xa: XAddr, len: nat) -> Result<
    (int, int),
    RomSliceError,
> {
    let off = xa.addr as int;
    if off < 0x4000 {
        if xa.bank != 0 {
            Err(RomSliceError::BankedRomAddr)
        } else if big_rom {
            Ok((off, min(off + len, 0x4000)))
        } else {
            Ok((off, min(off + len, rom_len as int)))
        }
    } else if off < 0x8000 {
        if xa.bank == 0 {
            if big_rom {
                Err(RomSliceError::NonBankedHiRomAddr)
            } else if off > rom_len {
                Err(RomSliceError::BankTooHigh)
            } else {
                Ok((off, min(off + len, rom_len as int)))
            }
        } else {
            let bnk = 0x4000 * xa.bank as int;
            let end = min(off - 0x4000 + len, 0x4000);
            if !big_rom {
                Err(RomSliceError::BankedRomAddr)
            } else if bnk + end > rom_len {
                Err(RomSliceError::BankTooHigh)
            } else {
                Ok((bnk + off - 0x4000, bnk + end))
            }
        }
    } else {
        Err(RomSliceError::NonRomAddr)
    }
}

/// The bytes that a slice request selects (none when it is refused).
pub open spec fn slice_bytes(rom: Seq<u8>, big_rom: bool, xa: XAddr, len: nat) -> Seq<u8> {
    match slice_range(rom.len(), big_rom, xa, len) {
        Ok((a, b)) => rom.subrange(a, b),
        Err(_) => Seq::empty(),
    }
}

/// `len` bytes from `xa` lie inside one bank of the ROM and start inside it.
pub open spec fn in_window(rom_len: nat, big_rom: bool, xa: XAddr, len: nat) -> bool {
    if big_rom {
        (xa.bank == 0 && xa.addr < 0x4000 && xa.addr + len <= 0x4000) || (0 < xa.bank && xa.bank
            < rom_len / 0x4000 && 0x4000 <= xa.addr && xa.addr < 0x8000 && xa.addr + len <= 0x8000)
    } else {
        xa.bank == 0 && xa.addr < rom_len && xa.addr + len <= rom_len
    }
}

/// The number of banks that the layout gives a ROM of `rom_len` bytes.
pub open spec fn bank_count(rom_len: nat, big_rom: bool) -> nat {
    if big_rom {
        rom_len / 0x4000
    } else {
        1
    }
}

/// Start and length of bank `i`.
pub open spec fn bank_block(rom_len: nat, big_rom: bool, i: nat) -> (XAddr, usize) {
    if big_rom {
        (XAddr { bank: i as u16, addr: if i == 0 { 0 } else { 0x4000 } }, 0x4000)
    } else {
        (XAddr { bank: 0, addr: 0 }, rom_len as usize)
    }
}

/// A ROM request inside a bank is served whole.
pub proof fn lemma_window_slice(rom_len: nat, big_rom: bool, xa: XAddr, len: nat)
    requires
        rom_len % 0x4000 == 0,
        rom_len > 0,
        !big_rom ==> rom_len <= 0x8000,
        in_window(rom_len, big_rom, xa, len),
    ensures
        slice_range(rom_len, big_rom, xa, len) is Ok,
        slice_range(rom_len, big_rom, xa, len)->Ok_0.1 - slice_range(
            rom_len,
            big_rom,
            xa,
            len,
        )->Ok_0.0 == len,
{
    if big_rom && xa.bank > 0 {
        let q = rom_len as int / 0x4000;
        vstd::arithmetic::div_mod::lemma_fundamental_div_mod(rom_len as int, 0x4000);
        vstd::arithmetic::mul::lemma_mul_inequality(xa.bank as int + 1, q, 0x4000);
        assert(0x4000 * xa.bank as int + 0x4000 <= rom_len);
        let off = xa.addr as int;
        let end = min(off - 0x4000 + len, 0x4000);
        assert(end == off - 0x4000 + len);
        assert(0x4000 * xa.bank as int + end <= rom_len);
        assert(slice_range(rom_len, big_rom, xa, len) == Ok::<(int, int), RomSliceError>(
            (0x4000 * xa.bank as int + off - 0x4000, 0x4000 * xa.bank as int + end),
        ));
    } else if big_rom {
        assert(xa.bank == 0 && xa.addr < 0x4000);
        assert(slice_range(rom_len, big_rom, xa, len) == Ok::<(int, int), RomSliceError>(
            (xa.addr as int, xa.addr + len),
        ));
    } else {
        assert(xa.addr < rom_len);
        assert(slice_range(rom_len, big_rom, xa, len) == Ok::<(int, int), RomSliceError>(
            (xa.addr as int, xa.addr + len),
        ));
    }
}

/// Part of a window is a window.
pub proof fn lemma_window_sub(rom_len: nat, big_rom: bool, xa: XAddr, len: nat, off: nat, n: nat)
    requires
        !big_rom ==> rom_len <= 0x8000,
        in_window(rom_len, big_rom, xa, len),
        off < len,
        off + n <= len,
    ensures
        in_window(rom_len, big_rom, xadd(xa, off as int), n),
        xadd(xa, off as int).addr == xa.addr + off,
{
    vstd::arithmetic::div_mod::lemma_small_mod((xa.addr + off) as nat, 0x10000);
}

impl<'a> AnalInfo<'a> {
    /// The ROM is a whole number of banks that the layout can address, and
    /// the tags are in address order.
    pub open spec fn wf(&self) -> bool {
        &&& self.rom@.len() % 0x4000 == 0
        &&& self.rom@.len() > 0
        &&& self.rom_info.big_rom ==> self.rom@.len() <= 0x4000 * 0x10000
        &&& !self.rom_info.big_rom ==> self.rom@.len() <= 0x8000
        &&& tags_sorted(self.tags@)
    }

    pub fn new(rom_info: RomInfo, rom: &'a [u8], tags: &'a [(XAddr, Tag)]) -> (r: AnalInfo<'a>)
        requires
            rom@.len() % 0x4000 == 0,
            rom@.len() > 0,
            rom_info.big_rom ==> rom@.len() <= 0x4000 * 0x10000,
            !rom_info.big_rom ==> rom@.len() <= 0x8000,
            tags_sorted(tags@),
        ensures
            r.wf(),
            r.rom@ == rom@,
            r.rom_info == rom_info,
            r.tags@ == tags@,
    {
        AnalInfo { rom, rom_info, tags }
    }

    /// The bytes of the ROM at `xa`, at most `len` of them, never past the
    /// end of the bank.
    pub fn rom_slice(&self, xa: XAddr, len: usize) -> (r: Result<&[u8], RomSliceError>)
        requires
            self.wf(),
        ensures
            match slice_range(self.rom@.len(), self.rom_info.big_rom, xa, len as nat) {
                Ok((a, b)) => r is Ok && r->Ok_0@ == self.rom@.subrange(a, b),
                Err(e) => r is Err && r->Err_0 == e,
            },
    {
        let off = xa.addr as usize;
        if xa.addr < 0x4000 {
            if xa.bank != 0 {
                return Err(RomSliceError::BankedRomAddr);
            }
            if self.rom_info.big_rom {
                let end = if len >= 0x4000 - off {
                    0x4000
                } else {
                    off + len
                };
                Ok(vstd::slice::slice_subrange(self.rom, off, end))
            } else {
                let end = if len >= self.rom.len() - off {
                    self.rom.len()
                } else {
                    off + len
                };
                Ok(vstd::slice::slice_subrange(self.rom, off, end))
            }
        } else if xa.addr < 0x8000 {
            if xa.bank == 0 {
                if self.rom_info.big_rom {
                    return Err(RomSliceError::NonBankedHiRomAddr);
                }
                if off > self.rom.len() {
                    return Err(RomSliceError::BankTooHigh);
                }
                let end = if len >= self.rom.len() - off {
                    self.rom.len()
                } else {
                    off + len
                };
                Ok(vstd::slice::slice_subrange(self.rom, off, end))
            } else {
                let off = off - 0x4000;
                let end = if len >= 0x4000 - off {
                    0x4000
                } else {
                    off + len
                };
                if !self.rom_info.big_rom {
                    return Err(RomSliceError::BankedRomAddr);
                }
                if xa.bank as usize > self.rom.len() / 0x4000 {
                    return Err(RomSliceError::BankTooHigh);
                }
                let bnk = 0x4000 * xa.bank as usize;
                if bnk + end > self.rom.len() {
                    return Err(RomSliceError::BankTooHigh);
                }
                Ok(vstd::slice::slice_subrange(self.rom, bnk + off, bnk + end))
            }
        } else {
            Err(RomSliceError::NonRomAddr)
        }
    }

    pub fn rom_bank_count(&self) -> (r: usize)
        ensures
            r == bank_count(self.rom@.len(), self.rom_info.big_rom),
    {
        if self.rom_info.big_rom {
            self.rom.len() / 0x4000
        } else {
            1
        }
    }

    pub fn rom_bank_block(&self, bank: usize) -> (r: (XAddr, usize))
        requires
            self.wf(),
            bank < bank_count(self.rom@.len(), self.rom_info.big_rom),
        ensures
            r == bank_block(self.rom@.len(), self.rom_info.big_rom, bank as nat),
    {
        if self.rom_info.big_rom {
            (XAddr::new(bank as u16, if bank == 0 { 0x0000 } else { 0x4000 }), 0x4000)
        } else {
            (XAddr::new(0, 0), self.rom.len())
        }
    }

    pub fn rom_bank_blocks(&self) -> (r: Vec<(XAddr, usize)>)
        requires
            self.wf(),
        ensures
            r@.len() == bank_count(self.rom@.len(), self.rom_info.big_rom),
            forall|i: int|
                0 <= i < r@.len() ==> #[trigger] r@[i] == bank_block(
                    self.rom@.len(),
                    self.rom_info.big_rom,
                    i as nat,
                ),
    {
        let count = self.rom_bank_count();
        let mut result: Vec<(XAddr, usize)> = Vec::new();
        let mut i: usize = 0;
        while i < count
            invariant
                self.wf(),
                count == bank_count(self.rom@.len(), self.rom_info.big_rom),
                i <= count,
                result@.len() == i,
                forall|k: int|
                    0 <= k < i ==> #[trigger] result@[k] == bank_block(
                        self.rom@.len(),
                        self.rom_info.big_rom,
                        k as nat,
                    ),
            decreases count - i,
        {
            result.push(self.rom_bank_block(i));
            i = i + 1;
        }
        result
    }
}

// ---- bank registers ----

/// What the emulator knows of the ROM, work-RAM and cartridge-RAM bank registers.
#[derive(Clone, Copy, Debug)]
pub struct BankRegs {
    pub romb: Option<u16>,
    pub ramb: Option<u16>,
    pub srmb: Option<u16>,
}

/// The registers at the start of a walk from `xa`: the ROM bank is known
/// when `xa` lies in the switched window.
pub open spec fn initial_regs(xa: XAddr) -> BankRegs {
    BankRegs {
        romb: if 0x4000 <= xa.addr <= 0x7FFF {
            Some(xa.bank)
        } else {
            None
        },
        ramb: None,
        srmb: None,
    }
}

/// The effect of one tag on the registers.
pub open spec fn apply_tag(b: BankRegs, t: Tag) -> BankRegs {
    match t {
        Tag::RomBank(n) => BankRegs { romb: Some(n), ..b },
        Tag::RamBank(n) => BankRegs { ramb: Some(n), ..b },
        Tag::SrmBank(n) => BankRegs { srmb: Some(n), ..b },
        _ => b,
    }
}

/// The registers once every tag at `xa` is applied in order.
pub open spec fn banks_at(tags: Seq<(XAddr, Tag)>, xa: XAddr, b: BankRegs) -> BankRegs
    decreases tags.len(),
{
    if tags.len() == 0 {
        b
    } else {
        let prev = banks_at(tags.drop_last(), xa, b);
        if tags.last().0 == xa {
            apply_tag(prev, tags.last().1)
        } else {
            prev
        }
    }
}

/// Tags at other addresses leave the registers alone.
proof fn lemma_banks_elsewhere(tags: Seq<(XAddr, Tag)>, xa: XAddr, b: BankRegs, n: int)
    requires
        0 <= n <= tags.len(),
        forall|i: int| n <= i < tags.len() ==> (#[trigger] tags[i]).0 != xa,
    ensures
        banks_at(tags, xa, b) == banks_at(tags.take(n), xa, b),
    decreases tags.len(),
{
    if tags.len() > n {
        lemma_banks_elsewhere(tags.drop_last(), xa, b, n);
        assert(tags.drop_last().take(n) =~= tags.take(n));
    } else {
        assert(tags.take(n) =~= tags);
    }
}

/// Maps a bare 16-bit address to a banked one; `None` where the bank it
/// depends on is unknown.
pub open spec fn expand(ri: RomInfo, b: BankRegs, addr: u16) -> Option<XAddr> {
    if 0x4000 <= addr <= 0x7FFF && ri.big_rom {
        match b.romb {
            Some(n) => Some(XAddr { bank: n, addr }),
            None => None,
        }
    } else if 0xA000 <= addr <= 0xBFFF {
        match b.srmb {
            Some(n) => Some(XAddr { bank: n, addr }),
            None => None,
        }
    } else if 0xD000 <= addr <= 0xDFFF && ri.cgb_ram {
        match b.ramb {
            Some(n) => Some(XAddr { bank: n, addr }),
            None => None,
        }
    } else {
        Some(XAddr { bank: 0, addr })
    }
}

/// Applies the bank tags at `xa`, in order, to the registers.
pub fn apply_bank_tags(tags: &[(XAddr, Tag)], xa: XAddr, b: BankRegs) -> (r: BankRegs)
    requires
        tags_sorted(tags@),
    ensures
        r == banks_at(tags@, xa, b),
{
    let (lo, hi) = tag_range(tags, &xa);
    let mut r = b;
    proof {
        assert forall|i: int| 0 <= i < lo implies (#[trigger] tags@.take(lo as int)[i]).0 != xa by {
            assert(tags@.take(lo as int)[i] == tags@[i]);
        }
        lemma_banks_elsewhere(tags@.take(lo as int), xa, b, 0);
        assert(tags@.take(lo as int).take(0) =~= Seq::<(XAddr, Tag)>::empty());
    }
    let mut i: usize = lo;
    while i < hi
        invariant
            crate::tags::is_tag_range(tags@, xa, lo as int, hi as int),
            lo <= i <= hi,
            r == banks_at(tags@.take(i as int), xa, b),
        decreases hi - i,
    {
        proof {
            crate::xaddr::lemma_key_injective(tags@[i as int].0, xa);
            assert(tags@.take(i as int + 1).drop_last() =~= tags@.take(i as int));
        }
        match &tags[i].1 {
            Tag::RomBank(n) => r = BankRegs { romb: Some(*n), ..r },
            Tag::RamBank(n) => r = BankRegs { ramb: Some(*n), ..r },
            Tag::SrmBank(n) => r = BankRegs { srmb: Some(*n), ..r },
            _ => {},
        }
        i = i + 1;
    }
    proof {
        lemma_banks_elsewhere(tags@, xa, b, hi as int);
    }
    r
}

// ---- the decoding emulator ----

/// Walks the instructions of a ROM range while tracking the bank registers
/// that tags set along the way.
pub struct AnalEmu<'a> {
    info: &'a AnalInfo<'a>,
    decoder: DecodeSliceIter<'a>,
    regs: BankRegs,
}

impl<'a> AnalEmu<'a> {
    pub closed spec fn info(&self) -> AnalInfo<'a> {
        *self.info
    }

    /// Address of the next instruction.
    pub closed spec fn cur(&self) -> XAddr {
        self.decoder.cur()
    }

    /// Bytes not yet walked.
    pub closed spec fn rest(&self) -> Seq<u8> {
        self.decoder.rest()
    }

    pub closed spec fn regs(&self) -> BankRegs {
        self.regs
    }

    pub closed spec fn wf(&self) -> bool {
        self.decoder.wf() && self.info.wf()
    }

    /// A walk over at most `len` bytes from `xa`. The request must be one
    /// that the ROM can serve.
    pub fn with_bound(info: &'a AnalInfo<'a>, xa: XAddr, len: usize) -> (r: AnalEmu<'a>)
        requires
            info.wf(),
            slice_range(info.rom@.len(), info.rom_info.big_rom, xa, len as nat) is Ok,
        ensures
            r.wf(),
            r.info() == *info,
            r.cur() == xa,
            r.rest() == slice_bytes(info.rom@, info.rom_info.big_rom, xa, len as nat),
            r.regs() == initial_regs(xa),
    {
        let slice = match info.rom_slice(xa, len) {
            Ok(slice) => slice,
            // the request is one that the ROM serves
            Err(_) => {
                proof {
                    assert(false);
                }
                vstd::slice::slice_subrange(info.rom, 0, 0)
            },
        };
        AnalEmu {
            info,
            decoder: decode_slice(xa, slice),
            regs: BankRegs {
                romb: if 0x4000 <= xa.addr && xa.addr <= 0x7FFF {
                    Some(xa.bank)
                } else {
                    None
                },
                ramb: None,
                srmb: None,
            },
        }
    }

    /// A walk from `xa` to the end of its bank.
    pub fn new(info: &'a AnalInfo<'a>, xa: XAddr) -> (r: AnalEmu<'a>)
        requires
            info.wf(),
            slice_range(info.rom@.len(), info.rom_info.big_rom, xa, 0x8000) is Ok,
        ensures
            r.wf(),
            r.info() == *info,
            r.cur() == xa,
            r.rest() == slice_bytes(info.rom@, info.rom_info.big_rom, xa, 0x8000),
            r.regs() == initial_regs(xa),
    {
        Self::with_bound(info, xa, 0x8000)
    }

    /// The banked address that a bare operand denotes under the current registers.
    pub fn expand_addr(&self, addr: u16) -> (r: Option<XAddr>)
        ensures
            r == expand(self.info().rom_info, self.regs(), addr),
    {
        if 0x4000 <= addr && addr <= 0x7FFF {
            if self.info.rom_info.big_rom {
                return match self.regs.romb {
                    Some(b) => Some(XAddr::new(b, addr)),
                    None => None,
                };
            }
        } else if 0xA000 <= addr && addr <= 0xBFFF {
            return match self.regs.srmb {
                Some(b) => Some(XAddr::new(b, addr)),
                None => None,
            };
        } else if 0xD000 <= addr && addr <= 0xDFFF {
            if self.info.rom_info.cgb_ram {
                return match self.regs.ramb {
                    Some(b) => Some(XAddr::new(b, addr)),
                    None => None,
                };
            }
        }
        Some(XAddr::new(0, addr))
    }

    /// Applies the tags at the next address to the registers, then yields
    /// the instruction there.
    pub fn next(&mut self) -> (r: Option<(XAddr, DecodeResult)>)
        requires
            old(self).wf(),
        ensures
            final(self).wf(),
            final(self).info() == old(self).info(),
            r == first_item(old(self).cur(), old(self).rest()),
            (final(self).cur(), final(self).rest()) == after_item(old(self).cur(), old(self).rest()),
            final(self).regs() == if old(self).rest().len() > 0 {
                banks_at(old(self).info().tags@, old(self).cur(), old(self).regs())
            } else {
                old(self).regs()
            },
    {
        match self.decoder.next() {
            Some((xa, ins)) => {
                self.regs = apply_bank_tags(self.info.tags, xa, self.regs);
                Some((xa, ins))
            },
            None => None,
        }
    }
}

// ---- laws of the ROM view ----

/// The end of the bank that `xa` lies in, as a 16-bit address (the whole ROM
/// when it is not banked).
pub open spec fn bank_end(rom_len: nat, big_rom: bool, xa: XAddr) -> int {
    if !big_rom {
        rom_len as int
    } else if xa.addr < 0x4000 {
        0x4000
    } else {
        0x8000
    }
}

/// A served request is never longer than asked, stops at the end of the bank,
/// and is cut only there.
pub proof fn lemma_rom_slice_length(rom_len: nat, big_rom: bool, xa: XAddr, len: nat)
    requires
        rom_len % 0x4000 == 0,
        rom_len > 0,
        slice_range(rom_len, big_rom, xa, len) is Ok,
    ensures
        ({
            let (a, b) = slice_range(rom_len, big_rom, xa, len)->Ok_0;
            &&& 0 <= a <= b <= rom_len
            &&& b - a <= len
            &&& b - a == min(len as int, bank_end(rom_len, big_rom, xa) - xa.addr)
        }),
{
}

// ---- tag queries ----

pub open spec fn tagged_noreturn(tags: Seq<(XAddr, Tag)>, xa: XAddr) -> bool {
    exists|i: int| 0 <= i < tags.len() && (#[trigger] tags[i]).0 == xa && tags[i].1 is NoReturn
}

pub open spec fn tagged_dont_follow(tags: Seq<(XAddr, Tag)>, xa: XAddr) -> bool {
    exists|i: int|
        0 <= i < tags.len() && (#[trigger] tags[i]).0 == xa && tags[i].1 is DontFollowCall
}

fn is_noreturn_at(tags: &[(XAddr, Tag)], xa: XAddr) -> (r: bool)
    requires
        tags_sorted(tags@),
    ensures
        r == tagged_noreturn(tags@, xa),
{
    let (lo, hi) = tag_range(tags, &xa);
    let mut i: usize = lo;
    while i < hi
        invariant
            is_tag_range(tags@, xa, lo as int, hi as int),
            lo <= i <= hi,
            forall|j: int| lo <= j < i ==> !(tags@[j].1 is NoReturn),
        decreases hi - i,
    {
        if let Tag::NoReturn = &tags[i].1 {
            proof {
                crate::xaddr::lemma_key_injective(tags@[i as int].0, xa);
            }
            return true;
        }
        i = i + 1;
    }
    proof {
        assert forall|j: int|
            0 <= j < tags@.len() && (#[trigger] tags@[j]).0 == xa implies !(
            tags@[j].1 is NoReturn) by {
            if j < lo || j >= hi {
                assert(key_of(tags@[j].0) != key_of(xa));
            }
        }
    }
    false
}

fn is_dont_follow_at(tags: &[(XAddr, Tag)], xa: XAddr) -> (r: bool)
    requires
        tags_sorted(tags@),
    ensures
        r == tagged_dont_follow(tags@, xa),
{
    let (lo, hi) = tag_range(tags, &xa);
    let mut i: usize = lo;
    while i < hi
        invariant
            is_tag_range(tags@, xa, lo as int, hi as int),
            lo <= i <= hi,
            forall|j: int| lo <= j < i ==> !(tags@[j].1 is DontFollowCall),
        decreases hi - i,
    {
        if let Tag::DontFollowCall = &tags[i].1 {
            proof {
                crate::xaddr::lemma_key_injective(tags@[i as int].0, xa);
            }
            return true;
        }
        i = i + 1;
    }
    proof {
        assert forall|j: int|
            0 <= j < tags@.len() && (#[trigger] tags@[j]).0 == xa implies !(
            tags@[j].1 is DontFollowCall) by {
            if j < lo || j >= hi {
                assert(key_of(tags@[j].0) != key_of(xa));
            }
        }
    }
    false
}

// ---- head blocks ----

/// Bytes from the start of a walk to the end of its first jump; the whole
/// range `max_len` when the walk runs out first; `None` when a decode fails
/// first. `off` bytes have been walked already.
pub open spec fn head_scan(xa: XAddr, rest: Seq<u8>, off: nat, max_len: nat) -> Option<nat>
    decreases rest.len(),
{
    if rest.len() == 0 {
        Some(max_len)
    } else {
        match decode_spec(xa.addr, rest) {
            Err(_) => None,
            Ok(ins) => if is_jump(ins) {
                Some(off + ins_len(ins))
            } else {
                head_scan(
                    xadd(xa, ins_len(ins) as int),
                    rest.skip(ins_len(ins) as int),
                    off + ins_len(ins),
                    max_len,
                )
            },
        }
    }
}

/// The head block of the range of `max_len` bytes at `xa`.
pub open spec fn head_block(rom: Seq<u8>, big_rom: bool, xa: XAddr, max_len: nat) -> Option<nat> {
    head_scan(xa, slice_bytes(rom, big_rom, xa, max_len), 0, max_len)
}

proof fn lemma_head_scan_bounds(xa: XAddr, rest: Seq<u8>, off: nat, max_len: nat)
    requires
        off + rest.len() <= max_len,
        1 <= max_len,
    ensures
        head_scan(xa, rest, off, max_len) matches Some(n) ==> 1 <= n <= max_len,
    decreases rest.len(),
{
    if rest.len() > 0 {
        crate::gbasm::lemma_decoded_fits(xa.addr, rest);
        if let Ok(ins) = decode_spec(xa.addr, rest) {
            if !is_jump(ins) {
                lemma_head_scan_bounds(
                    xadd(xa, ins_len(ins) as int),
                    rest.skip(ins_len(ins) as int),
                    off + ins_len(ins),
                    max_len,
                );
            }
        }
    }
}

/// The walk over `rest` decodes without error, consumes it exactly, and meets
/// a jump only at its last instruction.
pub open spec fn clean_walk(xa: XAddr, rest: Seq<u8>) -> bool
    decreases rest.len(),
{
    if rest.len() == 0 {
        true
    } else {
        match decode_spec(xa.addr, rest) {
            Err(_) => false,
            Ok(ins) => if is_jump(ins) {
                ins_len(ins) == rest.len()
            } else {
                clean_walk(xadd(xa, ins_len(ins) as int), rest.skip(ins_len(ins) as int))
            },
        }
    }
}

/// A head block found by the scan walks cleanly.
proof fn lemma_head_clean(xa: XAddr, rest: Seq<u8>, off: nat, max_len: nat)
    requires
        off + rest.len() == max_len,
        head_scan(xa, rest, off, max_len) is Some,
    ensures
        off <= head_scan(xa, rest, off, max_len)->Some_0 <= max_len,
        clean_walk(xa, rest.take(head_scan(xa, rest, off, max_len)->Some_0 - off)),
    decreases rest.len(),
{
    let n = head_scan(xa, rest, off, max_len)->Some_0;
    if rest.len() == 0 {
        assert(rest.take(0) =~= Seq::<u8>::empty());
    } else {
        crate::gbasm::lemma_decoded_fits(xa.addr, rest);
        let ins = decode_spec(xa.addr, rest)->Ok_0;
        let l = ins_len(ins) as int;
        if is_jump(ins) {
            crate::gbasm::lemma_decode_prefix(xa.addr, rest, n - off);
        } else {
            let r2 = rest.skip(l);
            lemma_head_clean(xadd(xa, l), r2, off + l as nat, max_len);
            crate::gbasm::lemma_decode_prefix(xa.addr, rest, n - off);
            let t = rest.take(n - off);
            assert(t.skip(l) =~= r2.take(n - off - l));
            if t.len() == 0 {
                assert(false);
            }
        }
    }
}

/// The head block of the range at `xa`: up to and including the first jump,
/// or the whole range when none comes; `None` when a decode fails first.
fn scan_head_block(info: &AnalInfo, xa: XAddr, max_len: usize) -> (r: Option<(XAddr, usize)>)
    requires
        info.wf(),
        slice_range(info.rom@.len(), info.rom_info.big_rom, xa, max_len as nat) is Ok,
    ensures
        r == match head_block(info.rom@, info.rom_info.big_rom, xa, max_len as nat) {
            Some(n) => Some((xa, n as usize)),
            None => None,
        },
{
    let mut emu = AnalEmu::with_bound(info, xa, max_len);
    let mut offset: usize = 0;
    proof {
        lemma_rom_slice_length(info.rom@.len(), info.rom_info.big_rom, xa, max_len as nat);
    }
    loop
        invariant
            emu.wf(),
            offset + emu.rest().len() <= max_len,
            head_scan(emu.cur(), emu.rest(), offset as nat, max_len as nat) == head_block(
                info.rom@,
                info.rom_info.big_rom,
                xa,
                max_len as nat,
            ),
        decreases emu.rest().len(),
    {
        let ghost cur = emu.cur();
        let ghost rest = emu.rest();
        proof {
            crate::gbasm::lemma_decoded_fits(cur.addr, rest);
        }
        match emu.next() {
            None => {
                return Some((xa, max_len));
            },
            Some((_, Ok(ins))) => {
                offset = offset + ins.encoded_len();
                if (ins.info().flags & OPCODE_FLAG_JUMP) != 0 {
                    return Some((xa, offset));
                }
            },
            Some((_, Err(_))) => {
                return None;
            },
        }
    }
}

// ---- where a cut stops ----

/// Control does not come back after `ins`: an unconditional jump that is no
/// call, or a call to a routine tagged as not returning.
pub open spec fn stops_cut(tags: Seq<(XAddr, Tag)>, ri: RomInfo, ins: crate::gbasm::Instruction, regs: BankRegs) -> bool {
    ins_flags(ins) & OPCODE_FLAG_JUMP != 0 && (ins_flags(ins) & (OPCODE_FLAG_CALL
        | OPCODE_FLAG_CONDITIONAL) == 0 || (ins_flags(ins) & OPCODE_FLAG_CALL != 0
        && match jump_target(ins) {
        Some(a) => match expand(ri, regs, a) {
            Some(t) => tagged_noreturn(tags, t),
            None => false,
        },
        None => false,
    }))
}

/// Some instruction of the walk stops the cut.
pub open spec fn walk_stops(
    tags: Seq<(XAddr, Tag)>,
    ri: RomInfo,
    xa: XAddr,
    rest: Seq<u8>,
    regs: BankRegs,
) -> bool
    decreases rest.len(),
{
    if rest.len() == 0 {
        false
    } else {
        let regs2 = banks_at(tags, xa, regs);
        match decode_spec(xa.addr, rest) {
            Err(_) => false,
            Ok(ins) => stops_cut(tags, ri, ins, regs2) || walk_stops(
                tags,
                ri,
                xadd(xa, ins_len(ins) as int),
                rest.skip(ins_len(ins) as int),
                regs2,
            ),
        }
    }
}

/// The block `(xa, len)` stops its cut.
pub open spec fn block_stops(rom: Seq<u8>, ri: RomInfo, tags: Seq<(XAddr, Tag)>, xa: XAddr, len: nat) -> bool {
    walk_stops(tags, ri, xa, slice_bytes(rom, ri.big_rom, xa, len), initial_regs(xa))
}

fn block_ends_cut(info: &AnalInfo, xa: XAddr, len: usize) -> (r: bool)
    requires
        info.wf(),
        slice_range(info.rom@.len(), info.rom_info.big_rom, xa, len as nat) is Ok,
    ensures
        r == block_stops(info.rom@, info.rom_info, info.tags@, xa, len as nat),
{
    let mut emu = AnalEmu::with_bound(info, xa, len);
    loop
        invariant
            emu.wf(),
            emu.info() == *info,
            walk_stops(info.tags@, info.rom_info, emu.cur(), emu.rest(), emu.regs())
                == block_stops(info.rom@, info.rom_info, info.tags@, xa, len as nat),
        decreases emu.rest().len(),
    {
        let ghost cur = emu.cur();
        let ghost rest = emu.rest();
        proof {
            crate::gbasm::lemma_decoded_fits(cur.addr, rest);
        }
        match emu.next() {
            Some((_, Ok(ins))) => {
                let flags = ins.info().flags;
                if (flags & OPCODE_FLAG_JUMP) != 0 {
                    if (flags & (OPCODE_FLAG_CALL | OPCODE_FLAG_CONDITIONAL)) == 0 {
                        return true;
                    }
                    if (flags & OPCODE_FLAG_CALL) != 0 {
                        if let Some(addr) = ins.get_jump_target() {
                            if let Some(target) = emu.expand_addr(addr) {
                                if is_noreturn_at(info.tags, target) {
                                    return true;
                                }
                            }
                        }
                    }
                }
            },
            _ => {
                return false;
            },
        }
    }
}

// ---- code in the cuts ----

/// The code blocks found in the cut `(xstart, max_len)` from `offset` on.
pub open spec fn cut_code(
    rom: Seq<u8>,
    ri: RomInfo,
    tags: Seq<(XAddr, Tag)>,
    xstart: XAddr,
    max_len: nat,
    offset: nat,
) -> Seq<(XAddr, usize)>
    decreases max_len - offset,
{
    if offset >= max_len {
        Seq::empty()
    } else {
        let xa = xadd(xstart, offset as int);
        match head_block(rom, ri.big_rom, xa, (max_len - offset) as nat) {
            None => Seq::empty(),
            Some(len) => if len == 0 || offset + len > max_len {
                Seq::empty()
            } else {
                seq![(xa, len as usize)] + if block_stops(rom, ri, tags, xa, len) {
                    Seq::empty()
                } else {
                    cut_code(rom, ri, tags, xstart, max_len, offset + len)
                }
            },
        }
    }
}

/// The code blocks found in all the cuts, in order.
pub open spec fn code_of_cuts(
    rom: Seq<u8>,
    ri: RomInfo,
    tags: Seq<(XAddr, Tag)>,
    cuts: Seq<(XAddr, usize)>,
) -> Seq<(XAddr, usize)>
    decreases cuts.len(),
{
    if cuts.len() == 0 {
        Seq::empty()
    } else {
        code_of_cuts(rom, ri, tags, cuts.drop_last()) + cut_code(
            rom,
            ri,
            tags,
            cuts.last().0,
            cuts.last().1 as nat,
            0,
        )
    }
}

/// The code blocks of one cut: head blocks one after the other, until one
/// fails to decode or ends the flow of control.
fn code_in_cut(info: &AnalInfo, xstart: XAddr, max_len: usize) -> (r: Vec<(XAddr, usize)>)
    requires
        info.wf(),
        in_window(info.rom@.len(), info.rom_info.big_rom, xstart, max_len as nat),
    ensures
        r@ == cut_code(info.rom@, info.rom_info, info.tags@, xstart, max_len as nat, 0),
        forall|k: int|
            0 <= k < r@.len() ==> in_window(
                info.rom@.len(),
                info.rom_info.big_rom,
                (#[trigger] r@[k]).0,
                r@[k].1 as nat,
            ),
        forall|k: int|
            0 <= k < r@.len() ==> clean_walk(
                (#[trigger] r@[k]).0,
                slice_bytes(info.rom@, info.rom_info.big_rom, r@[k].0, r@[k].1 as nat),
            ),
{
    let ghost rom = info.rom@;
    let ghost ri = info.rom_info;
    let ghost tags = info.tags@;
    let mut result: Vec<(XAddr, usize)> = Vec::new();
    let mut offset: usize = 0;
    assert(result@ + cut_code(rom, ri, tags, xstart, max_len as nat, 0) =~= cut_code(
        rom,
        ri,
        tags,
        xstart,
        max_len as nat,
        0,
    ));
    while offset < max_len
        invariant_except_break
            offset <= max_len,
            result@ + cut_code(rom, ri, tags, xstart, max_len as nat, offset as nat) == cut_code(
                rom,
                ri,
                tags,
                xstart,
                max_len as nat,
                0,
            ),
        invariant
            info.wf(),
            rom == info.rom@,
            ri == info.rom_info,
            tags == info.tags@,
            in_window(rom.len(), ri.big_rom, xstart, max_len as nat),
            forall|k: int|
                0 <= k < result@.len() ==> in_window(
                    rom.len(),
                    ri.big_rom,
                    (#[trigger] result@[k]).0,
                    result@[k].1 as nat,
                ),
            forall|k: int|
                0 <= k < result@.len() ==> clean_walk(
                    (#[trigger] result@[k]).0,
                    slice_bytes(rom, ri.big_rom, result@[k].0, result@[k].1 as nat),
                ),
        ensures
            result@ == cut_code(rom, ri, tags, xstart, max_len as nat, 0),
        decreases max_len - offset,
    {
        let ghost rest_len = (max_len - offset) as nat;
        proof {
            lemma_window_sub(rom.len(), ri.big_rom, xstart, max_len as nat, offset as nat, rest_len);
        }
        let xa = xstart.add(offset as u16);
        proof {
            lemma_window_slice(rom.len(), ri.big_rom, xa, rest_len);
            lemma_rom_slice_length(rom.len(), ri.big_rom, xa, rest_len);
            lemma_head_scan_bounds(xa, slice_bytes(rom, ri.big_rom, xa, rest_len), 0, rest_len);
        }
        let ghost old_result = result@;
        let (xa, len) = match scan_head_block(info, xa, max_len - offset) {
            Some(code_block) => code_block,
            None => {
                assert(old_result + Seq::<(XAddr, usize)>::empty() =~= old_result);
                break;
            },
        };
        proof {
            lemma_window_sub(rom.len(), ri.big_rom, xstart, max_len as nat, offset as nat, len as nat);
            lemma_window_slice(rom.len(), ri.big_rom, xa, len as nat);
            let whole = slice_bytes(rom, ri.big_rom, xa, rest_len);
            lemma_head_clean(xa, whole, 0, rest_len);
            assert(whole.take(len as int) =~= slice_bytes(rom, ri.big_rom, xa, len as nat));
        }
        result.push((xa, len));
        if block_ends_cut(info, xa, len) {
            assert(old_result + (seq![(xa, len)] + Seq::<(XAddr, usize)>::empty()) =~= result@);
            break;
        }
        offset = offset + len;
        assert(old_result + (seq![(xa, len)] + cut_code(rom, ri, tags, xstart, max_len as nat, offset as nat)) =~= result@ + cut_code(rom, ri, tags, xstart, max_len as nat, offset as nat));
    }
    result
}

fn search_for_code(info: &AnalInfo, parent_blocks: &[(XAddr, usize)]) -> (r: Vec<(XAddr, usize)>)
    requires
        info.wf(),
        forall|i: int|
            0 <= i < parent_blocks@.len() ==> in_window(
                info.rom@.len(),
                info.rom_info.big_rom,
                (#[trigger] parent_blocks@[i]).0,
                parent_blocks@[i].1 as nat,
            ),
    ensures
        r@ == code_of_cuts(info.rom@, info.rom_info, info.tags@, parent_blocks@),
        forall|k: int|
            0 <= k < r@.len() ==> in_window(
                info.rom@.len(),
                info.rom_info.big_rom,
                (#[trigger] r@[k]).0,
                r@[k].1 as nat,
            ),
        forall|k: int|
            0 <= k < r@.len() ==> clean_walk(
                (#[trigger] r@[k]).0,
                slice_bytes(info.rom@, info.rom_info.big_rom, r@[k].0, r@[k].1 as nat),
            ),
{
    let mut result: Vec<(XAddr, usize)> = Vec::new();
    let mut i: usize = 0;
    while i < parent_blocks.len()
        invariant
            info.wf(),
            i <= parent_blocks@.len(),
            forall|k: int|
                0 <= k < parent_blocks@.len() ==> in_window(
                    info.rom@.len(),
                    info.rom_info.big_rom,
                    (#[trigger] parent_blocks@[k]).0,
                    parent_blocks@[k].1 as nat,
                ),
            result@ == code_of_cuts(info.rom@, info.rom_info, info.tags@, parent_blocks@.take(i as int)),
            forall|k: int|
                0 <= k < result@.len() ==> in_window(
                    info.rom@.len(),
                    info.rom_info.big_rom,
                    (#[trigger] result@[k]).0,
                    result@[k].1 as nat,
                ),
            forall|k: int|
                0 <= k < result@.len() ==> clean_walk(
                    (#[trigger] result@[k]).0,
                    slice_bytes(info.rom@, info.rom_info.big_rom, result@[k].0, result@[k].1 as nat),
                ),
        decreases parent_blocks@.len() - i,
    {
        let (xstart, max_len) = parent_blocks[i];
        proof {
            assert(parent_blocks@.take(i as int + 1).drop_last() =~= parent_blocks@.take(i as int));
        }
        let mut found = code_in_cut(info, xstart, max_len);
        let ghost prev = result@;
        let ghost added = found@;
        result.append(&mut found);
        assert forall|k: int| 0 <= k < result@.len() implies in_window(
            info.rom@.len(),
            info.rom_info.big_rom,
            (#[trigger] result@[k]).0,
            result@[k].1 as nat,
        ) && clean_walk(
            result@[k].0,
            slice_bytes(info.rom@, info.rom_info.big_rom, result@[k].0, result@[k].1 as nat),
        ) by {
            if k >= prev.len() {
                assert(result@[k] == added[k - prev.len()]);
            }
        }
        i = i + 1;
    }
    assert(parent_blocks@.take(parent_blocks@.len() as int) =~= parent_blocks@);
    result
}

// ---- cutting the ROM at the known points ----

/// Number of points placed before `k` in the order of banked addresses.
pub open spec fn points_below(s: Seq<XAddr>, k: int) -> nat
    decreases s.len(),
{
    if s.len() == 0 {
        0
    } else {
        points_below(s.drop_last(), k) + if key_of(s.last()) < k {
            1nat
        } else {
            0nat
        }
    }
}

/// Relies on superslice's `Ext::lower_bound_by_key`, a binary search: on a
/// slice ordered by key, the index of the first entry whose key is not below `k`.
#[verifier::external_body]
fn lower_bound_of(points: &[XAddr], k: u64) -> (r: usize)
    requires
        sorted(points@),
    ensures
        r <= points@.len(),
        forall|i: int| 0 <= i < r ==> key_of(#[trigger] points@[i]) < k,
        forall|i: int| r <= i < points@.len() ==> key_of(#[trigger] points@[i]) >= k,
{
    points.lower_bound_by_key(&k, |p| p.key())
}

proof fn lemma_points_below(s: Seq<XAddr>, k: int, r: int)
    requires
        0 <= r <= s.len(),
        forall|i: int| 0 <= i < r ==> key_of(#[trigger] s[i]) < k,
        forall|i: int| r <= i < s.len() ==> key_of(#[trigger] s[i]) >= k,
    ensures
        points_below(s, k) == r,
    decreases s.len(),
{
    if s.len() > 0 {
        let t = s.drop_last();
        if r == s.len() {
            assert forall|i: int| 0 <= i < r - 1 implies key_of(#[trigger] t[i]) < k by {
                assert(t[i] == s[i]);
            }
            lemma_points_below(t, k, r - 1);
        } else {
            assert forall|i: int| 0 <= i < r implies key_of(#[trigger] t[i]) < k by {
                assert(t[i] == s[i]);
            }
            assert forall|i: int| r <= i < t.len() implies key_of(#[trigger] t[i]) >= k by {
                assert(t[i] == s[i]);
            }
            lemma_points_below(t, k, r);
        }
    }
}

/// The cuts of one bank `[start, start + len)`: each point in it runs to the
/// next point in it, the last one to the end of the bank.
pub open spec fn bank_cuts(points: Seq<XAddr>, start: XAddr, len: nat) -> Seq<(XAddr, usize)> {
    let lo = points_below(points, key_of(start));
    let hi = points_below(points, key_of(start) + len);
    Seq::new(
        (hi - lo) as nat,
        |j: int|
            {
                let p = points[lo + j];
                (
                    p,
                    (if lo + j + 1 == hi {
                        len - (p.addr - start.addr)
                    } else {
                        points[lo + j + 1].addr - p.addr
                    }) as usize,
                )
            },
    )
}

/// The cuts of the first `n` banks.
pub open spec fn all_cuts(rom_len: nat, big_rom: bool, points: Seq<XAddr>, n: nat) -> Seq<
    (XAddr, usize),
>
    decreases n,
{
    if n == 0 {
        Seq::empty()
    } else {
        let (start, len) = bank_block(rom_len, big_rom, (n - 1) as nat);
        all_cuts(rom_len, big_rom, points, (n - 1) as nat) + bank_cuts(points, start, len as nat)
    }
}

/// A point whose position falls in `[key_of(s), key_of(s) + len)` lies in
/// the bank of `s`, within `len` bytes of it.
proof fn lemma_in_range_same_bank(p: XAddr, s: XAddr, len: nat)
    requires
        key_of(s) <= key_of(p) < key_of(s) + len,
        s.addr + len <= 0x10000,
    ensures
        p.bank == s.bank,
        s.addr <= p.addr < s.addr + len,
{
}

fn cut_blocks(info: &AnalInfo, points: &[XAddr]) -> (r: Vec<(XAddr, usize)>)
    requires
        info.wf(),
        sorted(points@),
    ensures
        r@ == all_cuts(
            info.rom@.len(),
            info.rom_info.big_rom,
            points@,
            bank_count(info.rom@.len(), info.rom_info.big_rom),
        ),
        forall|k: int|
            0 <= k < r@.len() ==> in_window(
                info.rom@.len(),
                info.rom_info.big_rom,
                (#[trigger] r@[k]).0,
                r@[k].1 as nat,
            ),
{
    let ghost rom_len = info.rom@.len();
    let ghost big = info.rom_info.big_rom;
    let n_banks = info.rom_bank_count();
    let mut result: Vec<(XAddr, usize)> = Vec::new();
    let mut i: usize = 0;
    while i < n_banks
        invariant
            info.wf(),
            rom_len == info.rom@.len(),
            big == info.rom_info.big_rom,
            sorted(points@),
            n_banks == bank_count(rom_len, big),
            i <= n_banks,
            result@ == all_cuts(rom_len, big, points@, i as nat),
            forall|k: int|
                0 <= k < result@.len() ==> in_window(
                    rom_len,
                    big,
                    (#[trigger] result@[k]).0,
                    result@[k].1 as nat,
                ),
        decreases n_banks - i,
    {
        let (bank_xa, bank_len) = info.rom_bank_block(i);
        let point_beg = lower_bound_of(points, bank_xa.key());
        let point_end = lower_bound_of(points, bank_xa.key() + bank_len as u64);
        let ghost cuts = bank_cuts(points@, bank_xa, bank_len as nat);
        let ghost before = result@;
        proof {
            lemma_points_below(points@, key_of(bank_xa), point_beg as int);
            lemma_points_below(points@, key_of(bank_xa) + bank_len, point_end as int);
            if point_end < point_beg {
                assert(key_of(points@[point_end as int]) >= key_of(bank_xa) + bank_len);
            }
        }
        let mut j: usize = point_beg;
        while j < point_end
            invariant
                info.wf(),
                rom_len == info.rom@.len(),
                big == info.rom_info.big_rom,
                sorted(points@),
                i < n_banks,
                n_banks == bank_count(rom_len, big),
                (bank_xa, bank_len) == bank_block(rom_len, big, i as nat),
                point_beg <= j <= point_end <= points@.len(),
                point_beg == points_below(points@, key_of(bank_xa)),
                point_end == points_below(points@, key_of(bank_xa) + bank_len),
                forall|k: int| point_beg <= k < point_end ==> key_of(bank_xa) <= key_of(#[trigger] points@[k]) < key_of(bank_xa) + bank_len,
                cuts == bank_cuts(points@, bank_xa, bank_len as nat),
                result@ == before + cuts.take(j - point_beg),
                forall|k: int|
                    0 <= k < result@.len() ==> in_window(
                        rom_len,
                        big,
                        (#[trigger] result@[k]).0,
                        result@[k].1 as nat,
                    ),
            decreases point_end - j,
        {
            let xa = points[j];
            proof {
                lemma_in_range_same_bank(xa, bank_xa, bank_len as nat);
            }
            let len = if j + 1 == point_end {
                bank_len - (xa.addr - bank_xa.addr) as usize
            } else {
                proof {
                    lemma_in_range_same_bank(points@[j + 1], bank_xa, bank_len as nat);
                }
                (points[j + 1].addr - xa.addr) as usize
            };
            assert(cuts[j - point_beg] == (xa, len));
            result.push((xa, len));
            assert(cuts.take(j + 1 - point_beg) =~= cuts.take(j - point_beg).push((xa, len)));
            j = j + 1;
        }
        assert(cuts.take(point_end - point_beg) =~= cuts);
        i = i + 1;
    }
    result
}

// ---- cross-references ----

/// The jump target harvested from `ins` at `xa`, if it is followed and resolves.
pub open spec fn ins_xrefs(
    tags: Seq<(XAddr, Tag)>,
    ri: RomInfo,
    xa: XAddr,
    ins: crate::gbasm::Instruction,
    regs: BankRegs,
) -> Set<XAddr> {
    if tagged_dont_follow(tags, xa) {
        Set::empty()
    } else {
        match jump_target(ins) {
            Some(a) => match expand(ri, regs, a) {
                Some(t) => Set::empty().insert(t),
                None => Set::empty(),
            },
            None => Set::empty(),
        }
    }
}

/// The jump targets harvested along a walk.
pub open spec fn walk_xrefs(
    tags: Seq<(XAddr, Tag)>,
    ri: RomInfo,
    xa: XAddr,
    rest: Seq<u8>,
    regs: BankRegs,
) -> Set<XAddr>
    decreases rest.len(),
{
    if rest.len() == 0 {
        Set::empty()
    } else {
        let regs2 = banks_at(tags, xa, regs);
        match decode_spec(xa.addr, rest) {
            Err(_) => Set::empty(),
            Ok(ins) => ins_xrefs(tags, ri, xa, ins, regs2).union(
                walk_xrefs(
                    tags,
                    ri,
                    xadd(xa, ins_len(ins) as int),
                    rest.skip(ins_len(ins) as int),
                    regs2,
                ),
            ),
        }
    }
}

/// The jump targets harvested from all the blocks.
pub open spec fn blocks_xrefs(
    rom: Seq<u8>,
    ri: RomInfo,
    tags: Seq<(XAddr, Tag)>,
    blocks: Seq<(XAddr, usize)>,
) -> Set<XAddr>
    decreases blocks.len(),
{
    if blocks.len() == 0 {
        Set::empty()
    } else {
        let (xa, len) = blocks.last();
        blocks_xrefs(rom, ri, tags, blocks.drop_last()).union(
            walk_xrefs(tags, ri, xa, slice_bytes(rom, ri.big_rom, xa, len as nat), initial_regs(xa)),
        )
    }
}

/// Adds `x` to a strictly ascending list unless it is there already.
fn insert_point(v: &mut Vec<XAddr>, x: XAddr)
    requires
        strictly_sorted(old(v)@),
    ensures
        strictly_sorted(final(v)@),
        forall|y: XAddr| final(v)@.contains(y) <==> (old(v)@.contains(y) || y == x),
{
    let ghost s0 = v@;
    proof {
        assert(s0 == old(v)@);
        assert(sorted(v@));
    }
    let i = lower_bound_of(v.as_slice(), x.key());
    if i < v.len() && v[i] == x {
        assert forall|y: XAddr| #[trigger] v@.contains(y) <==> (s0.contains(y) || y == x) by {
            if y == x {
                assert(v@[i as int] == y);
            }
        }
    } else {
        let ghost s = v@;
        proof {
            if i < s.len() {
                crate::xaddr::lemma_key_injective(s[i as int], x);
            }
        }
        v.insert(i, x);
        proof {
            assert(v@ == s.insert(i as int, x));
            assert(s == s0);
            assert forall|y: XAddr| #[trigger] v@.contains(y) <==> (s0.contains(y) || y == x) by {
                if s.contains(y) {
                    let k = choose|k: int| 0 <= k < s.len() && s[k] == y;
                    if k < i {
                        assert(v@[k] == y);
                    } else {
                        assert(v@[k + 1] == y);
                    }
                }
                assert(v@[i as int] == x);
                if v@.contains(y) {
                    let k = choose|k: int| 0 <= k < v@.len() && v@[k] == y;
                    if k < i {
                        assert(s[k] == y);
                    } else if k > i {
                        assert(s[k - 1] == y);
                    }
                }
            }
            assert forall|a: int, b: int| 0 <= a < b < v@.len() implies key_of(v@[a]) < key_of(
                v@[b],
            ) by {
                if b < i {
                } else if b == i {
                } else if a < i {
                    assert(key_of(s[a]) < key_of(x));
                    assert(key_of(x) <= key_of(s[b - 1]));
                } else if a == i {
                    assert(key_of(x) < key_of(s[i as int]));
                    if b - 1 > i {
                        assert(key_of(s[i as int]) < key_of(s[b - 1]));
                    }
                } else {
                    assert(key_of(s[a - 1]) < key_of(s[b - 1]));
                }
            }
        }
    }
}

fn walk_block_xrefs(info: &AnalInfo, xa: XAddr, len: usize, result: &mut Vec<XAddr>)
    requires
        info.wf(),
        in_window(info.rom@.len(), info.rom_info.big_rom, xa, len as nat),
        strictly_sorted(old(result)@),
    ensures
        strictly_sorted(final(result)@),
        forall|y: XAddr|
            final(result)@.contains(y) <==> (old(result)@.contains(y) || walk_xrefs(
                info.tags@,
                info.rom_info,
                xa,
                slice_bytes(info.rom@, info.rom_info.big_rom, xa, len as nat),
                initial_regs(xa),
            ).contains(y)),
{
    let ghost whole = walk_xrefs(
        info.tags@,
        info.rom_info,
        xa,
        slice_bytes(info.rom@, info.rom_info.big_rom, xa, len as nat),
        initial_regs(xa),
    );
    let ghost before = result@;
    proof {
        lemma_window_slice(info.rom@.len(), info.rom_info.big_rom, xa, len as nat);
    }
    let mut emu = AnalEmu::with_bound(info, xa, len);
    loop
        invariant
            info.wf(),
            emu.wf(),
            emu.info() == *info,
            strictly_sorted(result@),
            forall|y: XAddr|
                (result@.contains(y) || walk_xrefs(
                    info.tags@,
                    info.rom_info,
                    emu.cur(),
                    emu.rest(),
                    emu.regs(),
                ).contains(y)) <==> (before.contains(y) || whole.contains(y)),
            forall|y: XAddr| #[trigger] result@.contains(y) ==> (before.contains(y) || whole.contains(y)),
            forall|y: XAddr| before.contains(y) ==> #[trigger] result@.contains(y),
        ensures
            strictly_sorted(result@),
            forall|y: XAddr| result@.contains(y) <==> (before.contains(y) || whole.contains(y)),
        decreases emu.rest().len(),
    {
        let ghost cur = emu.cur();
        let ghost rest = emu.rest();
        let ghost regs = emu.regs();
        proof {
            crate::gbasm::lemma_decoded_fits(cur.addr, rest);
        }
        match emu.next() {
            Some((ins_xa, Ok(ins))) => {
                if !is_dont_follow_at(info.tags, ins_xa) {
                    if let Some(addr) = ins.get_jump_target() {
                        if let Some(t) = emu.expand_addr(addr) {
                            insert_point(result, t);
                        }
                    }
                }
            },
            _ => {
                assert(walk_xrefs(info.tags@, info.rom_info, cur, rest, regs) =~= Set::<XAddr>::empty());
                break;
            },
        }
    }
}

fn scan_xrefs(info: &AnalInfo, code_blocks: &[(XAddr, usize)]) -> (r: Vec<XAddr>)
    requires
        info.wf(),
        forall|k: int|
            0 <= k < code_blocks@.len() ==> in_window(
                info.rom@.len(),
                info.rom_info.big_rom,
                (#[trigger] code_blocks@[k]).0,
                code_blocks@[k].1 as nat,
            ),
    ensures
        strictly_sorted(r@),
        forall|y: XAddr|
            r@.contains(y) <==> blocks_xrefs(info.rom@, info.rom_info, info.tags@, code_blocks@).contains(y),
{
    let mut result: Vec<XAddr> = Vec::new();
    let mut i: usize = 0;
    while i < code_blocks.len()
        invariant
            info.wf(),
            i <= code_blocks@.len(),
            forall|k: int|
                0 <= k < code_blocks@.len() ==> in_window(
                    info.rom@.len(),
                    info.rom_info.big_rom,
                    (#[trigger] code_blocks@[k]).0,
                    code_blocks@[k].1 as nat,
                ),
            strictly_sorted(result@),
            forall|y: XAddr|
                result@.contains(y) <==> blocks_xrefs(info.rom@, info.rom_info, info.tags@, code_blocks@.take(i as int)).contains(y),
        decreases code_blocks@.len() - i,
    {
        let (xa, len) = code_blocks[i];
        proof {
            assert(code_blocks@.take(i as int + 1).drop_last() =~= code_blocks@.take(i as int));
        }
        walk_block_xrefs(info, xa, len, &mut result);
        i = i + 1;
    }
    assert(code_blocks@.take(code_blocks@.len() as int) =~= code_blocks@);
    result
}

// ---- the discovery fixpoint ----

/// Upper bound on the number of analysis cycles.
pub const MAX_CYCLES: u64 = 0xFFFF_FFFF_FFFF_FFFF;

/// The elements of `s` in strictly ascending order.
pub open spec fn ordered(s: Set<XAddr>) -> Seq<XAddr> {
    choose|q: Seq<XAddr>| strictly_sorted(q) && forall|y: XAddr| q.contains(y) <==> s.contains(y)
}

/// A strictly ascending sequence is determined by its elements.
pub proof fn lemma_sorted_unique(a: Seq<XAddr>, b: Seq<XAddr>)
    requires
        strictly_sorted(a),
        strictly_sorted(b),
        forall|y: XAddr| a.contains(y) <==> b.contains(y),
    ensures
        a == b,
    decreases a.len(),
{
    if a.len() == 0 {
        if b.len() > 0 {
            assert(b.contains(b[0]));
        }
        assert(b =~= a);
    } else {
        assert(a.contains(a[0]));
        assert(b.contains(a[0]));
        assert(b.len() > 0);
        assert(b.contains(b[0]));
        assert(a.contains(b[0]));
        let j = choose|j: int| 0 <= j < b.len() && b[j] == a[0];
        let k = choose|k: int| 0 <= k < a.len() && a[k] == b[0];
        assert(key_of(a[0]) <= key_of(a[k]));
        assert(key_of(b[0]) <= key_of(b[j]));
        crate::xaddr::lemma_key_injective(a[0], b[0]);
        let a1 = a.skip(1);
        let b1 = b.skip(1);
        assert forall|y: XAddr| a1.contains(y) <==> b1.contains(y) by {
            if a1.contains(y) {
                let i = choose|i: int| 0 <= i < a1.len() && a1[i] == y;
                assert(a[i + 1] == y);
                assert(b.contains(y));
                let m = choose|m: int| 0 <= m < b.len() && b[m] == y;
                assert(key_of(a[0]) < key_of(y));
                assert(m != 0);
                assert(b1[m - 1] == y);
            }
            if b1.contains(y) {
                let i = choose|i: int| 0 <= i < b1.len() && b1[i] == y;
                assert(b[i + 1] == y);
                assert(a.contains(y));
                let m = choose|m: int| 0 <= m < a.len() && a[m] == y;
                assert(key_of(b[0]) < key_of(y));
                assert(m != 0);
                assert(a1[m - 1] == y);
            }
        }
        lemma_sorted_unique(a1, b1);
        assert(a =~= seq![a[0]] + a1);
        assert(b =~= seq![b[0]] + b1);
    }
}

/// The code blocks of one analysis cycle over `points`.
pub open spec fn cycle_blocks(
    rom: Seq<u8>,
    ri: RomInfo,
    tags: Seq<(XAddr, Tag)>,
    points: Seq<XAddr>,
) -> Seq<(XAddr, usize)> {
    code_of_cuts(
        rom,
        ri,
        tags,
        all_cuts(rom.len(), ri.big_rom, points, bank_count(rom.len(), ri.big_rom)),
    )
}

/// The points of the next cycle: the entry points merged with the xrefs of
/// this cycle's blocks, without duplicates.
pub open spec fn cycle_points(
    rom: Seq<u8>,
    ri: RomInfo,
    tags: Seq<(XAddr, Tag)>,
    entry: Seq<XAddr>,
    points: Seq<XAddr>,
) -> Seq<XAddr> {
    crate::util::deduped(
        crate::util::merged(
            entry,
            ordered(blocks_xrefs(rom, ri, tags, cycle_blocks(rom, ri, tags, points))),
        ),
    )
}

/// Cycles from `points` until the points repeat or shrink, or `fuel` runs out;
/// the blocks of the last cycle.
pub open spec fn discover(
    rom: Seq<u8>,
    ri: RomInfo,
    tags: Seq<(XAddr, Tag)>,
    entry: Seq<XAddr>,
    points: Seq<XAddr>,
    fuel: nat,
) -> Seq<(XAddr, usize)>
    decreases fuel,
{
    let next = cycle_points(rom, ri, tags, entry, points);
    if next == points || next.len() < points.len() || fuel == 0 {
        cycle_blocks(rom, ri, tags, points)
    } else {
        discover(rom, ri, tags, entry, next, (fuel - 1) as nat)
    }
}

/// The code blocks that discovery finds from the entry points.
pub open spec fn discovery(
    rom: Seq<u8>,
    ri: RomInfo,
    tags: Seq<(XAddr, Tag)>,
    entry: Seq<XAddr>,
) -> Seq<(XAddr, usize)> {
    discover(rom, ri, tags, entry, crate::util::deduped(entry), MAX_CYCLES as nat)
}

fn same_points(a: &[XAddr], b: &[XAddr]) -> (r: bool)
    ensures
        r == (a@ == b@),
{
    if a.len() != b.len() {
        return false;
    }
    let mut i: usize = 0;
    while i < a.len()
        invariant
            a@.len() == b@.len(),
            i <= a@.len(),
            forall|k: int| 0 <= k < i ==> a@[k] == b@[k],
        decreases a@.len() - i,
    {
        if a[i] != b[i] {
            return false;
        }
        i = i + 1;
    }
    assert(a@ =~= b@);
    true
}

/// Finds the code blocks reachable from the sorted entry points: cuts the
/// banks at the known points, scans the cuts for code, harvests the jump
/// targets, and repeats with the new points until they stop changing.
pub fn anal(info: &AnalInfo, entry_points: &[XAddr]) -> (r: Vec<(XAddr, usize)>)
    requires
        info.wf(),
        sorted(entry_points@),
    ensures
        r@ == discovery(info.rom@, info.rom_info, info.tags@, entry_points@),
        forall|k: int|
            0 <= k < r@.len() ==> in_window(
                info.rom@.len(),
                info.rom_info.big_rom,
                (#[trigger] r@[k]).0,
                r@[k].1 as nat,
            ),
        forall|k: int|
            0 <= k < r@.len() ==> clean_walk(
                (#[trigger] r@[k]).0,
                slice_bytes(info.rom@, info.rom_info.big_rom, r@[k].0, r@[k].1 as nat),
            ),
{
    let ghost rom = info.rom@;
    let ghost ri = info.rom_info;
    let ghost tags = info.tags@;
    let ghost entry = entry_points@;
    let mut points = crate::util::dedup(entry_points);
    proof {
        crate::util::lemma_deduped_sorted(entry);
    }
    let mut fuel: u64 = MAX_CYCLES;
    loop
        invariant
            info.wf(),
            rom == info.rom@,
            ri == info.rom_info,
            tags == info.tags@,
            entry == entry_points@,
            sorted(entry),
            sorted(points@),
            discover(rom, ri, tags, entry, points@, fuel as nat) == discovery(rom, ri, tags, entry),
        decreases fuel,
    {
        let cuts = cut_blocks(info, points.as_slice());
        let code_blocks = search_for_code(info, cuts.as_slice());
        let code_xrefs = scan_xrefs(info, code_blocks.as_slice());
        proof {
            let s = blocks_xrefs(rom, ri, tags, code_blocks@);
            assert(strictly_sorted(code_xrefs@) && forall|y: XAddr|
                code_xrefs@.contains(y) <==> s.contains(y));
            let q = ordered(s);
            lemma_sorted_unique(q, code_xrefs@);
            assert(sorted(code_xrefs@));
            crate::util::lemma_merge_sorted(entry, code_xrefs@);
            crate::util::lemma_deduped_sorted(crate::util::merged(entry, code_xrefs@));
        }
        let all_points = crate::util::sorted_merge(entry_points, code_xrefs.as_slice());
        let new_points = crate::util::dedup(all_points.as_slice());
        if same_points(new_points.as_slice(), points.as_slice()) || new_points.len() < points.len()
            || fuel == 0 {
            return code_blocks;
        }
        points = new_points;
        fuel = fuel - 1;
    }
}

// ---- entry points ----

/// The entries of a jump table of `n` little-endian pointers at `xa`. A
/// pointer into the switched window keeps the table's bank.
pub open spec fn table_entries(rom: Seq<u8>, big_rom: bool, xa: XAddr, n: nat) -> Result<
    Seq<XAddr>,
    RomSliceError,
> {
    if n > 0x4000 {
        Err(RomSliceError::BankTooHigh)
    } else {
        match slice_range(rom.len(), big_rom, xa, 2 * n) {
            Err(e) => Err(e),
            Ok((a, b)) => if b - a < 2 * n {
                Err(RomSliceError::BankTooHigh)
            } else {
                Ok(
                    Seq::new(
                        n,
                        |i: int|
                            {
                                let addr = (rom[a + 2 * i] as int + rom[a + 2 * i + 1] as int
                                    * 0x100) as u16;
                                if addr >= 0x4000 {
                                    XAddr { bank: xa.bank, addr }
                                } else {
                                    XAddr { bank: 0, addr }
                                }
                            },
                    ),
                )
            },
        }
    }
}

/// The seeds that the tags give, in tag order: each `Code` tag's address and
/// the entries of each jump table.
pub open spec fn seeds(rom: Seq<u8>, big_rom: bool, tags: Seq<(XAddr, Tag)>) -> Result<
    Seq<XAddr>,
    RomSliceError,
>
    decreases tags.len(),
{
    if tags.len() == 0 {
        Ok(Seq::empty())
    } else {
        match seeds(rom, big_rom, tags.drop_last()) {
            Err(e) => Err(e),
            Ok(acc) => match tags.last().1 {
                Tag::Code => Ok(acc.push(tags.last().0)),
                Tag::JumpTable(n) => match table_entries(rom, big_rom, tags.last().0, n as nat) {
                    Err(e) => Err(e),
                    Ok(es) => Ok(acc + es),
                },
                _ => Ok(acc),
            },
        }
    }
}

/// `s` sorted by inserting each element after those not above it.
pub open spec fn sort_points(s: Seq<XAddr>) -> Seq<XAddr>
    decreases s.len(),
{
    if s.len() == 0 {
        s
    } else {
        let acc = sort_points(s.drop_last());
        acc.insert(points_below(acc, key_of(s.last()) + 1) as int, s.last())
    }
}

fn insert_sorted(v: &mut Vec<XAddr>, x: XAddr)
    requires
        sorted(old(v)@),
    ensures
        sorted(final(v)@),
        final(v)@ == old(v)@.insert(points_below(old(v)@, key_of(x) + 1) as int, x),
{
    let i = lower_bound_of(v.as_slice(), x.key() + 1);
    let ghost s = v@;
    proof {
        lemma_points_below(s, key_of(x) + 1, i as int);
    }
    v.insert(i, x);
    assert forall|a: int, b: int| 0 <= a < b < v@.len() implies key_of(v@[a]) <= key_of(v@[b]) by {
        if b < i {
        } else if b == i {
        } else if a < i {
            assert(key_of(s[a]) <= key_of(s[b - 1]));
        } else if a == i {
            assert(key_of(x) < key_of(s[b - 1]) || key_of(x) + 1 <= key_of(s[b - 1]));
        } else {
            assert(key_of(s[a - 1]) <= key_of(s[b - 1]));
        }
    }
}

fn read_table(info: &AnalInfo, xa: XAddr, n: usize, out: &mut Vec<XAddr>) -> (r: Result<
    (),
    RomSliceError,
>)
    requires
        info.wf(),
    ensures
        match table_entries(info.rom@, info.rom_info.big_rom, xa, n as nat) {
            Ok(es) => r is Ok && final(out)@ == old(out)@ + es,
            Err(e) => r is Err && r->Err_0 == e,
        },
{
    if n > 0x4000 {
        return Err(RomSliceError::BankTooHigh);
    }
    let bytes = match info.rom_slice(xa, n * 2) {
        Ok(bytes) => bytes,
        Err(e) => {
            return Err(e);
        },
    };
    if bytes.len() < n * 2 {
        return Err(RomSliceError::BankTooHigh);
    }
    let ghost start = out@;
    let ghost es = table_entries(info.rom@, info.rom_info.big_rom, xa, n as nat)->Ok_0;
    let ghost (a, b) = slice_range(info.rom@.len(), info.rom_info.big_rom, xa, 2 * n as nat)->Ok_0;
    proof {
        lemma_rom_slice_length(info.rom@.len(), info.rom_info.big_rom, xa, 2 * n as nat);
    }
    let mut i: usize = 0;
    while i < n
        invariant
            i <= n <= 0x4000,
            bytes@.len() >= 2 * n,
            0 <= a <= b <= info.rom@.len(),
            slice_range(info.rom@.len(), info.rom_info.big_rom, xa, 2 * n as nat) == Ok::<
                (int, int),
                RomSliceError,
            >((a, b)),
            bytes@ == info.rom@.subrange(a, b),
            es == table_entries(info.rom@, info.rom_info.big_rom, xa, n as nat)->Ok_0,
            es.len() == n,
            out@ == start + es.take(i as int),
        decreases n - i,
    {
        let lo = bytes[i * 2] as u16;
        let hi = bytes[i * 2 + 1] as u16;
        let addr = lo + hi * 0x100;
        let entry = if addr >= 0x4000 {
            XAddr::new(xa.bank, addr)
        } else {
            XAddr::new(0, addr)
        };
        assert(bytes@[i * 2] == info.rom@[a + 2 * i]);
        assert(bytes@[i * 2 + 1] == info.rom@[a + 2 * i + 1]);
        assert(es[i as int] == entry);
        out.push(entry);
        assert(es.take(i as int + 1) =~= es.take(i as int).push(entry));
        i = i + 1;
    }
    assert(es.take(n as int) =~= es);
    Ok(())
}

/// The entry points that the tags seed, ascending: `Code` tags and the
/// entries of jump tables. Fails when a jump table cannot be read whole.
pub fn entry_points(info: &AnalInfo) -> (r: Result<Vec<XAddr>, RomSliceError>)
    requires
        info.wf(),
    ensures
        match seeds(info.rom@, info.rom_info.big_rom, info.tags@) {
            Ok(s) => r is Ok && r->Ok_0@ == sort_points(s) && sorted(r->Ok_0@),
            Err(e) => r is Err && r->Err_0 == e,
        },
{
    let ghost rom = info.rom@;
    let ghost big = info.rom_info.big_rom;
    let mut found: Vec<XAddr> = Vec::new();
    let mut i: usize = 0;
    while i < info.tags.len()
        invariant
            info.wf(),
            rom == info.rom@,
            big == info.rom_info.big_rom,
            i <= info.tags@.len(),
            seeds(rom, big, info.tags@.take(i as int)) == Ok::<Seq<XAddr>, RomSliceError>(found@),
        decreases info.tags@.len() - i,
    {
        proof {
            assert(info.tags@.take(i as int + 1).drop_last() =~= info.tags@.take(i as int));
        }
        let xa = info.tags[i].0;
        match &info.tags[i].1 {
            Tag::Code => {
                found.push(xa);
            },
            Tag::JumpTable(n) => {
                if let Err(e) = read_table(info, xa, *n, &mut found) {
                    proof {
                        lemma_seeds_err(rom, big, info.tags@, i as int + 1);
                    }
                    return Err(e);
                }
            },
            _ => {},
        }
        i = i + 1;
    }
    assert(info.tags@.take(i as int) =~= info.tags@);
    let mut result: Vec<XAddr> = Vec::new();
    let mut j: usize = 0;
    assert(found@.take(0) =~= Seq::<XAddr>::empty());
    while j < found.len()
        invariant
            j <= found@.len(),
            result@ == sort_points(found@.take(j as int)),
            sorted(result@),
        decreases found@.len() - j,
    {
        assert(found@.take(j as int + 1).drop_last() =~= found@.take(j as int));
        insert_sorted(&mut result, found[j]);
        j = j + 1;
    }
    assert(found@.take(j as int) =~= found@);
    Ok(result)
}

proof fn lemma_seeds_err(rom: Seq<u8>, big: bool, tags: Seq<(XAddr, Tag)>, j: int)
    requires
        0 <= j <= tags.len(),
        seeds(rom, big, tags.take(j)) is Err,
    ensures
        seeds(rom, big, tags) == seeds(rom, big, tags.take(j)),
    decreases tags.len(),
{
    if tags.len() == j {
        assert(tags.take(j) =~= tags);
    } else {
        assert(tags.drop_last().take(j) =~= tags.take(j));
        lemma_seeds_err(rom, big, tags.drop_last(), j);
    }
}

/// At a fixpoint of the point set, discovery returns the blocks of that
/// point set however many cycles remain: running it again changes nothing.
pub proof fn lemma_fixpoint_stable(
    rom: Seq<u8>,
    ri: RomInfo,
    tags: Seq<(XAddr, Tag)>,
    entry: Seq<XAddr>,
    points: Seq<XAddr>,
    fuel: nat,
)
    requires
        cycle_points(rom, ri, tags, entry, points) == points,
    ensures
        discover(rom, ri, tags, entry, points, fuel) == cycle_blocks(rom, ri, tags, points),
{
}

/// Walking never leaves the bank it started in: only the low half of the
/// address advances, wrapping within 16 bits.
pub proof fn lemma_walk_keeps_bank(xa: XAddr, rest: Seq<u8>)
    ensures
        after_item(xa, rest).0.bank == xa.bank,
        rest.len() > 0 && decode_spec(xa.addr, rest) is Ok ==> after_item(xa, rest).0.addr == (xa.addr
            + ins_len(decode_spec(xa.addr, rest)->Ok_0)) % 0x10000,
{
}

} // verus!
