use bub::anal::{apply_bank_tags, AnalEmu, AnalInfo, BankRegs, RomInfo, RomSliceError};
use bub::tags::{get_tags_at, Tag};
use bub::xaddr::XAddr;

fn info_of<'a>(big_rom: bool, cgb_ram: bool, rom: &'a [u8], tags: &'a [(XAddr, Tag)]) -> AnalInfo<'a> {
    AnalInfo::new(RomInfo { big_rom, cgb_ram, sram_count: 0 }, rom, tags)
}

fn numbered(len: usize) -> Vec<u8> {
    (0..len).map(|i| (i / 0x4000) as u8).collect()
}

#[test]
fn big_rom_boundaries() {
    let rom = numbered(0x10000);
    let info = info_of(true, false, &rom, &[]);
    let s = info.rom_slice(XAddr::new(0, 0x3FFF), 10).unwrap();
    assert_eq!(s.len(), 1);
    assert_eq!(info.rom_slice(XAddr::new(0, 0x4000), 1), Err(RomSliceError::NonBankedHiRomAddr));
    assert_eq!(info.rom_slice(XAddr::new(1, 0x3FFF), 1), Err(RomSliceError::BankedRomAddr));
    let s = info.rom_slice(XAddr::new(2, 0x4000), 4).unwrap();
    assert_eq!(s, &[2, 2, 2, 2]);
    let s = info.rom_slice(XAddr::new(3, 0x7FFF), 100).unwrap();
    assert_eq!(s, &[3]);
    assert_eq!(info.rom_slice(XAddr::new(1, 0x8000), 1), Err(RomSliceError::NonRomAddr));
    assert_eq!(info.rom_slice(XAddr::new(4, 0x4000), 1), Err(RomSliceError::BankTooHigh));
}

#[test]
fn small_rom_boundaries() {
    let rom = numbered(0x8000);
    let info = info_of(false, false, &rom, &[]);
    assert_eq!(info.rom_slice(XAddr::new(0, 0x3FFF), 3).unwrap(), &[0, 1, 1]);
    assert_eq!(info.rom_slice(XAddr::new(0, 0x4000), 2).unwrap(), &[1, 1]);
    assert_eq!(info.rom_slice(XAddr::new(0, 0x7FFF), 5).unwrap().len(), 1);
    assert_eq!(info.rom_slice(XAddr::new(1, 0x4000), 1), Err(RomSliceError::BankedRomAddr));
    assert_eq!(info.rom_slice(XAddr::new(0, 0x8000), 1), Err(RomSliceError::NonRomAddr));
    assert_eq!(info.rom_slice(XAddr::new(0, 0xC000), 1), Err(RomSliceError::NonRomAddr));
}

#[test]
fn small_rom_high_window_past_end() {
    let rom = numbered(0x4000);
    let info = info_of(false, false, &rom, &[]);
    assert_eq!(info.rom_slice(XAddr::new(0, 0x5000), 1), Err(RomSliceError::BankTooHigh));
}

#[test]
fn bank_blocks() {
    let rom = numbered(0x10000);
    let info = info_of(true, false, &rom, &[]);
    assert_eq!(info.rom_bank_count(), 4);
    assert_eq!(info.rom_bank_block(0), (XAddr::new(0, 0), 0x4000));
    assert_eq!(info.rom_bank_block(3), (XAddr::new(3, 0x4000), 0x4000));
    assert_eq!(info.rom_bank_blocks().len(), 4);
    let rom = numbered(0x8000);
    let info = info_of(false, false, &rom, &[]);
    assert_eq!(info.rom_bank_count(), 1);
    assert_eq!(info.rom_bank_blocks(), vec![(XAddr::new(0, 0), 0x8000)]);
}

#[test]
fn tags_at_an_address() {
    let tags = vec![
        (XAddr::new(0, 0x10), Tag::Code),
        (XAddr::new(0, 0x20), Tag::NoReturn),
        (XAddr::new(0, 0x20), Tag::RomBank(3)),
        (XAddr::new(1, 0x20), Tag::OperandAddr),
    ];
    let at = get_tags_at(&tags, &XAddr::new(0, 0x20));
    assert_eq!(at.len(), 2);
    assert!(matches!(at[0].1, Tag::NoReturn));
    assert!(matches!(at[1].1, Tag::RomBank(3)));
    assert_eq!(get_tags_at(&tags, &XAddr::new(1, 0x20)).len(), 1);
    assert!(get_tags_at(&tags, &XAddr::new(0, 0x21)).is_empty());
}

#[test]
fn bank_tags_update_registers_in_order() {
    let tags = vec![
        (XAddr::new(0, 0x20), Tag::RomBank(3)),
        (XAddr::new(0, 0x20), Tag::RomBank(5)),
        (XAddr::new(0, 0x20), Tag::SrmBank(1)),
        (XAddr::new(0, 0x30), Tag::RamBank(2)),
    ];
    let start = BankRegs { romb: None, ramb: None, srmb: None };
    let r = apply_bank_tags(&tags, XAddr::new(0, 0x20), start);
    assert_eq!((r.romb, r.ramb, r.srmb), (Some(5), None, Some(1)));
    let r = apply_bank_tags(&tags, XAddr::new(0, 0x40), start);
    assert_eq!((r.romb, r.ramb, r.srmb), (None, None, None));
}

#[test]
fn expand_addresses_by_region() {
    let rom = numbered(0x10000);
    let tags = vec![
        (XAddr::new(2, 0x4000), Tag::SrmBank(1)),
        (XAddr::new(2, 0x4000), Tag::RamBank(6)),
    ];
    let info = info_of(true, true, &rom, &tags);
    let mut emu = AnalEmu::with_bound(&info, XAddr::new(2, 0x4000), 1);
    assert_eq!(emu.expand_addr(0x4123), Some(XAddr::new(2, 0x4123)));
    assert_eq!(emu.expand_addr(0xA000), None);
    assert_eq!(emu.expand_addr(0xD000), None);
    emu.next();
    assert_eq!(emu.expand_addr(0xA000), Some(XAddr::new(1, 0xA000)));
    assert_eq!(emu.expand_addr(0xD800), Some(XAddr::new(6, 0xD800)));
    assert_eq!(emu.expand_addr(0xC000), Some(XAddr::new(0, 0xC000)));
    assert_eq!(emu.expand_addr(0x0040), Some(XAddr::new(0, 0x0040)));

    let emu = AnalEmu::with_bound(&info, XAddr::new(0, 0x100), 1);
    assert_eq!(emu.expand_addr(0x4123), None);

    let small = numbered(0x8000);
    let info = info_of(false, false, &small, &[]);
    let emu = AnalEmu::new(&info, XAddr::new(0, 0x100));
    assert_eq!(emu.expand_addr(0x4123), Some(XAddr::new(0, 0x4123)));
    assert_eq!(emu.expand_addr(0xD123), Some(XAddr::new(0, 0xD123)));
}
