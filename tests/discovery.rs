use bub::anal::{anal, entry_points, AnalEmu, AnalInfo, RomInfo, RomSliceError};
use bub::tags::Tag;
use bub::xaddr::XAddr;

fn small() -> RomInfo {
    RomInfo { big_rom: false, cgb_ram: false, sram_count: 0 }
}

fn big() -> RomInfo {
    RomInfo { big_rom: true, cgb_ram: false, sram_count: 0 }
}

fn xa(bank: u16, addr: u16) -> XAddr {
    XAddr::new(bank, addr)
}

#[test]
fn minimal_ret() {
    let mut rom = vec![0u8; 0x4000];
    rom[0x100] = 0xC9;
    let tags = vec![(xa(0, 0x100), Tag::Code)];
    let info = AnalInfo::new(small(), &rom, &tags);
    let blocks = anal(&info, &[xa(0, 0x100)]);
    assert_eq!(blocks, vec![(xa(0, 0x100), 1)]);
}

#[test]
fn fall_through_to_jump() {
    let mut rom = vec![0u8; 0x4000];
    rom[0x100..0x104].copy_from_slice(&[0x00, 0x00, 0x18, 0xFE]);
    let tags = vec![(xa(0, 0x100), Tag::Code)];
    let info = AnalInfo::new(small(), &rom, &tags);
    let blocks = anal(&info, &[xa(0, 0x100)]);
    assert_eq!(blocks, vec![(xa(0, 0x100), 2), (xa(0, 0x102), 2)]);
}

fn call_rom() -> Vec<u8> {
    let mut rom = vec![0u8; 0x10000];
    rom[0x100..0x104].copy_from_slice(&[0xCD, 0x00, 0x40, 0xC9]);
    rom[0x8000] = 0xC9;
    rom
}

#[test]
fn call_into_other_bank() {
    let rom = call_rom();
    let tags = vec![(xa(0, 0x100), Tag::Code), (xa(0, 0x100), Tag::RomBank(2))];
    let info = AnalInfo::new(big(), &rom, &tags);
    let blocks = anal(&info, &[xa(0, 0x100)]);
    // the call ends its head block; the `ret` after it is a block of its own
    assert_eq!(blocks, vec![(xa(0, 0x100), 3), (xa(0, 0x103), 1), (xa(2, 0x4000), 1)]);
}

#[test]
fn call_to_noreturn() {
    let rom = call_rom();
    let tags = vec![
        (xa(0, 0x100), Tag::Code),
        (xa(0, 0x100), Tag::RomBank(2)),
        (xa(2, 0x4000), Tag::NoReturn),
    ];
    let info = AnalInfo::new(big(), &rom, &tags);
    let blocks = anal(&info, &[xa(0, 0x100)]);
    assert_eq!(blocks, vec![(xa(0, 0x100), 3), (xa(2, 0x4000), 1)]);
}

#[test]
fn call_without_known_bank_is_not_followed() {
    let rom = call_rom();
    let tags = vec![(xa(0, 0x100), Tag::Code)];
    let info = AnalInfo::new(big(), &rom, &tags);
    let blocks = anal(&info, &[xa(0, 0x100)]);
    assert_eq!(blocks, vec![(xa(0, 0x100), 3), (xa(0, 0x103), 1)]);
}

#[test]
fn dont_follow_call_drops_the_target() {
    let rom = call_rom();
    let tags = vec![
        (xa(0, 0x100), Tag::Code),
        (xa(0, 0x100), Tag::RomBank(2)),
        (xa(0, 0x100), Tag::DontFollowCall),
    ];
    let info = AnalInfo::new(big(), &rom, &tags);
    let blocks = anal(&info, &[xa(0, 0x100)]);
    assert_eq!(blocks, vec![(xa(0, 0x100), 3), (xa(0, 0x103), 1)]);
}

#[test]
fn invalid_opcode_mid_scan() {
    let mut rom = vec![0u8; 0x4000];
    rom[0x100..0x103].copy_from_slice(&[0x00, 0xD3, 0xC9]);
    let tags = vec![(xa(0, 0x100), Tag::Code)];
    let info = AnalInfo::new(small(), &rom, &tags);
    let blocks = anal(&info, &[xa(0, 0x100)]);
    assert!(blocks.is_empty());
}

#[test]
fn jump_table_seeds() {
    let mut rom = vec![0u8; 0x4000];
    rom[0x500..0x504].copy_from_slice(&[0x00, 0x05, 0x10, 0x05]);
    let tags = vec![(xa(0, 0x500), Tag::JumpTable(2))];
    let info = AnalInfo::new(small(), &rom, &tags);
    let seeds = entry_points(&info).unwrap();
    assert_eq!(seeds, vec![xa(0, 0x500), xa(0, 0x510)]);
    let blocks = anal(&info, &seeds);
    assert_eq!(blocks, vec![(xa(0, 0x500), 0x10), (xa(0, 0x510), 0x4000 - 0x510)]);
}

#[test]
fn jump_table_pointer_keeps_bank_in_switched_window() {
    let mut rom = vec![0u8; 0x10000];
    rom[0x4000 * 3 + 0x10..0x4000 * 3 + 0x14].copy_from_slice(&[0x34, 0x12, 0x00, 0x50]);
    let tags = vec![(xa(3, 0x4010), Tag::JumpTable(2)), (xa(3, 0x6000), Tag::Code)];
    let info = AnalInfo::new(big(), &rom, &tags);
    let seeds = entry_points(&info).unwrap();
    assert_eq!(seeds, vec![xa(0, 0x1234), xa(3, 0x5000), xa(3, 0x6000)]);
}

#[test]
fn jump_table_past_bank_end_fails() {
    let rom = vec![0u8; 0x4000];
    let tags = vec![(xa(0, 0x3FFF), Tag::JumpTable(1))];
    let info = AnalInfo::new(small(), &rom, &tags);
    assert_eq!(entry_points(&info), Err(RomSliceError::BankTooHigh));
}

#[test]
fn entry_points_are_sorted_with_duplicates() {
    let rom = vec![0u8; 0x8000];
    let tags = vec![
        (xa(0, 0x10), Tag::Code),
        (xa(0, 0x10), Tag::Code),
        (xa(0, 0x4000), Tag::Code),
        (xa(0, 0x200), Tag::Name(String::from("x"))),
    ];
    let info = AnalInfo::new(small(), &rom, &tags);
    assert_eq!(entry_points(&info).unwrap(), vec![xa(0, 0x10), xa(0, 0x10), xa(0, 0x4000)]);
}

#[test]
fn block_at_end_of_fixed_bank_stays_in_bank() {
    let mut rom = vec![0u8; 0x8000];
    rom[0x3FFF] = 0x00;
    rom[0x4000] = 0xC9;
    let tags = vec![(xa(0, 0x3FFF), Tag::Code)];
    let info = AnalInfo::new(big(), &rom, &tags);
    let blocks = anal(&info, &[xa(0, 0x3FFF)]);
    assert_eq!(blocks, vec![(xa(0, 0x3FFF), 1)]);
}

#[test]
fn instruction_cut_by_bank_end_is_not_code() {
    let mut rom = vec![0u8; 0x8000];
    rom[0x3FFE] = 0xC3;
    rom[0x3FFF] = 0x00;
    let tags = vec![(xa(0, 0x3FFE), Tag::Code)];
    let info = AnalInfo::new(big(), &rom, &tags);
    assert!(anal(&info, &[xa(0, 0x3FFE)]).is_empty());
}

#[test]
fn relative_jump_at_bank_top_keeps_bank() {
    let mut rom = vec![0u8; 0x10000];
    // jr +0x7F at the top of bank 1 targets 0x807F: the bank is not carried into the target
    rom[0x4000 + 0x3FFE] = 0x18;
    rom[0x4000 + 0x3FFF] = 0x7F;
    let tags = vec![(xa(1, 0x7FFE), Tag::Code)];
    let info = AnalInfo::new(big(), &rom, &tags);
    let mut emu = AnalEmu::with_bound(&info, xa(1, 0x7FFE), 2);
    let (at, ins) = emu.next().unwrap();
    let ins = ins.unwrap();
    assert_eq!(at, xa(1, 0x7FFE));
    assert_eq!(ins.get_jump_target(), Some(0x807F));
    assert_eq!(emu.expand_addr(0x807F), Some(xa(0, 0x807F)));
    let blocks = anal(&info, &[xa(1, 0x7FFE)]);
    assert_eq!(blocks, vec![(xa(1, 0x7FFE), 2)]);
}

#[test]
fn repeated_discovery_is_identical() {
    let mut rom = vec![0u8; 0x10000];
    rom[0x100..0x108].copy_from_slice(&[0x20, 0x03, 0xCD, 0x00, 0x50, 0xC3, 0x00, 0x01]);
    rom[0x4000 + 0x1000] = 0xC9;
    let tags = vec![(xa(0, 0x100), Tag::Code), (xa(0, 0x102), Tag::RomBank(1))];
    let info = AnalInfo::new(big(), &rom, &tags);
    let first = anal(&info, &[xa(0, 0x100)]);
    let second = anal(&info, &[xa(0, 0x100)]);
    assert_eq!(first, second);
    assert!(first.contains(&(xa(1, 0x5000), 1)));
}

#[test]
fn discovery_follows_rst_vector() {
    let mut rom = vec![0u8; 0x4000];
    rom[0x100] = 0xDF;
    rom[0x101] = 0xC9;
    rom[0x18] = 0xC9;
    let tags = vec![(xa(0, 0x100), Tag::Code)];
    let info = AnalInfo::new(small(), &rom, &tags);
    let blocks = anal(&info, &[xa(0, 0x100)]);
    assert_eq!(blocks, vec![(xa(0, 0x18), 1), (xa(0, 0x100), 1), (xa(0, 0x101), 1)]);
}
