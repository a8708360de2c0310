use bub::anal::{anal, AnalInfo, RomInfo};
use bub::naming::{code_refs, default_xaddr_name};
use bub::tags::Tag;
use bub::xaddr::XAddr;

#[test]
fn default_names_by_region() {
    assert_eq!(default_xaddr_name(XAddr::new(1, 0xA123), "Unk"), "sUnk_01_A123");
    assert_eq!(default_xaddr_name(XAddr::new(0, 0xFF80), "Unk"), "hUnkFF80");
    assert_eq!(default_xaddr_name(XAddr::new(0, 0xC000), "Unk"), "wUnkC000");
    assert_eq!(default_xaddr_name(XAddr::new(2, 0xD010), "Unk"), "wUnk_02_D010");
    assert_eq!(default_xaddr_name(XAddr::new(0, 0x0150), "Code"), "Code_0150");
    assert_eq!(default_xaddr_name(XAddr::new(0x1A, 0x4000), "Code"), "Code_1A_4000");
    assert_eq!(default_xaddr_name(XAddr::new(0x123, 0x4000), "Code"), "Code_123_4000");
    assert_eq!(default_xaddr_name(XAddr::new(0, 0xFFFF), "Unk"), "Unk_FFFF");
    assert_eq!(default_xaddr_name(XAddr::new(0, 0xB000), "Unk"), "Unk_B000");
}

#[test]
fn references_of_code_blocks() {
    let mut rom = vec![0u8; 0x8000];
    // ld a, [$C000]; ldh [$40], a; ld a, [hl]; call $4000; ret
    rom[0x100..0x10A].copy_from_slice(&[0xFA, 0x00, 0xC0, 0xE0, 0x40, 0x7E, 0xCD, 0x00, 0x40, 0xC9]);
    rom[0x4000] = 0xC9;
    let tags = vec![(XAddr::new(0, 0x100), Tag::Code), (XAddr::new(0, 0x105), Tag::OperandAddr)];
    let info = AnalInfo::new(RomInfo { big_rom: false, cgb_ram: false, sram_count: 0 }, &rom, &tags);
    let blocks = anal(&info, &[XAddr::new(0, 0x100)]);
    let refs = code_refs(&info, &blocks);
    let got: Vec<(XAddr, u16, Option<XAddr>, bool)> = refs.iter().map(|r| (r.at, r.addr, r.target, r.code)).collect();
    assert_eq!(
        got,
        vec![
            (XAddr::new(0, 0x100), 0xC000, Some(XAddr::new(0, 0xC000)), false),
            (XAddr::new(0, 0x103), 0xFF40, Some(XAddr::new(0, 0xFF40)), false),
            (XAddr::new(0, 0x105), 0x0000, Some(XAddr::new(0, 0x0000)), false),
            (XAddr::new(0, 0x106), 0x4000, Some(XAddr::new(0, 0x4000)), true),
        ]
    );
}
