use bub::tags::{parse_tag_line, parse_tags, ParseTagsError, Tag};
use bub::xaddr::XAddr;

fn lines(text: &str) -> Vec<String> {
    text.lines().map(String::from).collect()
}

#[test]
fn parses_keywords_and_names() {
    let text = "; comment\n\n02:4000 .noreturn\n0100 .code\n  0150\tMain  \n0:0100 .rombank 2\n01:A000 .srambank 1\nD000 .rambank 3\nC000 .addr\n0200 .bank 7\n";
    let tags = parse_tags(&lines(text)).unwrap();
    let got: Vec<(XAddr, String)> = tags.iter().map(|(xa, t)| (*xa, format!("{:?}", t))).collect();
    assert_eq!(
        got,
        vec![
            (XAddr::new(0, 0x100), "Code".to_string()),
            (XAddr::new(0, 0x100), "RomBank(2)".to_string()),
            (XAddr::new(0, 0x150), "Name(\"Main\")".to_string()),
            (XAddr::new(0, 0x200), "RomBank(7)".to_string()),
            (XAddr::new(0, 0xC000), "OperandAddr".to_string()),
            (XAddr::new(0, 0xD000), "RamBank(3)".to_string()),
            (XAddr::new(1, 0xA000), "SrmBank(1)".to_string()),
            (XAddr::new(2, 0x4000), "NoReturn".to_string()),
        ]
    );
}

#[test]
fn parse_errors() {
    assert_eq!(parse_tag_line("0100").unwrap_err(), ParseTagsError::MissingTag);
    assert_eq!(parse_tag_line("0100 .bank").unwrap_err(), ParseTagsError::MissingTagArgument);
    assert_eq!(parse_tag_line("0100 .bank x").unwrap_err(), ParseTagsError::ParseInt);
    assert_eq!(parse_tag_line("1:2:3 .code").unwrap_err(), ParseTagsError::InvalidAddressField);
    assert_eq!(parse_tag_line("G100 .code").unwrap_err(), ParseTagsError::ParseInt);
    assert_eq!(parse_tag_line("10000 .code").unwrap_err(), ParseTagsError::ParseInt);
    assert_eq!(parse_tag_line("0100 .rambank 70000").unwrap_err(), ParseTagsError::ParseInt);
    assert_eq!(parse_tags(&lines("0100 .code\nzz .code\n0:x .code")).unwrap_err(), ParseTagsError::ParseInt);
}

#[test]
fn blank_and_comment_lines() {
    assert!(parse_tag_line("").unwrap().is_none());
    assert!(parse_tag_line("   \t ").unwrap().is_none());
    assert!(parse_tag_line("  ; 0100 .code").unwrap().is_none());
}

#[test]
fn number_forms() {
    let (xa, t) = parse_tag_line("+ff:+7fFF .srambank +12").unwrap().unwrap();
    assert_eq!(xa, XAddr::new(0xFF, 0x7FFF));
    assert!(matches!(t, Tag::SrmBank(12)));
    assert_eq!(parse_tag_line("+ .code").unwrap_err(), ParseTagsError::ParseInt);
    assert_eq!(parse_tag_line(":0100 .code").unwrap_err(), ParseTagsError::ParseInt);
}

#[test]
fn canonical_lines_parse_back() {
    let canonical = [
        (XAddr::new(0x02, 0x4000), ".code"),
        (XAddr::new(0x00, 0x0100), ".noreturn"),
        (XAddr::new(0x1F, 0x7ABC), ".addr"),
    ];
    let text: Vec<String> = canonical.iter().map(|(xa, k)| format!("{:02X}:{:04X} {}", xa.bank, xa.addr, k)).collect();
    let tags = parse_tags(&text).unwrap();
    assert_eq!(tags.len(), 3);
    assert_eq!(tags[0].0, XAddr::new(0, 0x100));
    assert!(matches!(tags[0].1, Tag::NoReturn));
    assert_eq!(tags[1].0, XAddr::new(2, 0x4000));
    assert!(matches!(tags[1].1, Tag::Code));
    assert_eq!(tags[2].0, XAddr::new(0x1F, 0x7ABC));
    assert!(matches!(tags[2].1, Tag::OperandAddr));
}

#[test]
fn consecutive_spaces_make_an_empty_name() {
    let (_, t) = parse_tag_line("0100  .code").unwrap().unwrap();
    match t {
        Tag::Name(n) => assert_eq!(n, ""),
        other => panic!("unexpected {:?}", other),
    }
}
