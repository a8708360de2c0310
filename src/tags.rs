use vstd::prelude::*;

use superslice::Ext;

use vstd::string::{StrSliceExecFns, StringExecFns};

use crate::naming::{hex2, hex4, hex_digit};
use crate::xaddr::{key_of, XAddr};

verus! {

/// An annotation attached to a banked address.
#[derive(Clone, Debug)]
pub enum Tag {
    Name(String),
    Code,
    NoReturn,
    RomBank(u16),
    RamBank(u16),
    SrmBank(u16),
    OperandAddr,
    JumpTable(usize),
    DontFollowCall,
    Comment(String),
}

/// Tags in ascending order of their addresses.
pub open spec fn tags_sorted(s: Seq<(XAddr, Tag)>) -> bool {
    forall|i: int, j: int| 0 <= i < j < s.len() ==> key_of(s[i].0) <= key_of(s[j].0)
}

/// `lo..hi` is exactly the run of entries of `s` at `xa`.
pub open spec fn is_tag_range(s: Seq<(XAddr, Tag)>, xa: XAddr, lo: int, hi: int) -> bool {
    &&& 0 <= lo <= hi <= s.len()
    &&& forall|i: int| 0 <= i < lo ==> key_of(#[trigger] s[i].0) < key_of(xa)
    &&& forall|i: int| lo <= i < hi ==> key_of(#[trigger] s[i].0) == key_of(xa)
    &&& forall|i: int| hi <= i < s.len() ==> key_of(#[trigger] s[i].0) > key_of(xa)
}

/// Number of entries of `s` placed before `k` in the order of banked addresses.
pub open spec fn tags_below(s: Seq<(XAddr, Tag)>, k: int) -> nat
    decreases s.len(),
{
    if s.len() == 0 {
        0
    } else {
        tags_below(s.drop_last(), k) + if key_of(s.last().0) < k {
            1nat
        } else {
            0nat
        }
    }
}

/// Relies on superslice's `Ext::equal_range_by_key`, a binary search: on a
/// slice ordered by key, the run of entries whose key equals the one sought.
#[verifier::external_body]
fn equal_range_of(dict: &[(XAddr, Tag)], xa: &XAddr) -> (r: (usize, usize))
    requires
        tags_sorted(dict@),
    ensures
        is_tag_range(dict@, *xa, r.0 as int, r.1 as int),
{
    let range = dict.equal_range_by_key(&xa.key(), |t| t.0.key());
    (range.start, range.end)
}

/// The first index at or after which every key of a sorted tag list is `k` or more.
proof fn lemma_tags_below(s: Seq<(XAddr, Tag)>, k: int, r: int)
    requires
        0 <= r <= s.len(),
        forall|i: int| 0 <= i < r ==> key_of(#[trigger] s[i].0) < k,
        forall|i: int| r <= i < s.len() ==> key_of(#[trigger] s[i].0) >= k,
    ensures
        tags_below(s, k) == r,
    decreases s.len(),
{
    if s.len() > 0 {
        let t = s.drop_last();
        if r == s.len() {
            assert forall|i: int| 0 <= i < r - 1 implies key_of(#[trigger] t[i].0) < k by {
                assert(t[i] == s[i]);
            }
            lemma_tags_below(t, k, r - 1);
        } else {
            assert forall|i: int| 0 <= i < r implies key_of(#[trigger] t[i].0) < k by {
                assert(t[i] == s[i]);
            }
            assert forall|i: int| r <= i < t.len() implies key_of(#[trigger] t[i].0) >= k by {
                assert(t[i] == s[i]);
            }
            lemma_tags_below(t, k, r);
        }
    }
}

/// Index bounds of the run of tags at `xa`.
pub(crate) fn tag_range(dict: &[(XAddr, Tag)], xa: &XAddr) -> (r: (usize, usize))
    requires
        tags_sorted(dict@),
    ensures
        is_tag_range(dict@, *xa, r.0 as int, r.1 as int),
        r.0 == tags_below(dict@, key_of(*xa)),
        r.1 == tags_below(dict@, key_of(*xa) + 1),
{
    let r = equal_range_of(dict, xa);
    proof {
        lemma_tags_below(dict@, key_of(*xa), r.0 as int);
        lemma_tags_below(dict@, key_of(*xa) + 1, r.1 as int);
    }
    r
}

/// The tags attached to `xa`, in the order in which they stand in `dict`.
pub fn get_tags_at<'a>(dict: &'a [(XAddr, Tag)], xa: &XAddr) -> (r: &'a [(XAddr, Tag)])
    requires
        tags_sorted(dict@),
    ensures
        r@ == dict@.subrange(
            tags_below(dict@, key_of(*xa)) as int,
            tags_below(dict@, key_of(*xa) + 1) as int,
        ),
        forall|i: int| 0 <= i < r@.len() ==> (#[trigger] r@[i]).0 == *xa,
{
    let (lo, hi) = tag_range(dict, xa);
    proof {
        assert forall|i: int| lo <= i < hi implies (#[trigger] dict@[i]).0 == *xa by {
            crate::xaddr::lemma_key_injective(dict@[i].0, *xa);
        }
    }
    vstd::slice::slice_subrange(dict, lo, hi)
}

// ---- the tag file ----

/// What a tag holds, with its text as characters.
pub enum TagView {
    Name(Seq<char>),
    Code,
    NoReturn,
    RomBank(u16),
    RamBank(u16),
    SrmBank(u16),
    OperandAddr,
    JumpTable(usize),
    DontFollowCall,
    Comment(Seq<char>),
}

impl View for Tag {
    type V = TagView;

    open spec fn view(&self) -> TagView {
        match self {
            Tag::Name(s) => TagView::Name(s@),
            Tag::Code => TagView::Code,
            Tag::NoReturn => TagView::NoReturn,
            Tag::RomBank(n) => TagView::RomBank(*n),
            Tag::RamBank(n) => TagView::RamBank(*n),
            Tag::SrmBank(n) => TagView::SrmBank(*n),
            Tag::OperandAddr => TagView::OperandAddr,
            Tag::JumpTable(n) => TagView::JumpTable(*n),
            Tag::DontFollowCall => TagView::DontFollowCall,
            Tag::Comment(s) => TagView::Comment(s@),
        }
    }
}

#[derive(Clone, Copy, Debug, PartialEq, Eq, Structural)]
pub enum ParseTagsError {
    ParseInt,
    InvalidAddressField,
    MissingTag,
    MissingTagArgument,
}

/// Unicode white space.
pub open spec fn is_ws(c: char) -> bool {
    ('\u{9}' <= c <= '\u{d}') || c == ' ' || c == '\u{85}' || c == '\u{a0}' || c == '\u{1680}' || (
    '\u{2000}' <= c <= '\u{200a}') || c == '\u{2028}' || c == '\u{2029}' || c == '\u{202f}' || c
        == '\u{205f}' || c == '\u{3000}'
}

fn ws(c: char) -> (r: bool)
    ensures
        r == is_ws(c),
{
    ('\u{9}' <= c && c <= '\u{d}') || c == ' ' || c == '\u{85}' || c == '\u{a0}' || c == '\u{1680}'
        || ('\u{2000}' <= c && c <= '\u{200a}') || c == '\u{2028}' || c == '\u{2029}' || c
        == '\u{202f}' || c == '\u{205f}' || c == '\u{3000}'
}

/// The first index at or after `i` that holds no white space.
pub open spec fn lead(s: Seq<char>, i: nat) -> nat
    decreases s.len() - i,
{
    if i < s.len() && is_ws(s[i as int]) {
        lead(s, i + 1)
    } else {
        i
    }
}

/// The end of `s[lo..j]` once trailing white space is dropped.
pub open spec fn trail(s: Seq<char>, j: nat, lo: nat) -> nat
    decreases j,
{
    if j > lo && is_ws(s[j - 1]) {
        trail(s, (j - 1) as nat, lo)
    } else {
        j
    }
}

/// `s` without leading and trailing white space.
pub open spec fn trimmed(s: Seq<char>) -> Seq<char> {
    let a = lead(s, 0);
    s.subrange(a as int, trail(s, s.len(), a) as int)
}

/// The end of the field that starts at `i`: the next white space, or the end.
pub open spec fn field_end(s: Seq<char>, i: nat) -> nat
    decreases s.len() - i,
{
    if i >= s.len() || is_ws(s[i as int]) {
        i
    } else {
        field_end(s, i + 1)
    }
}

/// The first index at or after `i` that holds a colon.
pub open spec fn colon_at(s: Seq<char>, i: nat) -> nat
    decreases s.len() - i,
{
    if i >= s.len() || s[i as int] == ':' {
        i
    } else {
        colon_at(s, i + 1)
    }
}

pub open spec fn digit_value(c: char, radix: nat) -> Option<nat> {
    let v = if '0' <= c <= '9' {
        c as nat - '0' as nat
    } else if 'a' <= c <= 'z' {
        c as nat - 'a' as nat + 10
    } else if 'A' <= c <= 'Z' {
        c as nat - 'A' as nat + 10
    } else {
        99
    };
    if v < radix {
        Some(v as nat)
    } else {
        None
    }
}

/// The value of the digits, or `0x10000` once it is that large.
pub open spec fn capped_value(d: Seq<char>, radix: nat) -> nat
    decreases d.len(),
{
    if d.len() == 0 {
        0
    } else {
        let v = capped_value(d.drop_last(), radix) * radix + match digit_value(d.last(), radix) {
            Some(x) => x,
            None => 0,
        };
        if v > 0x10000 {
            0x10000
        } else {
            v
        }
    }
}

/// The digits of a number written with an optional leading `+`.
pub open spec fn unsigned_digits(s: Seq<char>) -> Seq<char> {
    if s.len() > 0 && s[0] == '+' {
        s.skip(1)
    } else {
        s
    }
}

pub open spec fn all_digits(d: Seq<char>, radix: nat) -> bool {
    forall|i: int| 0 <= i < d.len() ==> digit_value(#[trigger] d[i], radix) is Some
}

/// A 16-bit number in `radix`, written with an optional leading `+`.
pub open spec fn parse_num(s: Seq<char>, radix: nat) -> Option<u16> {
    let d = unsigned_digits(s);
    if d.len() == 0 || !all_digits(d, radix) {
        None
    } else if capped_value(d, radix) > 0xFFFF {
        None
    } else {
        Some(capped_value(d, radix) as u16)
    }
}

/// An address field: `AAAA`, or `BB:AAAA`, in hex.
pub open spec fn parse_address(f: Seq<char>) -> Result<XAddr, ParseTagsError> {
    let c = colon_at(f, 0);
    if c >= f.len() {
        match parse_num(f, 16) {
            Some(a) => Ok(XAddr { bank: 0, addr: a }),
            None => Err(ParseTagsError::ParseInt),
        }
    } else if colon_at(f, c + 1) < f.len() {
        Err(ParseTagsError::InvalidAddressField)
    } else {
        match parse_num(f.take(c as int), 16) {
            None => Err(ParseTagsError::ParseInt),
            Some(b) => match parse_num(f.skip(c + 1 as int), 16) {
                None => Err(ParseTagsError::ParseInt),
                Some(a) => Ok(XAddr { bank: b, addr: a }),
            },
        }
    }
}

/// A bank argument: a decimal number.
pub open spec fn bank_arg(arg: Option<Seq<char>>) -> Result<u16, ParseTagsError> {
    match arg {
        None => Err(ParseTagsError::MissingTagArgument),
        Some(a) => match parse_num(a, 10) {
            None => Err(ParseTagsError::ParseInt),
            Some(n) => Ok(n),
        },
    }
}

/// The tag that a keyword and its argument denote; any other word is a name.
pub open spec fn tag_of(tok: Seq<char>, arg: Option<Seq<char>>) -> Result<TagView, ParseTagsError> {
    if tok == ".code"@ {
        Ok(TagView::Code)
    } else if tok == ".noreturn"@ {
        Ok(TagView::NoReturn)
    } else if tok == ".bank"@ || tok == ".rombank"@ {
        match bank_arg(arg) {
            Ok(n) => Ok(TagView::RomBank(n)),
            Err(e) => Err(e),
        }
    } else if tok == ".rambank"@ {
        match bank_arg(arg) {
            Ok(n) => Ok(TagView::RamBank(n)),
            Err(e) => Err(e),
        }
    } else if tok == ".srambank"@ {
        match bank_arg(arg) {
            Ok(n) => Ok(TagView::SrmBank(n)),
            Err(e) => Err(e),
        }
    } else if tok == ".addr"@ {
        Ok(TagView::OperandAddr)
    } else {
        Ok(TagView::Name(tok))
    }
}

/// One line of a tag file: `None` for a blank or comment line. Fields are
/// separated by single white-space characters.
pub open spec fn parse_line_spec(line: Seq<char>) -> Result<Option<(XAddr, TagView)>, ParseTagsError> {
    let s = trimmed(line);
    if s.len() == 0 || s[0] == ';' {
        Ok(None)
    } else {
        let e0 = field_end(s, 0);
        match parse_address(s.take(e0 as int)) {
            Err(e) => Err(e),
            Ok(xa) => if e0 >= s.len() {
                Err(ParseTagsError::MissingTag)
            } else {
                let e1 = field_end(s, e0 + 1);
                let arg = if e1 < s.len() {
                    Some(s.subrange(e1 + 1 as int, field_end(s, e1 + 1) as int))
                } else {
                    None
                };
                match tag_of(s.subrange(e0 + 1 as int, e1 as int), arg) {
                    Err(e) => Err(e),
                    Ok(t) => Ok(Some((xa, t))),
                }
            },
        }
    }
}

fn digit(c: char, radix: u32) -> (r: Option<u32>)
    requires
        radix == 10 || radix == 16,
    ensures
        r matches Some(x) ==> digit_value(c, radix as nat) == Some(x as nat) && x < radix,
        r is None <==> digit_value(c, radix as nat) is None,
{
    let v: u32 = if '0' <= c && c <= '9' {
        c as u32 - '0' as u32
    } else if 'a' <= c && c <= 'z' {
        c as u32 - 'a' as u32 + 10
    } else if 'A' <= c && c <= 'Z' {
        c as u32 - 'A' as u32 + 10
    } else {
        99
    };
    if v < radix {
        Some(v)
    } else {
        None
    }
}

/// Reads `t[a..b]` as a 16-bit number in `radix`.
fn parse_num_in(t: &str, a: usize, b: usize, radix: u32) -> (r: Option<u16>)
    requires
        a <= b <= t@.len(),
        radix == 10 || radix == 16,
    ensures
        r == parse_num(t@.subrange(a as int, b as int), radix as nat),
{
    let ghost s = t@.subrange(a as int, b as int);
    let mut i: usize = a;
    if i < b && t.get_char(i) == '+' {
        i = i + 1;
    }
    let ghost d = t@.subrange(i as int, b as int);
    assert(d =~= unsigned_digits(s));
    if i == b {
        return None;
    }
    let mut v: u32 = 0;
    let mut j: usize = i;
    assert(t@.subrange(i as int, i as int) =~= Seq::<char>::empty());
    while j < b
        invariant
            a <= i <= j <= b <= t@.len(),
            radix == 10 || radix == 16,
            d == t@.subrange(i as int, b as int),
            s == t@.subrange(a as int, b as int),
            d == unsigned_digits(s),
            d.len() > 0,
            v as nat == capped_value(t@.subrange(i as int, j as int), radix as nat),
            v <= 0x10000,
            forall|k: int| i <= k < j ==> digit_value(#[trigger] t@[k], radix as nat) is Some,
        decreases b - j,
    {
        let c = t.get_char(j);
        match digit(c, radix) {
            None => {
                assert(d[j - i] == c);
                assert(digit_value(d[j - i], radix as nat) is None);
                assert(!all_digits(d, radix as nat));
                return None;
            },
            Some(x) => {
                assert(v * radix <= 0x10000 * 16) by (nonlinear_arith)
                    requires
                        v <= 0x10000,
                        radix <= 16,
                ;
                let w = v * radix + x;
                v = if w > 0x10000 {
                    0x10000
                } else {
                    w
                };
                assert(t@.subrange(i as int, j + 1).drop_last() =~= t@.subrange(i as int, j as int));
            },
        }
        j = j + 1;
    }
    assert(t@.subrange(i as int, j as int) =~= d);
    assert forall|k: int| 0 <= k < d.len() implies digit_value(#[trigger] d[k], radix as nat) is Some by {
        assert(d[k] == t@[i + k]);
    }
    if v > 0xFFFF {
        None
    } else {
        Some(v as u16)
    }
}

/// `t[a..b]` is the word `lit`.
fn token_is(t: &str, a: usize, b: usize, lit: &str) -> (r: bool)
    requires
        a <= b <= t@.len(),
    ensures
        r == (t@.subrange(a as int, b as int) == lit@),
{
    let n = lit.unicode_len();
    if b - a != n {
        return false;
    }
    let mut k: usize = 0;
    while k < n
        invariant
            a <= b <= t@.len(),
            n == lit@.len(),
            b - a == n,
            k <= n,
            forall|m: int| 0 <= m < k ==> t@[a + m] == lit@[m],
        decreases n - k,
    {
        if t.get_char(a + k) != lit.get_char(k) {
            assert(t@.subrange(a as int, b as int)[k as int] != lit@[k as int]);
            return false;
        }
        k = k + 1;
    }
    assert(t@.subrange(a as int, b as int) =~= lit@);
    true
}

fn field_end_in(t: &str, i: usize) -> (r: usize)
    requires
        i <= t@.len(),
    ensures
        r == field_end(t@, i as nat),
        i <= r <= t@.len(),
{
    let n = t.unicode_len();
    let mut j: usize = i;
    while j < n && !ws(t.get_char(j))
        invariant
            i <= j <= n,
            n == t@.len(),
            field_end(t@, j as nat) == field_end(t@, i as nat),
        decreases n - j,
    {
        j = j + 1;
    }
    j
}

fn colon_in(t: &str, i: usize, end: usize) -> (r: usize)
    requires
        i <= end <= t@.len(),
    ensures
        r == colon_at(t@.take(end as int), i as nat),
        i <= r <= end,
{
    let ghost f = t@.take(end as int);
    let mut j: usize = i;
    while j < end && t.get_char(j) != ':'
        invariant
            i <= j <= end <= t@.len(),
            f == t@.take(end as int),
            colon_at(f, j as nat) == colon_at(f, i as nat),
        decreases end - j,
    {
        j = j + 1;
    }
    j
}

fn parse_address_in(t: &str, end: usize) -> (r: Result<XAddr, ParseTagsError>)
    requires
        end <= t@.len(),
    ensures
        r == parse_address(t@.take(end as int)),
{
    let ghost f = t@.take(end as int);
    assert(f =~= t@.subrange(0, end as int));
    let c = colon_in(t, 0, end);
    if c >= end {
        match parse_num_in(t, 0, end, 16) {
            Some(a) => Ok(XAddr::new(0, a)),
            None => Err(ParseTagsError::ParseInt),
        }
    } else if colon_in(t, c + 1, end) < end {
        Err(ParseTagsError::InvalidAddressField)
    } else {
        assert(f.take(c as int) =~= t@.subrange(0, c as int));
        assert(f.skip(c + 1 as int) =~= t@.subrange(c + 1 as int, end as int));
        match parse_num_in(t, 0, c, 16) {
            None => Err(ParseTagsError::ParseInt),
            Some(b) => match parse_num_in(t, c + 1, end, 16) {
                None => Err(ParseTagsError::ParseInt),
                Some(a) => Ok(XAddr::new(b, a)),
            },
        }
    }
}

fn bank_arg_in(t: &str, e1: usize) -> (r: Result<u16, ParseTagsError>)
    requires
        e1 <= t@.len(),
    ensures
        r == bank_arg(
            if e1 < t@.len() {
                Some(t@.subrange(e1 + 1 as int, field_end(t@, (e1 + 1) as nat) as int))
            } else {
                None
            },
        ),
{
    if e1 >= t.unicode_len() {
        return Err(ParseTagsError::MissingTagArgument);
    }
    let e2 = field_end_in(t, e1 + 1);
    match parse_num_in(t, e1 + 1, e2, 10) {
        None => Err(ParseTagsError::ParseInt),
        Some(n) => Ok(n),
    }
}

/// Parses one line of a tag file; `None` for a blank or comment line.
pub fn parse_tag_line(line: &str) -> (r: Result<Option<(XAddr, Tag)>, ParseTagsError>)
    ensures
        match parse_line_spec(line@) {
            Ok(None) => r == Ok::<Option<(XAddr, Tag)>, ParseTagsError>(None),
            Ok(Some((xa, t))) => r matches Ok(Some((rxa, rt))) && rxa == xa && rt@ == t,
            Err(e) => r == Err::<Option<(XAddr, Tag)>, ParseTagsError>(e),
        },
{
    let n = line.unicode_len();
    let mut a: usize = 0;
    while a < n && ws(line.get_char(a))
        invariant
            a <= n,
            n == line@.len(),
            lead(line@, a as nat) == lead(line@, 0),
        decreases n - a,
    {
        a = a + 1;
    }
    let mut b: usize = n;
    while b > a && ws(line.get_char(b - 1))
        invariant
            a <= b <= n,
            n == line@.len(),
            a == lead(line@, 0),
            trail(line@, b as nat, a as nat) == trail(line@, n as nat, a as nat),
        decreases b,
    {
        b = b - 1;
    }
    let t = line.substring_char(a, b);
    assert(t@ == trimmed(line@));
    let len = t.unicode_len();
    if len == 0 || t.get_char(0) == ';' {
        return Ok(None);
    }
    let e0 = field_end_in(t, 0);
    let xa = match parse_address_in(t, e0) {
        Ok(xa) => xa,
        Err(e) => {
            return Err(e);
        },
    };
    if e0 >= len {
        return Err(ParseTagsError::MissingTag);
    }
    let s = e0 + 1;
    let e1 = field_end_in(t, s);
    let tag = if token_is(t, s, e1, ".code") {
        Tag::Code
    } else if token_is(t, s, e1, ".noreturn") {
        Tag::NoReturn
    } else if token_is(t, s, e1, ".bank") || token_is(t, s, e1, ".rombank") {
        match bank_arg_in(t, e1) {
            Ok(n) => Tag::RomBank(n),
            Err(e) => {
                return Err(e);
            },
        }
    } else if token_is(t, s, e1, ".rambank") {
        match bank_arg_in(t, e1) {
            Ok(n) => Tag::RamBank(n),
            Err(e) => {
                return Err(e);
            },
        }
    } else if token_is(t, s, e1, ".srambank") {
        match bank_arg_in(t, e1) {
            Ok(n) => Tag::SrmBank(n),
            Err(e) => {
                return Err(e);
            },
        }
    } else if token_is(t, s, e1, ".addr") {
        Tag::OperandAddr
    } else {
        Tag::Name(String::from_str(t.substring_char(s, e1)))
    };
    Ok(Some((xa, tag)))
}

/// Number of parsed tags placed before `k` in the order of banked addresses.
pub open spec fn views_below(s: Seq<(XAddr, TagView)>, k: int) -> nat
    decreases s.len(),
{
    if s.len() == 0 {
        0
    } else {
        views_below(s.drop_last(), k) + if key_of(s.last().0) < k {
            1nat
        } else {
            0nat
        }
    }
}

/// `acc` with `e` inserted after every entry at or before its address.
pub open spec fn insert_by_addr(acc: Seq<(XAddr, TagView)>, e: (XAddr, TagView)) -> Seq<
    (XAddr, TagView),
> {
    acc.insert(views_below(acc, key_of(e.0) + 1) as int, e)
}

/// The tags of a tag file, ordered by address, tags at one address in file
/// order; or the error of the first line that fails.
pub open spec fn parse_lines(lines: Seq<Seq<char>>) -> Result<Seq<(XAddr, TagView)>, ParseTagsError>
    decreases lines.len(),
{
    if lines.len() == 0 {
        Ok(Seq::empty())
    } else {
        match parse_lines(lines.drop_last()) {
            Err(e) => Err(e),
            Ok(acc) => match parse_line_spec(lines.last()) {
                Err(e) => Err(e),
                Ok(None) => Ok(acc),
                Ok(Some(t)) => Ok(insert_by_addr(acc, t)),
            },
        }
    }
}

pub open spec fn views_of(s: Seq<(XAddr, Tag)>) -> Seq<(XAddr, TagView)> {
    s.map_values(|e: (XAddr, Tag)| (e.0, e.1@))
}

pub open spec fn texts_of(lines: Seq<String>) -> Seq<Seq<char>> {
    lines.map_values(|l: String| l@)
}

proof fn lemma_views_below(s: Seq<(XAddr, Tag)>, k: int)
    ensures
        tags_below(s, k) == views_below(views_of(s), k),
    decreases s.len(),
{
    if s.len() > 0 {
        assert(views_of(s).drop_last() =~= views_of(s.drop_last()));
        lemma_views_below(s.drop_last(), k);
    }
}

proof fn lemma_parse_lines_err(lines: Seq<Seq<char>>, j: int)
    requires
        0 <= j <= lines.len(),
        parse_lines(lines.take(j)) is Err,
    ensures
        parse_lines(lines) == parse_lines(lines.take(j)),
    decreases lines.len(),
{
    if lines.len() == j {
        assert(lines.take(j) =~= lines);
    } else {
        assert(lines.drop_last().take(j) =~= lines.take(j));
        lemma_parse_lines_err(lines.drop_last(), j);
    }
}

/// Parses the lines of a tag file into tags ordered by address.
pub fn parse_tags(lines: &[String]) -> (r: Result<Vec<(XAddr, Tag)>, ParseTagsError>)
    ensures
        match parse_lines(texts_of(lines@)) {
            Ok(v) => r is Ok && views_of(r->Ok_0@) == v && tags_sorted(r->Ok_0@),
            Err(e) => r is Err && r->Err_0 == e,
        },
{
    let ghost ls = texts_of(lines@);
    let mut result: Vec<(XAddr, Tag)> = Vec::new();
    let mut i: usize = 0;
    assert(views_of(result@) =~= Seq::<(XAddr, TagView)>::empty());
    assert(ls.take(0) =~= Seq::<Seq<char>>::empty());
    while i < lines.len()
        invariant
            ls == texts_of(lines@),
            i <= lines@.len(),
            parse_lines(ls.take(i as int)) == Ok::<Seq<(XAddr, TagView)>, ParseTagsError>(
                views_of(result@),
            ),
            tags_sorted(result@),
        decreases lines@.len() - i,
    {
        proof {
            assert(ls.take(i as int + 1).drop_last() =~= ls.take(i as int));
            assert(ls.take(i as int + 1).last() == lines@[i as int]@);
        }
        match parse_tag_line(lines[i].as_str()) {
            Err(e) => {
                proof {
                    lemma_parse_lines_err(ls, i as int + 1);
                }
                return Err(e);
            },
            Ok(None) => {},
            Ok(Some(entry)) => {
                let (lo, hi) = tag_range(result.as_slice(), &entry.0);
                let ghost old_result = result@;
                let ghost ev = (entry.0, entry.1@);
                proof {
                    lemma_views_below(old_result, key_of(entry.0) + 1);
                }
                result.insert(hi, entry);
                proof {
                    assert(views_of(result@) =~= views_of(old_result).insert(hi as int, ev));
                    assert forall|a: int, b: int|
                        0 <= a < b < result@.len() implies key_of(result@[a].0) <= key_of(
                            result@[b].0,
                        ) by {
                        if b < hi {
                        } else if b == hi {
                            assert(key_of(old_result[a].0) <= key_of(entry.0));
                        } else if a < hi {
                            assert(key_of(old_result[a].0) <= key_of(entry.0));
                            assert(key_of(entry.0) < key_of(old_result[b - 1].0));
                        } else if a == hi {
                            assert(key_of(entry.0) < key_of(old_result[b - 1].0));
                        } else {
                            assert(key_of(old_result[a - 1].0) <= key_of(old_result[b - 1].0));
                        }
                    }
                }
            },
        }
        i = i + 1;
    }
    assert(ls.take(i as int) =~= ls);
    Ok(result)
}

// ---- canonical lines ----

/// The canonical line of a keyword tag: `BB:AAAA <keyword>`, in upper-case hex.
pub open spec fn canonical_line(xa: XAddr, keyword: Seq<char>) -> Seq<char> {
    hex2(xa.bank) + seq![':'] + hex4(xa.addr) + seq![' '] + keyword
}

proof fn lemma_hex_digit(d: int)
    requires
        0 <= d < 16,
    ensures
        digit_value(hex_digit(d), 16) == Some(d as nat),
        !is_ws(hex_digit(d)),
        hex_digit(d) != ':',
        hex_digit(d) != '+',
        hex_digit(d) != ';',
{
    reveal_strlit("0123456789ABCDEF");
    // one case for each of the sixteen digits
    if d == 0 {
    } else if d == 1 {
    } else if d == 2 {
    } else if d == 3 {
    } else if d == 4 {
    } else if d == 5 {
    } else if d == 6 {
    } else if d == 7 {
    } else if d == 8 {
    } else if d == 9 {
    } else if d == 10 {
    } else if d == 11 {
    } else if d == 12 {
    } else if d == 13 {
    } else if d == 14 {
    } else {
    }
}

/// Reading back the hex digits of `n` gives `n`.
proof fn lemma_hex_reads_back(n: u16, j: int)
    requires
        0 <= j <= 2,
        j >= 1 ==> n < 0x1000,
        j >= 2 ==> n < 0x100,
    ensures
        parse_num(hex4(n).skip(j), 16) == Some(n),
        forall|k: int| 0 <= k < hex4(n).len() ==> #[trigger] hex4(n)[k] != ':' && !is_ws(hex4(n)[k]),
{
    let x = n as int;
    vstd::arithmetic::div_mod::lemma_fundamental_div_mod(x, 16);
    vstd::arithmetic::div_mod::lemma_fundamental_div_mod(x / 16, 16);
    vstd::arithmetic::div_mod::lemma_fundamental_div_mod(x / 256, 16);
    vstd::arithmetic::div_mod::lemma_div_denominator(x, 16, 16);
    vstd::arithmetic::div_mod::lemma_div_denominator(x, 256, 16);
    let d3 = x / 0x1000;
    let d2 = x / 0x100 % 16;
    let d1 = x / 0x10 % 16;
    let d0 = x % 16;
    assert(0 <= d3 < 16);
    lemma_hex_digit(d3);
    lemma_hex_digit(d2);
    lemma_hex_digit(d1);
    lemma_hex_digit(d0);
    let h = hex4(n);
    assert(x == ((d3 * 16 + d2) * 16 + d1) * 16 + d0);
    let d = h.skip(j);
    assert(unsigned_digits(d) == d);
    assert(all_digits(d, 16));
    reveal_with_fuel(capped_value, 5);
    if j == 0 {
        assert(d.drop_last().drop_last().drop_last().drop_last() =~= Seq::<char>::empty());
        assert(d.drop_last().drop_last().drop_last() =~= seq![hex_digit(d3)]);
        assert(d.drop_last().drop_last() =~= seq![hex_digit(d3), hex_digit(d2)]);
        assert(d.drop_last() =~= seq![hex_digit(d3), hex_digit(d2), hex_digit(d1)]);
    } else if j == 1 {
        assert(d3 == 0);
        assert(d.drop_last().drop_last().drop_last() =~= Seq::<char>::empty());
        assert(d.drop_last().drop_last() =~= seq![hex_digit(d2)]);
        assert(d.drop_last() =~= seq![hex_digit(d2), hex_digit(d1)]);
    } else {
        assert(d3 == 0 && d2 == 0);
        assert(d.drop_last().drop_last() =~= Seq::<char>::empty());
        assert(d.drop_last() =~= seq![hex_digit(d1)]);
    }
}

proof fn lemma_field_end(s: Seq<char>, i: nat, j: nat)
    requires
        i <= j <= s.len(),
        forall|k: int| i <= k < j ==> !is_ws(#[trigger] s[k]),
        j == s.len() || is_ws(s[j as int]),
    ensures
        field_end(s, i) == j,
    decreases j - i,
{
    if i < j {
        lemma_field_end(s, i + 1, j);
    }
}

proof fn lemma_colon_at(s: Seq<char>, i: nat, j: nat)
    requires
        i <= j <= s.len(),
        forall|k: int| i <= k < j ==> #[trigger] s[k] != ':',
        j == s.len() || s[j as int] == ':',
    ensures
        colon_at(s, i) == j,
    decreases j - i,
{
    if i < j {
        lemma_colon_at(s, i + 1, j);
    }
}

/// The tag that a keyword stands for.
pub open spec fn keyword_tag(keyword: Seq<char>) -> TagView {
    if keyword == ".code"@ {
        TagView::Code
    } else if keyword == ".noreturn"@ {
        TagView::NoReturn
    } else {
        TagView::OperandAddr
    }
}

/// Where the pieces of a canonical line stand.
proof fn lemma_canonical_layout(xa: XAddr, keyword: Seq<char>)
    requires
        keyword.len() > 0,
        forall|k: int| 0 <= k < keyword.len() ==> !is_ws(#[trigger] keyword[k]),
    ensures
        ({
            let line = canonical_line(xa, keyword);
            let c = hex2(xa.bank).len() as int;
            &&& trimmed(line) == line
            &&& line[0] != ';'
            &&& field_end(line, 0) == c + 5
            &&& c + 5 < line.len()
            &&& field_end(line, (c + 6) as nat) == line.len()
            &&& line.subrange(c + 6, line.len() as int) == keyword
            &&& parse_address(line.take(c + 5)) == Ok::<XAddr, ParseTagsError>(xa)
        }),
{
    let b = xa.bank;
    let j: int = if b < 0x100 {
        2
    } else if b < 0x1000 {
        1
    } else {
        0
    };
    lemma_hex_reads_back(b, j);
    lemma_hex_reads_back(xa.addr, 0);
    let hb = hex2(xa.bank);
    assert(hb == hex4(b).skip(j));
    let ha = hex4(xa.addr);
    let line = canonical_line(xa, keyword);
    let c = hb.len() as int;
    let e0 = c + 5;
    assert(line.len() == e0 + 1 + keyword.len());
    assert forall|k: int| 0 <= k < c implies #[trigger] line[k] == hex4(b)[k + j] by {}
    assert forall|k: int| c < k < e0 implies #[trigger] line[k] == ha[k - c - 1] by {}
    assert(line[c] == ':');
    assert(line[e0] == ' ');
    assert forall|k: int| e0 < k < line.len() implies #[trigger] line[k] == keyword[k - e0 - 1] by {}
    assert forall|k: int| 0 <= k < e0 implies !is_ws(#[trigger] line[k]) by {
        if k < c {
            assert(line[k] == hex4(b)[k + j]);
        } else if k > c {
            assert(line[k] == ha[k - c - 1]);
        }
    }
    assert forall|k: int| e0 < k < line.len() implies !is_ws(#[trigger] line[k]) by {
        assert(line[k] == keyword[k - e0 - 1]);
    }
    assert(!is_ws(line[0]));
    assert(lead(line, 0) == 0);
    assert(!is_ws(line[line.len() - 1]));
    assert(trail(line, line.len(), 0) == line.len());
    assert(trimmed(line) =~= line);
    lemma_hex_digit(b as int / 0x1000);
    lemma_hex_digit(b as int / 0x100 % 16);
    lemma_hex_digit(b as int / 0x10 % 16);
    assert(line[0] == hex4(b)[j]);
    assert(line[0] != ';');
    lemma_field_end(line, 0, e0 as nat);
    let f = line.take(e0);
    assert forall|k: int| 0 <= k < c implies #[trigger] f[k] != ':' by {
        assert(f[k] == line[k]);
        assert(line[k] == hex4(b)[k + j]);
    }
    lemma_colon_at(f, 0, c as nat);
    assert forall|k: int| c + 1 <= k < f.len() implies #[trigger] f[k] != ':' by {
        assert(f[k] == line[k]);
        assert(line[k] == ha[k - c - 1]);
    }
    lemma_colon_at(f, (c + 1) as nat, f.len());
    assert(f.take(c) =~= hb);
    assert(f.skip(c + 1) =~= ha);
    assert(ha.skip(0) =~= ha);
    lemma_field_end(line, (e0 + 1) as nat, line.len());
    assert(line.subrange(e0 + 1, line.len() as int) =~= keyword);
}

/// Parsing the canonical line of a keyword tag gives the tag back at its
/// address.
pub proof fn lemma_canonical_line_parses(xa: XAddr, keyword: Seq<char>)
    requires
        keyword == ".code"@ || keyword == ".noreturn"@ || keyword == ".addr"@,
    ensures
        parse_line_spec(canonical_line(xa, keyword)) == Ok::<
            Option<(XAddr, TagView)>,
            ParseTagsError,
        >(Some((xa, keyword_tag(keyword)))),
{
    reveal_strlit(".code");
    reveal_strlit(".noreturn");
    reveal_strlit(".addr");
    reveal_strlit(".bank");
    reveal_strlit(".rombank");
    reveal_strlit(".rambank");
    reveal_strlit(".srambank");
    assert(keyword.len() > 0);
    assert forall|k: int| 0 <= k < keyword.len() implies !is_ws(#[trigger] keyword[k]) by {}
    lemma_canonical_layout(xa, keyword);
}

/// The canonical lines of a list of keyword tags.
pub open spec fn canonical_lines(tags: Seq<(XAddr, Seq<char>)>) -> Seq<Seq<char>> {
    tags.map_values(|t: (XAddr, Seq<char>)| canonical_line(t.0, t.1))
}

/// The tags that a list of keywords stands for.
pub open spec fn keyword_tags(tags: Seq<(XAddr, Seq<char>)>) -> Seq<(XAddr, TagView)> {
    tags.map_values(|t: (XAddr, Seq<char>)| (t.0, keyword_tag(t.1)))
}

proof fn lemma_views_all_below(s: Seq<(XAddr, TagView)>, k: int)
    requires
        forall|i: int| 0 <= i < s.len() ==> key_of(#[trigger] s[i].0) < k,
    ensures
        views_below(s, k) == s.len(),
    decreases s.len(),
{
    if s.len() > 0 {
        let t = s.drop_last();
        assert forall|i: int| 0 <= i < t.len() implies key_of(#[trigger] t[i].0) < k by {
            assert(t[i] == s[i]);
        }
        lemma_views_all_below(t, k);
    }
}

/// A tag file written in canonical lines, in address order, parses back to
/// the same tags in the same order.
pub proof fn lemma_canonical_file_parses(tags: Seq<(XAddr, Seq<char>)>)
    requires
        forall|i: int|
            0 <= i < tags.len() ==> (#[trigger] tags[i]).1 == ".code"@ || tags[i].1 == ".noreturn"@
                || tags[i].1 == ".addr"@,
        forall|i: int, j: int| 0 <= i < j < tags.len() ==> key_of(tags[i].0) <= key_of(tags[j].0),
    ensures
        parse_lines(canonical_lines(tags)) == Ok::<Seq<(XAddr, TagView)>, ParseTagsError>(
            keyword_tags(tags),
        ),
    decreases tags.len(),
{
    if tags.len() == 0 {
        assert(canonical_lines(tags) =~= Seq::<Seq<char>>::empty());
        assert(keyword_tags(tags) =~= Seq::<(XAddr, TagView)>::empty());
    } else {
        let t = tags.drop_last();
        assert forall|i: int|
            0 <= i < t.len() implies (#[trigger] t[i]).1 == ".code"@ || t[i].1 == ".noreturn"@
            || t[i].1 == ".addr"@ by {
            assert(t[i] == tags[i]);
        }
        assert forall|i: int, j: int| 0 <= i < j < t.len() implies key_of(t[i].0) <= key_of(
            t[j].0,
        ) by {
            assert(t[i] == tags[i] && t[j] == tags[j]);
        }
        lemma_canonical_file_parses(t);
        assert(canonical_lines(tags).drop_last() =~= canonical_lines(t));
        let last = tags.last();
        assert(tags[tags.len() - 1] == last);
        lemma_canonical_line_parses(last.0, last.1);
        let acc = keyword_tags(t);
        assert forall|i: int| 0 <= i < acc.len() implies key_of(#[trigger] acc[i].0) < key_of(
            last.0,
        ) + 1 by {
            assert(acc[i].0 == tags[i].0);
        }
        lemma_views_all_below(acc, key_of(last.0) + 1);
        assert(acc.insert(acc.len() as int, (last.0, keyword_tag(last.1))) =~= keyword_tags(tags));
    }
}

} // verus!
