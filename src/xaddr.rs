use vstd::prelude::*;

verus! {

/// A bank-qualified address. Ordered lexicographically by `(bank, addr)`.
#[derive(Clone, Copy, Debug, Hash, PartialEq, Eq, Structural, PartialOrd, Ord)]
pub struct XAddr {
    pub bank: u16,
    pub addr: u16,
}

/// The position of an address in the total order of banked addresses.
pub open spec fn key_of(xa: XAddr) -> int {
    xa.bank as int * 0x10000 + xa.addr as int
}

/// `xa` with `n` added to its low half; the bank never changes.
pub open spec fn xadd(xa: XAddr, n: int) -> XAddr {
    XAddr { bank: xa.bank, addr: ((xa.addr as int + n) % 0x10000) as u16 }
}

/// Banked addresses in ascending order, equal neighbours allowed.
pub open spec fn sorted(s: Seq<XAddr>) -> bool {
    forall|i: int, j: int| 0 <= i < j < s.len() ==> key_of(s[i]) <= key_of(s[j])
}

/// Banked addresses in strictly ascending order.
pub open spec fn strictly_sorted(s: Seq<XAddr>) -> bool {
    forall|i: int, j: int| 0 <= i < j < s.len() ==> key_of(s[i]) < key_of(s[j])
}

/// Two addresses with the same position are the same address.
pub proof fn lemma_key_injective(a: XAddr, b: XAddr)
    ensures
        key_of(a) == key_of(b) <==> a == b,
{
}

impl XAddr {
    pub fn new(bank: u16, addr: u16) -> (r: XAddr)
        ensures
            r.bank == bank,
            r.addr == addr,
    {
        XAddr { bank, addr }
    }

    /// The position of this address in the order of banked addresses.
    pub fn key(&self) -> (r: u64)
        ensures
            r as int == key_of(*self),
    {
        self.bank as u64 * 0x10000 + self.addr as u64
    }

    /// Adds `n` to the low half, wrapping within the bank.
    pub fn add(self, n: u16) -> (r: XAddr)
        ensures
            r == xadd(self, n as int),
    {
        XAddr { bank: self.bank, addr: self.addr.wrapping_add(n) }
    }

    /// True when `self` comes before `other` in the order of banked addresses.
    pub fn lt(&self, other: &XAddr) -> (r: bool)
        ensures
            r == (key_of(*self) < key_of(*other)),
    {
        self.bank < other.bank || (self.bank == other.bank && self.addr < other.addr)
    }
}

} // verus!
