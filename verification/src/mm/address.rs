//! Virtual addresses and page numbers.
use vstd::prelude::*;
use crate::config::VPN_LIMIT;

verus! {

/// A virtual page number.
#[derive(Clone, Copy, PartialEq, Eq, Structural, Debug)]
pub struct VirtPageNum(pub u64);

/// A virtual byte address.
#[derive(Clone, Copy, PartialEq, Eq, Structural, Debug)]
pub struct VirtAddr(pub u64);

impl VirtAddr {
    /// The page that holds the address.
    pub open spec fn floor_of(self) -> int {
        self.0 as int / 4096
    }

    /// The first page that starts at or after the address.
    pub open spec fn ceil_of(self) -> int {
        (self.0 as int + 4095) / 4096
    }

    /// The page that holds the address.
    pub fn floor(&self) -> (vpn: VirtPageNum)
        ensures
            vpn.0 == self.floor_of(),
    {
        VirtPageNum(self.0 / 4096)
    }

    /// The first page that starts at or after the address.
    pub fn ceil(&self) -> (vpn: VirtPageNum)
        ensures
            vpn.0 == self.ceil_of(),
    {
        if self.0 % 4096 == 0 {
            VirtPageNum(self.0 / 4096)
        } else {
            VirtPageNum(self.0 / 4096 + 1)
        }
    }

    /// Offset of the address inside its page.
    pub fn page_offset(&self) -> (off: u64)
        ensures
            off == self.0 % 4096,
    {
        self.0 % 4096
    }

    /// Whether the address is the first of a page.
    pub fn aligned(&self) -> (b: bool)
        ensures
            b == (self.0 % 4096 == 0),
    {
        self.0 % 4096 == 0
    }
}

impl VirtPageNum {
    /// The first address of the page.
    pub fn start_addr(&self) -> (va: VirtAddr)
        requires
            self.0 <= VPN_LIMIT,
        ensures
            va.0 == self.0 * 4096,
    {
        VirtAddr(self.0 * 4096)
    }
}

} // verus!
