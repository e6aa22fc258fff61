//! Addresses of code.

use vstd::prelude::*;

verus! {

/// The address of an instruction in the code of a program. The file of the program has a header
/// before the code, and an address in the file has to fit in 32 bits.
#[derive(Clone, Copy, Debug, PartialEq, Eq, PartialOrd, Ord, Hash)]
pub struct CodeAddress(u32);

/// The address as a number.
impl View for CodeAddress {
    type V = u32;

    closed spec fn view(&self) -> u32 {
        self.0
    }
}

impl CodeAddress {
    /// The length of the header before the code.
    pub const NSO_HEADER_LEN: u32 = 0x100;

    /// The last address that fits.
    pub const MAX_ALLOWED_ADDR: u32 = 0xffff_feff;

    #[verifier::type_invariant]
    closed spec fn fits(self) -> bool {
        self.0 <= Self::MAX_ALLOWED_ADDR
    }

    /// An address, if it fits.
    pub fn new(addr: u32) -> (r: Option<Self>)
        ensures
            r is Some <==> addr <= Self::MAX_ALLOWED_ADDR,
            r matches Some(a) ==> a@ == addr,
    {
        if addr <= Self::MAX_ALLOWED_ADDR {
            Some(Self(addr))
        } else {
            None
        }
    }

    /// The address in the code.
    pub fn code_address(self) -> (r: u32)
        ensures
            r == self@,
            r <= Self::MAX_ALLOWED_ADDR,
    {
        proof {
            use_type_invariant(&self);
        }
        self.0
    }

    /// The address in the file.
    pub fn nso_address(self) -> (r: u32)
        ensures
            r == self@ + Self::NSO_HEADER_LEN,
    {
        proof {
            use_type_invariant(&self);
        }
        self.0 + Self::NSO_HEADER_LEN
    }

    /// The address `other` bytes on, if it fits.
    pub fn increment(self, other: u32) -> (r: Option<Self>)
        ensures
            r is Some <==> self@ + other <= Self::MAX_ALLOWED_ADDR,
            r matches Some(a) ==> a@ == self@ + other,
    {
        match self.0.checked_add(other) {
            Some(addr) => Self::new(addr),
            None => None,
        }
    }

    /// The number of bytes from the address on.
    pub fn remaining_bytes(self) -> (r: u32)
        ensures
            r == Self::MAX_ALLOWED_ADDR - self@ + 1,
            r > 0,
    {
        proof {
            use_type_invariant(&self);
        }
        Self::MAX_ALLOWED_ADDR - self.0 + 1
    }
}

/// Where `n` bytes fit behind an address, the address behind them fits or they end at the very
/// last byte.
pub proof fn law_increment_and_remaining(address: u32, n: u32)
    requires
        address <= CodeAddress::MAX_ALLOWED_ADDR,
    ensures
        ({
            let remaining = CodeAddress::MAX_ALLOWED_ADDR - address + 1;
            &&& n < remaining <==> address + n <= CodeAddress::MAX_ALLOWED_ADDR
            &&& n == remaining <==> address + n == CodeAddress::MAX_ALLOWED_ADDR + 1
        }),
{
}

} // verus!
