use vstd::prelude::*;

verus! {

/// A 160-bit contract address, split into its high 32 bits and low 128 bits.
#[derive(Clone, Copy, PartialEq, Eq, Structural, Debug)]
pub struct Addr {
    pub hi: u32,
    pub lo: u128,
}

/// The address as one nonnegative integer.
pub open spec fn addr_val(a: Addr) -> int {
    a.hi as int * 0x1_0000_0000_0000_0000_0000_0000_0000_0000 + a.lo as int
}

pub proof fn lemma_addr_lex(a: Addr, b: Addr)
    ensures
        (addr_val(a) < addr_val(b)) == (a.hi < b.hi || (a.hi == b.hi && a.lo < b.lo)),
{
    assert((addr_val(a) < addr_val(b)) == (a.hi < b.hi || (a.hi == b.hi && a.lo < b.lo)))
        by (nonlinear_arith)
        requires
            a.lo < 0x1_0000_0000_0000_0000_0000_0000_0000_0000,
            b.lo < 0x1_0000_0000_0000_0000_0000_0000_0000_0000,
            addr_val(a) == a.hi as int * 0x1_0000_0000_0000_0000_0000_0000_0000_0000 + a.lo as int,
            addr_val(b) == b.hi as int * 0x1_0000_0000_0000_0000_0000_0000_0000_0000 + b.lo as int,
    ;
}

/// Numeric (byte-lexicographic) address ordering.
pub fn addr_lt(a: &Addr, b: &Addr) -> (r: bool)
    ensures
        r == (addr_val(*a) < addr_val(*b)),
{
    proof {
        lemma_addr_lex(*a, *b);
    }
    a.hi < b.hi || (a.hi == b.hi && a.lo < b.lo)
}

/// The first fixed test-network token contract.
pub open spec fn tkna_spec() -> Addr {
    Addr { hi: 0x7546360e, lo: 0x0011Bb0B52ce10E21eF0E9341453fE71 }
}

/// The second fixed test-network token contract.
pub open spec fn tknb_spec() -> Addr {
    Addr { hi: 0xF6d91478, lo: 0xe66CE8161e15Da103003F3BA6d2bab80 }
}

/// The fixed swap router contract.
pub open spec fn swap_router_spec() -> Addr {
    Addr { hi: 0xf13D190e, lo: 0x9117920c703d79B5F33732e10049b115 }
}

/// The fixed hook contract that also tracks swap counters.
pub open spec fn hook_spec() -> Addr {
    Addr { hi: 0x5D4505AA, lo: 0x950a73379B8E9f1116976783Ba8340C0 }
}

pub fn tkna() -> (a: Addr)
    ensures
        a == tkna_spec(),
{
    Addr { hi: 0x7546360e, lo: 0x0011Bb0B52ce10E21eF0E9341453fE71 }
}

pub fn tknb() -> (a: Addr)
    ensures
        a == tknb_spec(),
{
    Addr { hi: 0xF6d91478, lo: 0xe66CE8161e15Da103003F3BA6d2bab80 }
}

pub fn swap_router() -> (a: Addr)
    ensures
        a == swap_router_spec(),
{
    Addr { hi: 0xf13D190e, lo: 0x9117920c703d79B5F33732e10049b115 }
}

pub fn hook() -> (a: Addr)
    ensures
        a == hook_spec(),
{
    Addr { hi: 0x5D4505AA, lo: 0x950a73379B8E9f1116976783Ba8340C0 }
}

} // verus!
