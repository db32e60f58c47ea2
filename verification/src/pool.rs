use vstd::prelude::*;
use crate::addr::Addr;
use crate::addr::addr_val;
use crate::addr::lemma_addr_lex;
use crate::addr::tkna_spec;
use crate::addr::tknb_spec;
use crate::addr::hook_spec;
use crate::addr::tkna;
use crate::addr::tknb;
use crate::addr::hook;

verus! {

/// Identifying parameters of the fixed liquidity pool: the two traded tokens,
/// the fee tier, the tick spacing, and the hook contract.
#[derive(Clone, Copy, PartialEq, Eq, Structural, Debug)]
pub struct PoolKey {
    pub currency0: Addr,
    pub currency1: Addr,
    pub fee: u32,
    pub tick_spacing: i32,
    pub hooks: Addr,
}

/// The one pool this agent trades against: the fixed token pair at the 0.30%
/// fee tier with tick spacing 60 and the fixed hook contract.
pub open spec fn pool_key_spec() -> PoolKey {
    PoolKey {
        currency0: tkna_spec(),
        currency1: tknb_spec(),
        fee: 3000,
        tick_spacing: 60,
        hooks: hook_spec(),
    }
}

/// A pool key is well formed when its currencies are strictly ordered and the
/// fee and tick spacing fit the on-chain uint24 and int24 fields.
pub open spec fn pool_key_wf(k: PoolKey) -> bool {
    &&& addr_val(k.currency0) < addr_val(k.currency1)
    &&& k.fee < 0x100_0000
    &&& -0x80_0000 <= k.tick_spacing < 0x80_0000
}

/// Law: the fixed pool key always orders its currencies (`currency0 < currency1`),
/// charges the 0.30% fee tier, spaces ticks at 60, and names the fixed hook.
pub proof fn lemma_pool_key_well_formed()
    ensures
        pool_key_wf(pool_key_spec()),
        pool_key_spec().currency0 == tkna_spec(),
        pool_key_spec().currency1 == tknb_spec(),
        pool_key_spec().fee == 3000,
        pool_key_spec().tick_spacing == 60,
        pool_key_spec().hooks == hook_spec(),
{
    lemma_addr_lex(tkna_spec(), tknb_spec());
}

/// Builds the fixed pool key. It is recomputed on demand and never stored.
pub fn pool_key() -> (k: PoolKey)
    ensures
        k == pool_key_spec(),
        pool_key_wf(k),
{
    proof {
        lemma_pool_key_well_formed();
    }
    PoolKey {
        currency0: tkna(),
        currency1: tknb(),
        fee: 3000,
        tick_spacing: 60,
        hooks: hook(),
    }
}

} // verus!
