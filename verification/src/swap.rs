use vstd::prelude::*;
use vstd::string::StringExecFns;
use crate::addr::Addr;
use crate::addr::tkna;
use crate::addr::tknb;
use crate::addr::swap_router;
use crate::addr::tkna_spec;
use crate::addr::tknb_spec;
use crate::addr::swap_router_spec;
use crate::pool::PoolKey;
use crate::pool::pool_key;
use crate::pool::pool_key_spec;
use crate::pool::pool_key_wf;
use crate::message::enc_swap_executed;
use crate::message::encode;
use crate::message::AgentMessage;
use crate::display::direction_label;

verus! {

/// Holds the process configuration a swap or counter query needs. Each call
/// builds its own signer and chain client from these; nothing is pooled.
pub struct SwapClient {
    pub rpc_url: String,
    pub private_key: String,
}

impl SwapClient {
    pub fn new(rpc_url: String, private_key: String) -> (c: SwapClient)
        ensures
            c.rpc_url == rpc_url,
            c.private_key == private_key,
    {
        SwapClient { rpc_url, private_key }
    }

    /// The fixed pool this client trades against.
    pub fn pool_key() -> (k: PoolKey)
        ensures
            k == pool_key_spec(),
            pool_key_wf(k),
    {
        pool_key()
    }
}

/// Where a swap stands. `Failed` is absorbing and records whether the
/// approval had already taken effect on chain: a failed swap after a
/// successful approval leaves a real allowance behind.
pub enum SwapStep {
    Init,
    Approving,
    Approved,
    Swapping,
    Confirmed { tx_hash: String },
    Failed { after_approval: bool },
}

/// The next on-chain transaction the driver must submit.
pub enum SwapAction {
    /// Grant the router an unlimited allowance on the given token.
    SubmitApproval { token: Addr, spender: Addr },
    /// Call the router's exact-input swap with these arguments, empty hook
    /// data, and the signer's own address as receiver.
    SubmitSwap { amount: u128, min_out: u128, zero_for_one: bool, key: PoolKey, deadline: u64 },
}

/// One swap invocation: approve the input token, then swap, with a deadline
/// an hour past submission. No slippage protection: the minimum output is
/// zero by design.
pub struct SwapWorkflow {
    pub step: SwapStep,
    pub amount: u128,
    pub zero_for_one: bool,
}

impl SwapWorkflow {
    pub fn new(amount: u128, zero_for_one: bool) -> (w: SwapWorkflow)
        ensures
            w.step is Init,
            w.amount == amount,
            w.zero_for_one == zero_for_one,
    {
        SwapWorkflow { step: SwapStep::Init, amount, zero_for_one }
    }

    /// Starts the workflow: the input token, chosen by direction, must grant
    /// the router an allowance first.
    pub fn begin(self) -> (r: (SwapWorkflow, SwapAction))
        requires
            self.step is Init,
        ensures
            r.0.step is Approving,
            r.0.amount == self.amount,
            r.0.zero_for_one == self.zero_for_one,
            r.1 matches SwapAction::SubmitApproval { token, spender } && token == (
            if self.zero_for_one {
                tkna_spec()
            } else {
                tknb_spec()
            }) && spender == swap_router_spec(),
    {
        let token = if self.zero_for_one {
            tkna()
        } else {
            tknb()
        };
        let w = SwapWorkflow { step: SwapStep::Approving, ..self };
        (w, SwapAction::SubmitApproval { token, spender: swap_router() })
    }

    /// Records the approval receipt. A failure here aborts the workflow
    /// before any allowance took effect.
    pub fn on_approval_result(self, ok: bool) -> (w: SwapWorkflow)
        requires
            self.step is Approving,
        ensures
            w.amount == self.amount,
            w.zero_for_one == self.zero_for_one,
            ok ==> w.step is Approved,
            !ok ==> (w.step matches SwapStep::Failed { after_approval } && !after_approval),
    {
        if ok {
            SwapWorkflow { step: SwapStep::Approved, ..self }
        } else {
            SwapWorkflow { step: SwapStep::Failed { after_approval: false }, ..self }
        }
    }

    /// Submits the swap itself: the exact input amount, a zero minimum
    /// output, the fixed pool key, and a deadline an hour from now.
    pub fn submit_swap(self, now: u64) -> (r: (SwapWorkflow, SwapAction))
        requires
            self.step is Approved,
            now + 3600 <= u64::MAX,
        ensures
            r.0.step is Swapping,
            r.0.amount == self.amount,
            r.0.zero_for_one == self.zero_for_one,
            r.1 matches SwapAction::SubmitSwap { amount, min_out, zero_for_one, key, deadline }
                && amount == self.amount && min_out == 0 && zero_for_one == self.zero_for_one
                && key == pool_key_spec() && deadline == now + 3600,
    {
        let action = SwapAction::SubmitSwap {
            amount: self.amount,
            min_out: 0,
            zero_for_one: self.zero_for_one,
            key: pool_key(),
            deadline: now + 3600,
        };
        let w = SwapWorkflow { step: SwapStep::Swapping, ..self };
        (w, action)
    }

    /// Records the swap receipt. A confirmed workflow carries exactly the
    /// swap transaction's hash — never the approval's. A failure here leaves
    /// the on-chain allowance of the approval step behind, which the state
    /// records.
    pub fn on_swap_result(self, outcome: Result<String, ()>) -> (w: SwapWorkflow)
        requires
            self.step is Swapping,
        ensures
            w.amount == self.amount,
            w.zero_for_one == self.zero_for_one,
            outcome matches Ok(h) ==> (w.step matches SwapStep::Confirmed { tx_hash } && tx_hash
                == h),
            outcome is Err ==> (w.step matches SwapStep::Failed { after_approval } && after_approval),
    {
        match outcome {
            Ok(tx_hash) => SwapWorkflow { step: SwapStep::Confirmed { tx_hash }, ..self },
            Err(_) => SwapWorkflow { step: SwapStep::Failed { after_approval: true }, ..self },
        }
    }
}

/// Builds the one notification published after a successful swap: it embeds
/// the local identity, the human-readable direction, the original unscaled
/// amount, and the swap transaction's hash, already in wire form.
pub fn swap_result_payload(agent: &str, zero_for_one: bool, amount: &str, tx_hash: &str) -> (p:
    String)
    ensures
        p@ == enc_swap_executed(
            agent@,
            if zero_for_one {
                "TKNA -> TKNB"@
            } else {
                "TKNB -> TKNA"@
            },
            amount@,
            tx_hash@,
        ),
{
    let msg = AgentMessage::SwapExecuted {
        agent: String::from_str(agent),
        direction: direction_label(zero_for_one),
        amount: String::from_str(amount),
        tx_hash: String::from_str(tx_hash),
    };
    encode(&msg)
}

} // verus!
