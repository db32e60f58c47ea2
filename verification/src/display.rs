use vstd::prelude::*;
use vstd::string::StringExecFns;
use crate::message::AgentMessage;
use crate::message::MessageView;
use crate::message::spec_encode;
use crate::message::decode;
use crate::util::dec_str;
use crate::util::u128_to_dec;

verus! {

/// The line shown for a chat message, and for raw text that failed to decode.
pub open spec fn chat_line(peer: Seq<char>, text: Seq<char>) -> Seq<char> {
    "["@ + peer + "] "@ + text
}

/// The lines shown when a peer reports an executed swap.
pub open spec fn swap_line(
    agent: Seq<char>,
    direction: Seq<char>,
    amount: Seq<char>,
    tx_hash: Seq<char>,
) -> Seq<char> {
    "[SWAP] Agent "@ + agent + " swapped "@ + amount + " ("@ + direction + ") tx: "@ + tx_hash
        + "\n  https://sepolia.etherscan.io/tx/"@ + tx_hash
}

/// The line shown when a peer requests a swap.
pub open spec fn request_line(peer: Seq<char>, direction: Seq<char>, amount: Seq<char>) -> Seq<
    char,
> {
    "[REQUEST] Peer "@ + peer + " requests swap: "@ + amount + " ("@ + direction + ")"@
}

/// What an inbound message is rendered as, by variant.
pub open spec fn rendered(peer: Seq<char>, m: MessageView) -> Seq<char> {
    match m {
        MessageView::Chat { content } => chat_line(peer, content),
        MessageView::SwapExecuted { agent, direction, amount, tx_hash } => swap_line(
            agent,
            direction,
            amount,
            tx_hash,
        ),
        MessageView::SwapRequest { direction, amount } => request_line(peer, direction, amount),
    }
}

/// The raw-text display used when inbound bytes are not a wire form.
pub fn fallback_line(peer: &str, text: &str) -> (s: String)
    ensures
        s@ == chat_line(peer@, text@),
{
    let mut s = String::new();
    s.append("[");
    s.append(peer);
    s.append("] ");
    s.append(text);
    proof {
        assert(s@ =~= chat_line(peer@, text@));
    }
    s
}

/// Renders one inbound payload for display. A decoded message is shown by its
/// variant; anything else falls back to the raw text, so no inbound payload
/// is ever an error.
pub fn render_inbound(peer: &str, data: &str) -> (s: String)
    ensures
        forall|m: MessageView| data@ == spec_encode(m) ==> s@ == rendered(peer@, m),
        (forall|m: MessageView| data@ != spec_encode(m)) ==> s@ == chat_line(peer@, data@),
{
    match decode(data) {
        Ok(msg) => {
            let s = match &msg {
                AgentMessage::Chat { content } => fallback_line(peer, content.as_str()),
                AgentMessage::SwapExecuted { agent, direction, amount, tx_hash } => {
                    let mut s = String::new();
                    s.append("[SWAP] Agent ");
                    s.append(agent.as_str());
                    s.append(" swapped ");
                    s.append(amount.as_str());
                    s.append(" (");
                    s.append(direction.as_str());
                    s.append(") tx: ");
                    s.append(tx_hash.as_str());
                    s.append("\n  https://sepolia.etherscan.io/tx/");
                    s.append(tx_hash.as_str());
                    proof {
                        assert(s@ =~= swap_line(agent@, direction@, amount@, tx_hash@));
                    }
                    s
                },
                AgentMessage::SwapRequest { direction, amount } => {
                    let mut s = String::new();
                    s.append("[REQUEST] Peer ");
                    s.append(peer);
                    s.append(" requests swap: ");
                    s.append(amount.as_str());
                    s.append(" (");
                    s.append(direction.as_str());
                    s.append(")");
                    proof {
                        assert(s@ =~= request_line(peer@, direction@, amount@));
                    }
                    s
                },
            };
            proof {
                assert(s@ == rendered(peer@, msg@));
            }
            s
        },
        Err(_) => fallback_line(peer, data),
    }
}

/// The status line showing both on-chain swap counters.
pub open spec fn counts_line(pool: int, agent: int) -> Seq<char> {
    "Pool total swaps: "@ + dec_str(pool) + " | Your agent swaps: "@ + dec_str(agent)
}

/// Formats the two swap counters as the status line.
pub fn format_counts(pool: u128, agent: u128) -> (s: String)
    ensures
        s@ == counts_line(pool as int, agent as int),
{
    let mut s = String::new();
    s.append("Pool total swaps: ");
    let p = u128_to_dec(pool);
    s.append(p.as_str());
    s.append(" | Your agent swaps: ");
    let a = u128_to_dec(agent);
    s.append(a.as_str());
    proof {
        assert(s@ =~= counts_line(pool as int, agent as int));
    }
    s
}

/// The direction label that commands and published messages show.
pub fn direction_label(zero_for_one: bool) -> (s: String)
    ensures
        zero_for_one ==> s@ == "TKNA -> TKNB"@,
        !zero_for_one ==> s@ == "TKNB -> TKNA"@,
{
    if zero_for_one {
        String::from_str("TKNA -> TKNB")
    } else {
        String::from_str("TKNB -> TKNA")
    }
}

/// The command list shown for `help`.
pub fn help_text() -> (s: String)
    ensures
        s@ == "Commands:\n  dial <multiaddr> - Connect to a peer (e.g. /ip4/127.0.0.1/tcp/PORT)\n  swap <amount>    - Swap TKNA -> TKNB\n  swap-b <amount>  - Swap TKNB -> TKNA\n  status           - Query on-chain swap counts\n  help             - Show this message\n  <text>           - Send chat message to peers"@,
{
    String::from_str(
        "Commands:\n  dial <multiaddr> - Connect to a peer (e.g. /ip4/127.0.0.1/tcp/PORT)\n  swap <amount>    - Swap TKNA -> TKNB\n  swap-b <amount>  - Swap TKNB -> TKNA\n  status           - Query on-chain swap counts\n  help             - Show this message\n  <text>           - Send chat message to peers",
    )
}

} // verus!
