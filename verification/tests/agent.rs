use swap_agent::addr::{hook, swap_router, tkna, tknb, Addr};
use swap_agent::cmd::{parse_command, prepare_swap_amount, Command};
use swap_agent::display::{direction_label, fallback_line, format_counts, help_text, render_inbound};
use swap_agent::mesh::{MeshEvent, PeerSet};
use swap_agent::message::{decode, encode, AgentMessage, DecodeError};
use swap_agent::swap::{swap_result_payload, SwapAction, SwapClient, SwapStep, SwapWorkflow};
use swap_agent::topic;

#[test]
fn topic_constant() {
    assert_eq!(topic(), "v4-swap-agents");
}

#[test]
fn chat_message_roundtrip() {
    let msg = AgentMessage::Chat {
        content: "hello".into(),
    };
    let json = encode(&msg);
    let decoded = decode(&json).unwrap();
    match decoded {
        AgentMessage::Chat { content } => assert_eq!(content, "hello"),
        _ => panic!("wrong variant"),
    }
}

#[test]
fn swap_executed_roundtrip() {
    let msg = AgentMessage::SwapExecuted {
        agent: "peer1".into(),
        direction: "A→B".into(),
        amount: "100".into(),
        tx_hash: "0xabc".into(),
    };
    let json = encode(&msg);
    let decoded = decode(&json).unwrap();
    match decoded {
        AgentMessage::SwapExecuted {
            agent,
            direction,
            amount,
            tx_hash,
        } => {
            assert_eq!(agent, "peer1");
            assert_eq!(direction, "A→B");
            assert_eq!(amount, "100");
            assert_eq!(tx_hash, "0xabc");
        }
        _ => panic!("wrong variant"),
    }
}

#[test]
fn swap_request_roundtrip() {
    let msg = AgentMessage::SwapRequest {
        direction: "B→A".into(),
        amount: "50".into(),
    };
    let json = encode(&msg);
    let decoded = decode(&json).unwrap();
    match decoded {
        AgentMessage::SwapRequest { direction, amount } => {
            assert_eq!(direction, "B→A");
            assert_eq!(amount, "50");
        }
        _ => panic!("wrong variant"),
    }
}

#[test]
fn serialized_json_has_type_tag() {
    let chat: serde_json::Value = serde_json::from_str(&encode(&AgentMessage::Chat {
        content: "hi".into(),
    }))
    .unwrap();
    assert_eq!(chat["type"], "Chat");

    let exec: serde_json::Value = serde_json::from_str(&encode(&AgentMessage::SwapExecuted {
        agent: "a".into(),
        direction: "d".into(),
        amount: "1".into(),
        tx_hash: "0x".into(),
    }))
    .unwrap();
    assert_eq!(exec["type"], "SwapExecuted");

    let req: serde_json::Value = serde_json::from_str(&encode(&AgentMessage::SwapRequest {
        direction: "d".into(),
        amount: "1".into(),
    }))
    .unwrap();
    assert_eq!(req["type"], "SwapRequest");
}

#[test]
fn wire_form_is_exact() {
    let json = encode(&AgentMessage::Chat {
        content: "hello".into(),
    });
    assert_eq!(json, "{\"type\":\"Chat\",\"content\":\"hello\"}");
    let json = encode(&AgentMessage::SwapRequest {
        direction: "d".into(),
        amount: "1".into(),
    });
    assert_eq!(json, "{\"type\":\"SwapRequest\",\"direction\":\"d\",\"amount\":\"1\"}");
}

#[test]
fn wire_form_escapes_to_valid_json() {
    let content = "a \"quoted\" \\ back\tslash\nand control";
    let msg = AgentMessage::Chat {
        content: content.into(),
    };
    let json = encode(&msg);
    let v: serde_json::Value = serde_json::from_str(&json).unwrap();
    assert_eq!(v["content"], content);
    match decode(&json).unwrap() {
        AgentMessage::Chat { content: c } => assert_eq!(c, content),
        _ => panic!("wrong variant"),
    }
}

#[test]
fn decode_rejects_garbage() {
    assert!(matches!(decode("not json at all"), Err(DecodeError::Malformed)));
    assert!(matches!(decode(""), Err(DecodeError::Malformed)));
    assert!(matches!(decode("{\"type\":\"Chat\"}"), Err(DecodeError::Malformed)));
    assert!(matches!(
        decode("{\"type\":\"Chat\",\"content\":\"x\"}trailing"),
        Err(DecodeError::Malformed)
    ));
    assert!(matches!(
        decode("{\"type\":\"Other\",\"content\":\"x\"}"),
        Err(DecodeError::Malformed)
    ));
    // only the canonical wire form is accepted: reshaped JSON is not
    assert!(matches!(
        decode("{ \"type\": \"Chat\", \"content\": \"x\" }"),
        Err(DecodeError::Malformed)
    ));
    assert!(matches!(
        decode("{\"content\":\"x\",\"type\":\"Chat\"}"),
        Err(DecodeError::Malformed)
    ));
}

#[test]
fn inbound_garbage_falls_back_to_text() {
    let line = render_inbound("peerX", "plain words");
    assert_eq!(line, "[peerX] plain words");
    assert_eq!(fallback_line("peerX", "plain words"), "[peerX] plain words");
}

#[test]
fn inbound_chat_scenario() {
    // one node publishes a chat; a subscriber decodes and shows it
    let payload = encode(&AgentMessage::Chat {
        content: "hello".into(),
    });
    match decode(&payload).unwrap() {
        AgentMessage::Chat { content } => assert_eq!(content, "hello"),
        _ => panic!("wrong variant"),
    }
    let line = render_inbound("peer1", &payload);
    assert_eq!(line, "[peer1] hello");
}

#[test]
fn contract_address_tkna() {
    assert_eq!(
        tkna(),
        Addr {
            hi: 0x7546360e,
            lo: 0x0011Bb0B52ce10E21eF0E9341453fE71,
        }
    );
}

#[test]
fn contract_address_tknb() {
    assert_eq!(
        tknb(),
        Addr {
            hi: 0xF6d91478,
            lo: 0xe66CE8161e15Da103003F3BA6d2bab80,
        }
    );
}

#[test]
fn contract_address_swap_router() {
    assert_eq!(
        swap_router(),
        Addr {
            hi: 0xf13D190e,
            lo: 0x9117920c703d79B5F33732e10049b115,
        }
    );
}

#[test]
fn contract_address_hook() {
    assert_eq!(
        hook(),
        Addr {
            hi: 0x5D4505AA,
            lo: 0x950a73379B8E9f1116976783Ba8340C0,
        }
    );
}

#[test]
fn swap_client_new_does_not_panic() {
    let _client = SwapClient::new("http://localhost:8545".into(), "0xdead".into());
}

#[test]
fn pool_key_fee() {
    let key = SwapClient::pool_key();
    assert_eq!(key.fee, 3000);
}

#[test]
fn pool_key_tick_spacing() {
    let key = SwapClient::pool_key();
    assert_eq!(key.tick_spacing, 60);
}

#[test]
fn pool_key_token_ordering() {
    let key = SwapClient::pool_key();
    assert!(
        (key.currency0.hi, key.currency0.lo) < (key.currency1.hi, key.currency1.lo),
        "currency0 must be < currency1"
    );
    assert_eq!(key.currency0, tkna());
    assert_eq!(key.currency1, tknb());
}

#[test]
fn pool_key_hook_address() {
    let key = SwapClient::pool_key();
    assert_eq!(key.hooks, hook());
}

#[test]
fn swap_command_scales_amount() {
    match parse_command("swap 5") {
        Command::Swap {
            zero_for_one,
            amount,
        } => {
            assert!(zero_for_one);
            assert_eq!(amount, "5");
            assert_eq!(
                prepare_swap_amount(&amount),
                Some(5_000_000_000_000_000_000u128)
            );
        }
        _ => panic!("wrong command"),
    }
}

#[test]
fn swap_command_rejects_bad_amount() {
    match parse_command("swap abc") {
        Command::Swap {
            zero_for_one,
            amount,
        } => {
            assert!(zero_for_one);
            assert_eq!(amount, "abc");
            // the rejected amount triggers no chain work at all
            assert_eq!(prepare_swap_amount(&amount), None);
        }
        _ => panic!("wrong command"),
    }
    assert_eq!(prepare_swap_amount(""), None);
    assert_eq!(prepare_swap_amount("18446744073709551615"), Some(18446744073709551615u128 * 1_000_000_000_000_000_000));
    assert_eq!(prepare_swap_amount("18446744073709551616"), None);
    assert_eq!(prepare_swap_amount("007"), Some(7_000_000_000_000_000_000u128));
}

#[test]
fn command_words() {
    assert!(matches!(parse_command("help"), Command::Help));
    assert!(matches!(parse_command("  status  "), Command::Status));
    assert!(matches!(parse_command(""), Command::Empty));
    assert!(matches!(parse_command("   "), Command::Empty));
    assert!(matches!(parse_command("dial"), Command::DialUsage));
    match parse_command("dial /ip4/127.0.0.1/tcp/52178") {
        Command::Dial { addr } => assert_eq!(addr, "/ip4/127.0.0.1/tcp/52178"),
        _ => panic!("wrong command"),
    }
    match parse_command("swap-b 2") {
        Command::Swap {
            zero_for_one,
            amount,
        } => {
            assert!(!zero_for_one);
            assert_eq!(amount, "2");
        }
        _ => panic!("wrong command"),
    }
    match parse_command("swap") {
        Command::Swap { amount, .. } => assert_eq!(amount, "1"),
        _ => panic!("wrong command"),
    }
    match parse_command("hello everyone") {
        Command::Chat { content } => assert_eq!(content, "hello everyone"),
        _ => panic!("wrong command"),
    }
}

#[test]
fn swap_workflow_happy_path() {
    let (w, action) = SwapWorkflow::new(5_000_000_000_000_000_000, true).begin();
    match action {
        SwapAction::SubmitApproval { token, spender } => {
            assert_eq!(token, tkna());
            assert_eq!(spender, swap_router());
        }
        _ => panic!("wrong action"),
    }
    let w = w.on_approval_result(true);
    assert!(matches!(w.step, SwapStep::Approved));
    let (w, action) = w.submit_swap(1_000_000);
    match action {
        SwapAction::SubmitSwap {
            amount,
            min_out,
            zero_for_one,
            key,
            deadline,
        } => {
            assert_eq!(amount, 5_000_000_000_000_000_000);
            assert_eq!(min_out, 0);
            assert!(zero_for_one);
            assert_eq!(key, SwapClient::pool_key());
            assert_eq!(deadline, 1_003_600);
        }
        _ => panic!("wrong action"),
    }
    // the hash of the swap receipt, not the approval's, is what is kept
    let w = w.on_swap_result(Ok("0xswaphash".to_string()));
    match w.step {
        SwapStep::Confirmed { tx_hash } => assert_eq!(tx_hash, "0xswaphash"),
        _ => panic!("wrong step"),
    }
}

#[test]
fn swap_workflow_failures_are_distinguished() {
    let (w, _) = SwapWorkflow::new(1, false).begin();
    let failed_early = w.on_approval_result(false);
    match failed_early.step {
        SwapStep::Failed { after_approval } => assert!(!after_approval),
        _ => panic!("wrong step"),
    }

    let (w, _) = SwapWorkflow::new(1, false).begin();
    let (w, _) = w.on_approval_result(true).submit_swap(0);
    let failed_late = w.on_swap_result(Err(()));
    match failed_late.step {
        SwapStep::Failed { after_approval } => assert!(after_approval),
        _ => panic!("wrong step"),
    }
}

#[test]
fn successful_swap_publishes_swap_executed() {
    let payload = swap_result_payload("peer1", true, "5", "0xswaphash");
    match decode(&payload).unwrap() {
        AgentMessage::SwapExecuted {
            agent,
            direction,
            amount,
            tx_hash,
        } => {
            assert_eq!(agent, "peer1");
            assert_eq!(direction, "TKNA -> TKNB");
            assert_eq!(amount, "5");
            assert_eq!(tx_hash, "0xswaphash");
        }
        _ => panic!("wrong variant"),
    }
}

#[test]
fn direction_labels() {
    assert_eq!(direction_label(true), "TKNA -> TKNB");
    assert_eq!(direction_label(false), "TKNB -> TKNA");
}

#[test]
fn counts_line_format() {
    assert_eq!(
        format_counts(3, 1),
        "Pool total swaps: 3 | Your agent swaps: 1"
    );
    assert_eq!(
        format_counts(0, 0),
        "Pool total swaps: 0 | Your agent swaps: 0"
    );
    assert_eq!(
        format_counts(1234567890123, 42),
        "Pool total swaps: 1234567890123 | Your agent swaps: 42"
    );
}

#[test]
fn help_text_lists_commands() {
    let h = help_text();
    assert!(h.contains("dial <multiaddr>"));
    assert!(h.contains("swap <amount>"));
    assert!(h.contains("swap-b <amount>"));
    assert!(h.contains("status"));
}

#[test]
fn rendered_swap_executed_line() {
    let payload = swap_result_payload("agentA", false, "7", "0xfeed");
    let line = render_inbound("peer9", &payload);
    assert_eq!(
        line,
        "[SWAP] Agent agentA swapped 7 (TKNB -> TKNA) tx: 0xfeed\n  https://sepolia.etherscan.io/tx/0xfeed"
    );
}

#[test]
fn rendered_swap_request_line() {
    let payload = encode(&AgentMessage::SwapRequest {
        direction: "TKNA -> TKNB".into(),
        amount: "3".into(),
    });
    let line = render_inbound("peer2", &payload);
    assert_eq!(
        line,
        "[REQUEST] Peer peer2 requests swap: 3 (TKNA -> TKNB)"
    );
}

#[test]
fn peer_admission_policy() {
    let mut ps = PeerSet::new();
    let alice = "12D3alice".to_string();
    let bob = "12D3bob".to_string();
    assert!(!ps.contains_peer(&alice));

    ps.apply_event(MeshEvent::Discovered {
        peer: alice.clone(),
    });
    assert!(ps.contains_peer(&alice));

    // adding twice keeps one entry; an established connection also admits
    ps.apply_event(MeshEvent::Discovered {
        peer: alice.clone(),
    });
    ps.apply_event(MeshEvent::ConnectionEstablished { peer: bob.clone() });
    assert!(ps.contains_peer(&alice));
    assert!(ps.contains_peer(&bob));

    // a closed connection does not expel the peer — deliberate asymmetry
    ps.apply_event(MeshEvent::ConnectionClosed { peer: bob.clone() });
    assert!(ps.contains_peer(&bob));

    // discovery expiry does
    ps.apply_event(MeshEvent::Expired { peer: bob.clone() });
    assert!(!ps.contains_peer(&bob));
    assert!(ps.contains_peer(&alice));
}
