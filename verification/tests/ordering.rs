use std::path::PathBuf;

use ordserv::ordering::{decode_frame, encode_frame, notification_frame, FRAME_SIZE, FederateId, HookId, HookInvocation, Precedence, PrecedenceId};
use ordserv::server::{route_frame, PrecedenceSummary, ServerAction, ServerEvent, ServerPhase, ServerState};

fn short(h: &HookInvocation) -> (String, i32, u32) {
    (h.hid.0.clone(), h.hid.1 .0, h.seqnum.0)
}

#[test]
fn hook_invocations_from_their_short_form() {
    let h = HookInvocation::from_short(("hook", 2, 7));
    assert_eq!(short(&h), ("hook".to_string(), 2, 7));
    assert!(h.same(&h.duplicate()));
    assert!(!h.same(&HookInvocation::from_short(("hook", 2, 8))));
    let id = HookId::new("x".to_string(), FederateId(-1));
    assert_eq!(id.0, "x");
    assert_eq!(id.1, FederateId(-1));
}

#[test]
fn a_notification_frame_names_its_invocation() {
    let h = HookInvocation::from_short(("after_send", 3, 11));
    let f = notification_frame(PrecedenceId(5), FederateId(3), &h);
    assert_eq!(f.precedence_id, 5);
    assert_eq!(f.federate_id, 3);
    assert_eq!(f.sequence_number, 11);
    assert_eq!(&f.hook_id[..10], b"after_send");
    assert!(f.hook_id[10..].iter().all(|b| *b == 0));
    let back = f.hook_invocation();
    assert_eq!(short(&back), ("after_send".to_string(), 3, 11));
    assert_eq!(f.hid().0, "after_send");
}

fn precedence() -> Precedence {
    Precedence::from_list(
        2,
        &[
            (("a", 0, 1), &[("b", 1, 1), ("c", 1, 2)][..]),
            (("d", 1, 4), &[("a", 0, 2)][..]),
            (("a", 0, 1), &[("e", 0, 9)][..]),
        ],
        PathBuf::from("scratch"),
    )
}

#[test]
fn later_entries_for_a_sender_win() {
    let p = precedence();
    assert_eq!(p.n_connections, 2);
    let ws = p.waiters_of(&HookInvocation::from_short(("a", 0, 1))).unwrap();
    assert_eq!(ws.iter().map(short).collect::<Vec<_>>(), vec![("e".to_string(), 0, 9)]);
    assert!(p.waiters_of(&HookInvocation::from_short(("b", 1, 1))).is_none());
}

#[test]
fn notifiers_and_waiters() {
    let p = precedence();
    let mut notify: Vec<_> = p.requires_notify().iter().map(short).collect();
    notify.sort();
    notify.dedup();
    assert_eq!(notify, vec![("a".to_string(), 0, 1), ("d".to_string(), 1, 4)]);
    let mut wait: Vec<_> = p.requires_ok_to_proceed().iter().map(short).collect();
    wait.sort();
    wait.dedup();
    assert_eq!(wait, vec![("a".to_string(), 0, 2), ("e".to_string(), 0, 9)]);
}

#[test]
fn frames_go_to_the_federates_of_the_waiters() {
    let p = precedence();
    let f = notification_frame(PrecedenceId(0), FederateId(1), &HookInvocation::from_short(("d", 1, 4)));
    assert_eq!(route_frame(&p, &f), Some(vec![FederateId(0)]));
    let g = notification_frame(PrecedenceId(0), FederateId(1), &HookInvocation::from_short(("b", 1, 1)));
    assert_eq!(route_frame(&p, &g), None);
}

#[test]
fn the_server_connects_then_forwards() {
    let mut s = ServerState::new();
    assert_eq!(s.phase, ServerPhase::AwaitingPrecedence);
    let a = s.step(ServerEvent::Precedence(Some(PrecedenceSummary { n_connections: 2, run_id: 7 })));
    assert_eq!(a, vec![ServerAction::SendAck, ServerAction::RequestConnections(2)]);
    let a = s.step(ServerEvent::Connection { fedid: FederateId(0), run_id: 6, ok: true });
    assert_eq!(a, vec![ServerAction::RejectWrongRun]);
    let a = s.step(ServerEvent::Connection { fedid: FederateId(0), run_id: 7, ok: false });
    assert_eq!(a, vec![ServerAction::RejectFailed]);
    let a = s.step(ServerEvent::Connection { fedid: FederateId(0), run_id: 7, ok: true });
    assert_eq!(a, vec![ServerAction::Accept(FederateId(0))]);
    let a = s.step(ServerEvent::Connection { fedid: FederateId(1), run_id: 7, ok: true });
    assert_eq!(a, vec![ServerAction::Accept(FederateId(1)), ServerAction::StartForwarding]);
    assert_eq!(s.phase, ServerPhase::Forwarding { run_id: 7 });
    assert_eq!(s.n_successful_connections, 2);
    let a = s.step(ServerEvent::Precedence(None));
    assert_eq!(a, vec![ServerAction::HaltForwarding, ServerAction::Finish]);
    assert_eq!(s.phase, ServerPhase::Done);
    assert!(s.n_successful_connections <= s.n_attempted_connections);
}

#[test]
fn a_precedence_without_connections_forwards_at_once() {
    let mut s = ServerState::new();
    let a = s.step(ServerEvent::Precedence(Some(PrecedenceSummary { n_connections: 0, run_id: 1 })));
    assert_eq!(
        a,
        vec![ServerAction::SendAck, ServerAction::RequestConnections(0), ServerAction::StartForwarding]
    );
}

#[test]
fn a_frame_name_reads_back_whatever_its_characters() {
    for name in ["é", "héllo wörld", "éééééééééééééééé", "abcdefghijklmnopqrstuvwxyz012345"] {
        let h = HookInvocation::from_short((name, 2, 7));
        let f = notification_frame(PrecedenceId(1), FederateId(2), &h);
        let back = f.hook_invocation();
        assert_eq!(short(&back), (name.to_string(), 2, 7));
    }
}

#[test]
fn frames_go_over_the_wire_and_back() {
    let h = HookInvocation::from_short(("after_send", -3, 0x0102_0304));
    let f = notification_frame(PrecedenceId(0x0a0b_0c0d), FederateId(-3), &h);
    let bytes = encode_frame(&f);
    assert_eq!(bytes.len(), FRAME_SIZE);
    assert_eq!(&bytes[0..4], &[0x0d, 0x0c, 0x0b, 0x0a]);
    assert_eq!(&bytes[4..8], &(-3i32).to_le_bytes());
    assert_eq!(&bytes[8..18], b"after_send");
    assert_eq!(&bytes[40..44], &[0x04, 0x03, 0x02, 0x01]);
    let g = decode_frame(&bytes);
    assert_eq!(g.precedence_id, f.precedence_id);
    assert_eq!(g.federate_id, -3);
    assert_eq!(g.hook_id, f.hook_id);
    assert_eq!(g.sequence_number, f.sequence_number);
    assert!(g.hook_name_is_text());
    let mut bad = f;
    bad.hook_id[0] = 0xff;
    assert!(!bad.hook_name_is_text());
}

#[test]
fn connection_variables_are_named_by_federate() {
    assert_eq!(ordserv::server::evar_name_for(FederateId(3)), "ORDSERV_CONNECTION_3");
    assert_eq!(ordserv::server::evar_name_for(FederateId(-1)), "ORDSERV_CONNECTION_-1");
}
