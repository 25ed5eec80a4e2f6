use crabmd::daemon::{
    claim_step, frame_request, is_ack, socket_path_for_home, wait_step, Claim, ClaimAction,
    ClaimEvent, OpenRequest, WaitStep,
};

#[test]
fn socket_path_joins_home() {
    assert_eq!(
        socket_path_for_home("/Users/me"),
        "/Users/me/.local/share/crabmd/crabmd.sock"
    );
    assert_eq!(
        socket_path_for_home("/tmp"),
        "/tmp/.local/share/crabmd/crabmd.sock"
    );
}

#[test]
fn open_request_keeps_fields() {
    let req = OpenRequest::new("/tmp/notes.md", Some(10), Some(3), "existing");
    assert_eq!(req.path, "/tmp/notes.md");
    assert_eq!(req.line, Some(10));
    assert_eq!(req.col, Some(3));
    assert_eq!(req.behavior, "existing");
}

#[test]
fn ack_is_trimmed_ok() {
    assert!(is_ack("ok\n"));
    assert!(is_ack("  ok "));
    assert!(!is_ack("okay\n"));
    assert!(!is_ack(""));
}

#[test]
fn request_frame_ends_in_newline() {
    assert_eq!(frame_request(b"{}".to_vec()), b"{}\n".to_vec());
}

#[test]
fn waiting_stops_on_ack_or_timeout() {
    assert_eq!(wait_step(true, 9999, 10), WaitStep::Forwarded);
    assert_eq!(wait_step(false, 10, 10), WaitStep::GiveUp);
    assert_eq!(wait_step(false, 3, 10), WaitStep::Retry);
}

#[test]
fn live_owner_is_left_alone() {
    let (s, a) = claim_step(Claim::Binding, ClaimEvent::BindFailed);
    assert_eq!((s, a), (Claim::Probing, ClaimAction::Probe));
    assert_eq!(
        claim_step(s, ClaimEvent::Connected),
        (Claim::Deferred, ClaimAction::Stop)
    );
}

#[test]
fn stale_socket_is_reclaimed() {
    let (s, _) = claim_step(Claim::Binding, ClaimEvent::BindFailed);
    let (s, a) = claim_step(s, ClaimEvent::ConnectFailed);
    assert_eq!(a, ClaimAction::RemoveAndRebind);
    assert_eq!(
        claim_step(s, ClaimEvent::Bound),
        (Claim::Serving, ClaimAction::Serve)
    );
}
