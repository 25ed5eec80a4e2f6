//! Single-instance socket: `crabmd <file>` forwards to a running daemon.
//!
//! One process owns the socket; later calls forward a JSON request line and
//! wait for `ok`. The socket I/O runs outside the library; this module holds
//! the request, the socket's place, and the decisions the I/O loops follow.
use vstd::prelude::*;

use crate::text::utf8;

verus! {

/// A request to open `path` (empty for an untitled window) at an optional
/// line and column. `behavior` is `new`, `existing`, `add` or `reuse`.
#[derive(Debug)]
pub struct OpenRequest {
    pub path: String,
    pub line: Option<usize>,
    pub col: Option<usize>,
    pub behavior: String,
}

impl OpenRequest {
    pub fn new(path: &str, line: Option<usize>, col: Option<usize>, behavior: &str) -> (r: Self)
        ensures
            r.path@ == path@,
            r.line == line,
            r.col == col,
            r.behavior@ == behavior@,
    {
        OpenRequest {
            path: crate::text::owned(path),
            line,
            col,
            behavior: crate::text::owned(behavior),
        }
    }
}

/// `.local/share/crabmd/crabmd.sock`.
pub open spec fn sock_rel() -> Seq<char> {
    ".local/share/crabmd/crabmd.sock"@
}

/// The socket under the home directory `home`, joined as `Path::join`
/// joins a relative path on Unix.
pub open spec fn socket_in(home: Seq<u8>) -> Seq<u8> {
    if home.len() == 0 {
        utf8(sock_rel())
    } else if home.last() == 47 {
        home + utf8(sock_rel())
    } else {
        home + seq![47u8] + utf8(sock_rel())
    }
}

pub fn socket_path_for_home(home: &str) -> (r: String)
    ensures
        utf8(r@) == socket_in(utf8(home@)),
{
    let h = crate::text::bytes_of(home);
    let rel = crate::text::bytes_of(".local/share/crabmd/crabmd.sock");
    let n: usize = h.len();
    let mut out = crate::text::slice_vec(h, 0, n);
    if n > 0 && h[n - 1] != 47 {
        out.push(47);
    }
    let ghost mid = out@;
    crate::text::extend_from(&mut out, rel, 0, rel.len());
    proof {
        assert(h@.subrange(0, n as int) =~= h@);
        assert(rel@.subrange(0, rel@.len() as int) =~= rel@);
        assert(out@ =~= mid + rel@);
        assert(out@ =~= socket_in(h@));
        crate::text::lemma_ascii_valid(seq![47u8]);
        if n > 0 && h@[n - 1] != 47 {
            assert(mid =~= h@ + seq![47u8]);
            crate::text::lemma_valid_concat(h@, seq![47u8]);
        }
        crate::text::lemma_valid_concat(mid, rel@);
    }
    crate::text::string_of_bytes(out)
}

/// The daemon's answer line, trimmed, is `ok`.
pub open spec fn is_ack_line(line: Seq<u8>) -> bool {
    crate::document::trim_bytes(line) == seq![111u8, 107]
}

/// True when the daemon acknowledged the request.
pub fn is_ack(line: &str) -> (r: bool)
    ensures
        r == is_ack_line(utf8(line@)),
{
    let b = crate::text::bytes_of(line);
    let n: usize = b.len();
    let a = crate::text::trim_start_idx(b, 0, n);
    let e = crate::text::trim_end_idx(b, a, n);
    let r = e - a == 2 && b[a] == 111 && b[a + 1] == 107;
    proof {
        let t = crate::document::trim_bytes(b@);
        assert(t =~= b@.subrange(a as int, e as int));
        if r {
            assert(t =~= seq![111u8, 107]);
        }
        if t == seq![111u8, 107] {
            assert(t.len() == 2 && t[0] == 111 && t[1] == 107);
        }
    }
    r
}

/// The request line sent to the daemon: the JSON text, then a line break.
pub open spec fn request_frame(json: Seq<u8>) -> Seq<u8> {
    json.push(10)
}

/// Frames a JSON request for the socket.
pub fn frame_request(json: Vec<u8>) -> (r: Vec<u8>)
    ensures
        r@ == request_frame(json@),
{
    let mut out = json;
    out.push(10);
    out
}

/// What the waiting client does after one forwarding attempt.
#[derive(Debug, Clone, Copy, PartialEq, Eq, Structural)]
pub enum WaitStep {
    /// The daemon answered: done, with success.
    Forwarded,
    /// The time is up: done, without success.
    GiveUp,
    /// Sleep a moment and try again.
    Retry,
}

/// One round of waiting for a daemon that is still starting: stop on an
/// acknowledgement, give up once `elapsed_ms` reaches `timeout_ms`, else retry.
pub fn wait_step(acked: bool, elapsed_ms: u64, timeout_ms: u64) -> (r: WaitStep)
    ensures
        acked ==> r == WaitStep::Forwarded,
        !acked && elapsed_ms >= timeout_ms ==> r == WaitStep::GiveUp,
        !acked && elapsed_ms < timeout_ms ==> r == WaitStep::Retry,
{
    if acked {
        WaitStep::Forwarded
    } else if elapsed_ms >= timeout_ms {
        WaitStep::GiveUp
    } else {
        WaitStep::Retry
    }
}

/// Where taking the socket stands.
#[derive(Debug, Clone, Copy, PartialEq, Eq, Structural)]
pub enum Claim {
    /// First bind attempt pending.
    Binding,
    /// The bind failed; probing whether an owner answers.
    Probing,
    /// No owner answered; the stale file is gone and the bind is retried.
    Rebinding,
    /// This process owns the socket and serves it.
    Serving,
    /// A live owner holds it, or the retry failed: forward instead.
    Deferred,
}

/// What the I/O side reports after doing the step's action.
#[derive(Debug, Clone, Copy, PartialEq, Eq, Structural)]
pub enum ClaimEvent {
    Bound,
    BindFailed,
    Connected,
    ConnectFailed,
}

/// What the I/O side does next.
#[derive(Debug, Clone, Copy, PartialEq, Eq, Structural)]
pub enum ClaimAction {
    /// Accept connections (and clear the cold-start lock).
    Serve,
    /// Try to connect to the socket.
    Probe,
    /// Remove the socket file and bind again.
    RemoveAndRebind,
    /// Stop; the caller forwards instead.
    Stop,
}

/// Stale-socket takeover: a failed bind followed by a failed connect means
/// the owner is gone, so the file is removed and the bind retried once; a
/// connect that succeeds means a live owner, which is left alone.
pub fn claim_step(state: Claim, event: ClaimEvent) -> (r: (Claim, ClaimAction))
    ensures
        r == claim_next(state, event),
        state == Claim::Binding && event == ClaimEvent::Bound ==> r == (Claim::Serving, ClaimAction::Serve),
        state == Claim::Binding && event != ClaimEvent::Bound ==> r == (Claim::Probing, ClaimAction::Probe),
        state == Claim::Probing && event == ClaimEvent::Connected ==> r == (Claim::Deferred, ClaimAction::Stop),
        state == Claim::Probing && event != ClaimEvent::Connected ==> r == (
            Claim::Rebinding,
            ClaimAction::RemoveAndRebind,
        ),
        state == Claim::Rebinding && event == ClaimEvent::Bound ==> r == (Claim::Serving, ClaimAction::Serve),
        state == Claim::Rebinding && event != ClaimEvent::Bound ==> r == (Claim::Deferred, ClaimAction::Stop),
        state == Claim::Serving || state == Claim::Deferred ==> r == (state, ClaimAction::Stop),
{
    match state {
        Claim::Binding => if event == ClaimEvent::Bound {
            (Claim::Serving, ClaimAction::Serve)
        } else {
            (Claim::Probing, ClaimAction::Probe)
        },
        Claim::Probing => if event == ClaimEvent::Connected {
            (Claim::Deferred, ClaimAction::Stop)
        } else {
            (Claim::Rebinding, ClaimAction::RemoveAndRebind)
        },
        Claim::Rebinding => if event == ClaimEvent::Bound {
            (Claim::Serving, ClaimAction::Serve)
        } else {
            (Claim::Deferred, ClaimAction::Stop)
        },
        _ => (state, ClaimAction::Stop),
    }
}

pub open spec fn claim_next(state: Claim, event: ClaimEvent) -> (Claim, ClaimAction) {
    match state {
        Claim::Binding => if event == ClaimEvent::Bound {
            (Claim::Serving, ClaimAction::Serve)
        } else {
            (Claim::Probing, ClaimAction::Probe)
        },
        Claim::Probing => if event == ClaimEvent::Connected {
            (Claim::Deferred, ClaimAction::Stop)
        } else {
            (Claim::Rebinding, ClaimAction::RemoveAndRebind)
        },
        Claim::Rebinding => if event == ClaimEvent::Bound {
            (Claim::Serving, ClaimAction::Serve)
        } else {
            (Claim::Deferred, ClaimAction::Stop)
        },
        _ => (state, ClaimAction::Stop),
    }
}

/// State and actions after the events `ev`, from `state`.
pub open spec fn claim_run(state: Claim, ev: Seq<ClaimEvent>) -> (Claim, Seq<ClaimAction>)
    decreases ev.len(),
{
    if ev.len() == 0 {
        (state, Seq::empty())
    } else {
        let (s1, a) = claim_next(state, ev[0]);
        let (s2, rest) = claim_run(s1, ev.drop_first());
        (s2, seq![a] + rest)
    }
}

/// Once a probe reaches a live owner, the socket is left alone: no later
/// step removes it or serves it.
pub proof fn lemma_live_owner_kept(ev: Seq<ClaimEvent>)
    ensures
        ({
            let (s, acts) = claim_run(Claim::Probing, seq![ClaimEvent::Connected] + ev);
            &&& s == Claim::Deferred
            &&& forall|k: int| 0 <= k < acts.len() ==> #[trigger] acts[k] == ClaimAction::Stop
        }),
{
    let all = seq![ClaimEvent::Connected] + ev;
    assert(all[0] == ClaimEvent::Connected);
    assert(all.drop_first() =~= ev);
    lemma_deferred_stays(ev);
}

proof fn lemma_deferred_stays(ev: Seq<ClaimEvent>)
    ensures
        claim_run(Claim::Deferred, ev).0 == Claim::Deferred,
        forall|k: int|
            0 <= k < claim_run(Claim::Deferred, ev).1.len() ==> #[trigger] claim_run(
                Claim::Deferred,
                ev,
            ).1[k] == ClaimAction::Stop,
    decreases ev.len(),
{
    if ev.len() > 0 {
        lemma_deferred_stays(ev.drop_first());
        let rest = claim_run(Claim::Deferred, ev.drop_first()).1;
        assert forall|k: int| 0 <= k < claim_run(Claim::Deferred, ev).1.len() implies #[trigger] claim_run(
            Claim::Deferred,
            ev,
        ).1[k] == ClaimAction::Stop by {
            if k > 0 {
                assert(claim_run(Claim::Deferred, ev).1[k] == rest[k - 1]);
            }
        }
    }
}

/// The socket is only served after a successful bind.
pub proof fn lemma_serve_needs_bind(state: Claim, event: ClaimEvent)
    ensures
        claim_next(state, event).1 == ClaimAction::Serve ==> event == ClaimEvent::Bound,
{
}

} // verus!
