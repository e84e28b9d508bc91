//! The decisions of the ordering server for one stream of precedences: when to acknowledge a
//! precedence, which connections to accept, when to start and stop forwarding frames, and to
//! which federates each frame goes.
use vstd::prelude::*;
use vstd::utf8::*;
use crate::ordering::{
    invocation_views, name_bytes, FederateId, Frame, HookInvocationView, Precedence,
};
use crate::text::{chars_of, extend_chars, int_text, signed_decimal_chars, string_from_chars};

verus! {

/// The name of the environment variable that tells federate `fedid` its connection to the
/// server: `ORDSERV_CONNECTION_` and the federate's number.
pub fn evar_name_for(fedid: FederateId) -> (r: String)
    ensures
        r@ == "ORDSERV_CONNECTION_"@ + int_text(fedid.0 as int),
{
    let mut v = chars_of("ORDSERV_CONNECTION_");
    extend_chars(&mut v, &signed_decimal_chars(fedid.0 as i64));
    string_from_chars(&v)
}

/// Where the server is in handling its stream of precedences.
#[derive(Debug, Clone, Copy, PartialEq, Eq, Structural)]
pub enum ServerPhase {
    /// Waiting for the first precedence.
    AwaitingPrecedence,
    /// Waiting for the federates of the current run to connect.
    Connecting { expected: usize, connected: usize, run_id: u32 },
    /// All federates are connected; frames are being forwarded.
    Forwarding { run_id: u32 },
    /// The stream of precedences has ended.
    Done,
}

/// What the server needs of a precedence: how many federates will connect, and for which run.
#[derive(Debug, Clone, Copy, PartialEq, Eq, Structural)]
pub struct PrecedenceSummary {
    pub n_connections: usize,
    pub run_id: u32,
}

/// What happened outside the server.
#[derive(Debug, Clone, Copy, PartialEq, Eq, Structural)]
pub enum ServerEvent {
    /// A new precedence (its number of connections and run), or the end of the stream.
    Precedence(Option<PrecedenceSummary>),
    /// A federate connected for the given run; `ok` says whether the connection could be used.
    Connection { fedid: FederateId, run_id: u32, ok: bool },
}

/// What the server does in response.
#[derive(Debug, Clone, Copy, PartialEq, Eq, Structural)]
pub enum ServerAction {
    /// Acknowledge the precedence with the environment for the clients.
    SendAck,
    /// Ask the connection provider for this many connections.
    RequestConnections(usize),
    /// Keep the connection of this federate.
    Accept(FederateId),
    /// Drop a connection that belongs to another run.
    RejectWrongRun,
    /// Drop a connection that could not be used.
    RejectFailed,
    /// Start reading frames from every connection and forwarding them.
    StartForwarding,
    /// Stop forwarding and give the connections back.
    HaltForwarding,
    /// The stream has ended.
    Finish,
}

/// The state of the server for one stream of precedences.
#[derive(Debug, Clone, Copy, PartialEq, Eq, Structural)]
pub struct ServerState {
    pub phase: ServerPhase,
    pub n_successful_connections: usize,
    pub n_attempted_connections: usize,
}

/// The effect of receiving a precedence (or the end of the stream) in state `s`, where nothing is
/// being forwarded.
pub open spec fn on_precedence(s: ServerState, p: Option<PrecedenceSummary>) -> (ServerState, Seq<ServerAction>) {
    match p {
        None => (ServerState { phase: ServerPhase::Done, ..s }, seq![ServerAction::Finish]),
        Some(PrecedenceSummary { n_connections: n, run_id }) => {
            let attempted = (s.n_attempted_connections + n) as usize;
            if n == 0 {
                (
                    ServerState {
                        phase: ServerPhase::Forwarding { run_id },
                        n_attempted_connections: attempted,
                        ..s
                    },
                    seq![
                        ServerAction::SendAck,
                        ServerAction::RequestConnections(0),
                        ServerAction::StartForwarding,
                    ],
                )
            } else {
                (
                    ServerState {
                        phase: ServerPhase::Connecting { expected: n, connected: 0, run_id },
                        n_attempted_connections: attempted,
                        ..s
                    },
                    seq![ServerAction::SendAck, ServerAction::RequestConnections(n)],
                )
            }
        },
    }
}

/// The transition of the server on an event.
pub open spec fn server_next(s: ServerState, e: ServerEvent) -> (ServerState, Seq<ServerAction>) {
    match (s.phase, e) {
        (ServerPhase::AwaitingPrecedence, ServerEvent::Precedence(p)) => on_precedence(s, p),
        (ServerPhase::Connecting { .. }, ServerEvent::Precedence(p)) => on_precedence(s, p),
        (ServerPhase::Forwarding { .. }, ServerEvent::Precedence(p)) => {
            let r = on_precedence(s, p);
            (r.0, seq![ServerAction::HaltForwarding] + r.1)
        },
        (
            ServerPhase::Connecting { expected, connected, run_id },
            ServerEvent::Connection { fedid, run_id: conn_run, ok },
        ) => if conn_run != run_id {
            (s, seq![ServerAction::RejectWrongRun])
        } else if !ok {
            (s, seq![ServerAction::RejectFailed])
        } else if connected + 1 == expected {
            (
                ServerState {
                    phase: ServerPhase::Forwarding { run_id },
                    n_successful_connections: (s.n_successful_connections + 1) as usize,
                    ..s
                },
                seq![ServerAction::Accept(fedid), ServerAction::StartForwarding],
            )
        } else {
            (
                ServerState {
                    phase: ServerPhase::Connecting {
                        expected,
                        connected: (connected + 1) as usize,
                        run_id,
                    },
                    n_successful_connections: (s.n_successful_connections + 1) as usize,
                    ..s
                },
                seq![ServerAction::Accept(fedid)],
            )
        },
        _ => (s, Seq::empty()),
    }
}

/// What the server does on a new precedence (or the end of the stream) while it waits for one,
/// connects or forwards: it first halts forwarding if, and only if, it was forwarding (and halts
/// it once); then, at the end of the stream, it finishes; on a precedence it acknowledges it,
/// asks for its connections, and starts forwarding at once if it needs none, else waits for
/// them; the run's connections are counted as attempted.
pub proof fn lemma_precedence_response(s: ServerState, p: Option<PrecedenceSummary>)
    requires
        s.phase is AwaitingPrecedence || s.phase is Connecting || s.phase is Forwarding,
        step_fits(s, ServerEvent::Precedence(p)),
    ensures
        ({
            let r = server_next(s, ServerEvent::Precedence(p));
            let acts = r.1;
            let k: int = if s.phase is Forwarding { 1 } else { 0 };
            &&& (s.phase is Forwarding) ==> acts.len() >= 1 && acts[0] == ServerAction::HaltForwarding
            &&& forall|i: int| k <= i < acts.len() ==> acts[i] != ServerAction::HaltForwarding
            &&& (p is None ==> {
                &&& acts.len() == k + 1
                &&& acts[k] == ServerAction::Finish
                &&& r.0.phase == ServerPhase::Done
            })
            &&& (p matches Some(q) ==> {
                &&& acts.len() >= k + 2
                &&& acts[k] == ServerAction::SendAck
                &&& acts[k + 1] == ServerAction::RequestConnections(q.n_connections)
                &&& r.0.n_attempted_connections == s.n_attempted_connections + q.n_connections
                &&& r.0.n_successful_connections == s.n_successful_connections
                &&& (q.n_connections == 0 ==> {
                    &&& acts.len() == k + 3
                    &&& acts[k + 2] == ServerAction::StartForwarding
                    &&& r.0.phase == ServerPhase::Forwarding { run_id: q.run_id }
                })
                &&& (q.n_connections > 0 ==> {
                    &&& acts.len() == k + 2
                    &&& r.0.phase == ServerPhase::Connecting {
                        expected: q.n_connections,
                        connected: 0,
                        run_id: q.run_id,
                    }
                })
            })
        }),
{
    let r = on_precedence(s, p);
    if s.phase is Forwarding {
        let acts = seq![ServerAction::HaltForwarding] + r.1;
        assert forall|i: int| 1 <= i < acts.len() implies acts[i] == r.1[i - 1] by {}
    }
}

/// What the server does with a connection while it connects the federates of run `run_id`: a
/// connection of another run is rejected as such, and one that failed is rejected as failed,
/// both leaving the state as it was; any other is accepted and counted, and forwarding starts
/// exactly when it is the last one expected.
pub proof fn lemma_connection_response(s: ServerState, fedid: FederateId, conn_run: u32, ok: bool)
    requires
        s.phase is Connecting,
        s.n_successful_connections < usize::MAX,
    ensures
        ({
            let expected = s.phase->expected;
            let connected = s.phase->connected;
            let run_id = s.phase->Connecting_run_id;
            let r = server_next(s, ServerEvent::Connection { fedid, run_id: conn_run, ok });
            &&& conn_run != run_id ==> r.0 == s && r.1 == seq![ServerAction::RejectWrongRun]
            &&& (conn_run == run_id && !ok) ==> r.0 == s && r.1 == seq![ServerAction::RejectFailed]
            &&& (conn_run == run_id && ok) ==> {
                &&& r.1[0] == ServerAction::Accept(fedid)
                &&& r.0.n_successful_connections == s.n_successful_connections + 1
                &&& r.0.n_attempted_connections == s.n_attempted_connections
                &&& (connected + 1 == expected) ==> r.1 == seq![ServerAction::Accept(fedid), ServerAction::StartForwarding]
                    && r.0.phase == ServerPhase::Forwarding { run_id }
                &&& (connected + 1 != expected) ==> r.1 == seq![ServerAction::Accept(fedid)]
                    && r.0.phase == ServerPhase::Connecting { expected, connected: (connected + 1) as usize, run_id }
            }
        }),
{
}

/// The counters of the server leave room for the event.
pub open spec fn step_fits(s: ServerState, e: ServerEvent) -> bool {
    match e {
        ServerEvent::Precedence(Some(PrecedenceSummary { n_connections: n, .. })) => s.n_attempted_connections + n <= usize::MAX,
        _ => true,
    }
}

/// What holds of every state the server reaches: a connecting phase expects at least one
/// connection and has not yet received them all, and no more connections have succeeded than
/// have been attempted.
pub open spec fn server_inv(s: ServerState) -> bool {
    &&& s.n_successful_connections <= s.n_attempted_connections
    &&& match s.phase {
        ServerPhase::Connecting { expected, connected, .. } => {
            &&& connected < expected
            &&& s.n_successful_connections + (expected - connected) <= s.n_attempted_connections
        },
        _ => true,
    }
}

impl ServerState {
    /// The state before the first precedence.
    pub fn new() -> (r: ServerState)
        ensures
            r.phase == ServerPhase::AwaitingPrecedence,
            r.n_successful_connections == 0,
            r.n_attempted_connections == 0,
            server_inv(r),
    {
        ServerState {
            phase: ServerPhase::AwaitingPrecedence,
            n_successful_connections: 0,
            n_attempted_connections: 0,
        }
    }

    fn receive_precedence(&mut self, p: Option<PrecedenceSummary>, actions: &mut Vec<ServerAction>)
        requires
            step_fits(*old(self), ServerEvent::Precedence(p)),
        ensures
            *final(self) == on_precedence(*old(self), p).0,
            final(actions)@ == old(actions)@ + on_precedence(*old(self), p).1,
    {
        match p {
            None => {
                self.phase = ServerPhase::Done;
                actions.push(ServerAction::Finish);
            },
            Some(PrecedenceSummary { n_connections: n, run_id }) => {
                self.n_attempted_connections = self.n_attempted_connections + n;
                actions.push(ServerAction::SendAck);
                actions.push(ServerAction::RequestConnections(n));
                if n == 0 {
                    self.phase = ServerPhase::Forwarding { run_id };
                    actions.push(ServerAction::StartForwarding);
                } else {
                    self.phase = ServerPhase::Connecting { expected: n, connected: 0, run_id };
                }
            },
        }
        proof {
            assert(actions@ =~= old(actions)@ + on_precedence(*old(self), p).1);
        }
    }

    /// Handles an event: updates the state and says what to do.
    pub fn step(&mut self, e: ServerEvent) -> (actions: Vec<ServerAction>)
        requires
            server_inv(*old(self)),
            step_fits(*old(self), e),
        ensures
            (*final(self), actions@) == server_next(*old(self), e),
    {
        let mut actions: Vec<ServerAction> = Vec::new();
        match (self.phase, e) {
            (ServerPhase::AwaitingPrecedence, ServerEvent::Precedence(p)) => {
                self.receive_precedence(p, &mut actions);
            },
            (ServerPhase::Connecting { .. }, ServerEvent::Precedence(p)) => {
                self.receive_precedence(p, &mut actions);
            },
            (ServerPhase::Forwarding { .. }, ServerEvent::Precedence(p)) => {
                actions.push(ServerAction::HaltForwarding);
                self.receive_precedence(p, &mut actions);
            },
            (
                ServerPhase::Connecting { expected, connected, run_id },
                ServerEvent::Connection { fedid, run_id: conn_run, ok },
            ) => {
                if conn_run != run_id {
                    actions.push(ServerAction::RejectWrongRun);
                } else if !ok {
                    actions.push(ServerAction::RejectFailed);
                } else {
                    self.n_successful_connections = self.n_successful_connections + 1;
                    actions.push(ServerAction::Accept(fedid));
                    if connected + 1 == expected {
                        self.phase = ServerPhase::Forwarding { run_id };
                        actions.push(ServerAction::StartForwarding);
                    } else {
                        self.phase = ServerPhase::Connecting {
                            expected,
                            connected: connected + 1,
                            run_id,
                        };
                    }
                }
            },
            _ => {},
        }
        proof {
            assert(actions@ =~= server_next(*old(self), e).1);
        }
        actions
    }
}

/// Every step keeps the server's invariant: a connecting phase always waits for at least one more
/// connection, and successful connections never outnumber attempted ones.
pub proof fn lemma_server_inv_preserved(s: ServerState, e: ServerEvent)
    requires
        server_inv(s),
        step_fits(s, e),
    ensures
        server_inv(server_next(s, e).0),
{
}

/// The federates to which a frame is forwarded: those of the invocations that wait for the
/// invocation the frame announces; `None` where that invocation is no sender.
pub fn route_frame(precedence: &Precedence, frame: &Frame) -> (r: Option<Vec<FederateId>>)
    requires
        precedence.wf(),
        valid_utf8(name_bytes(frame.hook_id@)),
    ensures
        r is Some <==> exists|h: HookInvocationView|
            encode_utf8(h.0) == name_bytes(frame.hook_id@) && h.1 == frame.federate_id && h.2
                == frame.sequence_number && #[trigger] precedence.waiters().contains_key(h),
        r matches Some(feds) ==> exists|h: HookInvocationView|
            encode_utf8(h.0) == name_bytes(frame.hook_id@) && h.1 == frame.federate_id && h.2
                == frame.sequence_number && #[trigger] precedence.waiters().contains_key(h) && feds@
                == precedence.waiters()[h].map_values(|w: HookInvocationView| FederateId(w.1)),
{
    let hi = frame.hook_invocation();
    proof {
        assert forall|h: HookInvocationView|
            encode_utf8(h.0) == name_bytes(frame.hook_id@) && h.1 == frame.federate_id && h.2
                == frame.sequence_number implies h == hi.view() by {
            encode_utf8_decode_utf8(h.0);
            encode_utf8_decode_utf8(hi.hid.0@);
        }
    }
    match precedence.waiters_of(&hi) {
        None => None,
        Some(ws) => {
            let mut feds: Vec<FederateId> = Vec::new();
            let mut i: usize = 0;
            while i < ws.len()
                invariant
                    i <= ws@.len(),
                    feds@ == invocation_views(ws@).take(i as int).map_values(
                        |w: HookInvocationView| FederateId(w.1),
                    ),
                decreases ws@.len() - i,
            {
                feds.push(ws[i].hid.1);
                proof {
                    assert(feds@ =~= invocation_views(ws@).take(i + 1).map_values(
                        |w: HookInvocationView| FederateId(w.1),
                    ));
                }
                i += 1;
            }
            proof {
                assert(invocation_views(ws@).take(ws@.len() as int) =~= invocation_views(ws@));
            }
            Some(feds)
        },
    }
}

} // verus!
