//! The forwarder and the decisions of its receive loop.
//!
//! The relay itself is a loop around a datagram socket: bind, then receive
//! and forward until a receive fails. Everything that loop decides — which
//! bytes of a received datagram are forwarded, which faults are fatal and
//! which are tolerated — is a pure function here. [`Forwarder::step`] maps
//! the current [`RelayState`] and an observed [`Event`] to the next state
//! and an [`Action`] for the surrounding program to carry out; the socket
//! work itself stays outside the library.

use vstd::prelude::*;
use crate::addr::Endpoint;
use crate::addr::is_endpoint_text;
use crate::addr::parse_endpoint;

verus! {

/// The error kinds of the relay.
///
/// `InvalidAddress` and `BindError` are fatal at construction and startup,
/// `ReceiveError` is the one fault that ends the running loop, and
/// `SendError` classifies a single failed forward attempt, which is
/// tolerated: it never stops the relay.
#[derive(Clone, Copy, PartialEq, Eq, Structural, Debug)]
pub enum RelayError {
    InvalidAddress,
    BindError,
    ReceiveError,
    SendError,
}

/// The phase of the relay: not yet bound, receiving, or ended by a fatal
/// error.
#[derive(Clone, Copy, PartialEq, Eq, Structural, Debug)]
pub enum RelayState {
    Starting,
    Running,
    Stopped { err: RelayError },
}

/// One observation the surrounding program reports to the relay.
///
/// `Received` carries the receive buffer and the reported byte count of a
/// datagram; `SendCompleted` reports the outcome of one earlier forward
/// attempt.
#[derive(Debug)]
pub enum Event {
    BindSucceeded,
    BindFailed,
    Received { data: Vec<u8>, len: usize },
    RecvFailed,
    SendCompleted { ok: bool },
}

/// What the surrounding program must do next: nothing, forward a payload
/// to the given destination concurrently, or stop with a fatal error.
#[derive(Debug)]
pub enum Action {
    Continue,
    Forward { payload: Vec<u8>, dest: Endpoint },
    Stop { err: RelayError },
}

/// The smaller of two integers.
pub open spec fn min2(a: int, b: int) -> int {
    if a <= b {
        a
    } else {
        b
    }
}

/// The bytes of a received datagram that the relay captures and forwards:
/// the prefix of the buffer bounded by the reported byte count, by the
/// buffer itself and by the configured capacity.
pub open spec fn captured(data: Seq<u8>, len: int, cap: int) -> Seq<u8> {
    data.take(min2(min2(len, data.len() as int), cap))
}

/// The state transition of the relay.
///
/// Binding moves `Starting` to `Running`; a bind failure is fatal. While
/// running, only a failed receive stops the relay; received datagrams and
/// send outcomes — failed or not — leave it running. A stopped relay stays
/// stopped. An event out of phase changes nothing.
pub open spec fn next_state(state: RelayState, event: Event) -> RelayState {
    match state {
        RelayState::Starting => match event {
            Event::BindSucceeded => RelayState::Running,
            Event::BindFailed => RelayState::Stopped { err: RelayError::BindError },
            _ => RelayState::Starting,
        },
        RelayState::Running => match event {
            Event::RecvFailed => RelayState::Stopped { err: RelayError::ReceiveError },
            _ => RelayState::Running,
        },
        RelayState::Stopped { .. } => state,
    }
}

/// The state the relay reaches after observing a sequence of events, one
/// [`next_state`] transition per event.
pub open spec fn run_states(state: RelayState, events: Seq<Event>) -> RelayState
    decreases events.len(),
{
    if events.len() == 0 {
        state
    } else {
        run_states(next_state(state, events[0]), events.drop_first())
    }
}

/// A datagram no larger than the buffer is captured whole: the forwarded
/// bytes equal the received bytes exactly.
pub proof fn lemma_capture_fidelity(data: Seq<u8>, cap: int)
    requires
        data.len() <= cap,
    ensures
        captured(data, data.len() as int, cap) == data,
{
    assert(captured(data, data.len() as int, cap) =~= data);
}

/// A datagram larger than the buffer is truncated, not refused: exactly the
/// first `cap` bytes are captured.
pub proof fn lemma_capture_truncates(data: Seq<u8>, cap: int)
    requires
        0 <= cap < data.len(),
    ensures
        captured(data, data.len() as int, cap) == data.take(cap),
        captured(data, data.len() as int, cap).len() == cap,
{
}

/// At most `cap` bytes are ever captured, whatever the buffer and the
/// reported count hold.
pub proof fn lemma_capture_bounded(data: Seq<u8>, len: int, cap: int)
    requires
        0 <= len,
        0 <= cap,
    ensures
        captured(data, len, cap).len() <= cap,
{
}

/// A relay that has stopped stays stopped, whatever else is observed: after
/// a fatal error no event re-enters the receive loop.
pub proof fn lemma_stopped_is_final(err: RelayError, events: Seq<Event>)
    ensures
        run_states(RelayState::Stopped { err }, events) == (RelayState::Stopped { err }),
    decreases events.len(),
{
    if events.len() > 0 {
        lemma_stopped_is_final(err, events.drop_first());
    }
}

/// A bind failure at startup is fatal before any receive: the relay moves
/// straight to `Stopped { BindError }` and no later event brings it to
/// `Running`.
pub proof fn lemma_bind_failure_is_fatal(events: Seq<Event>)
    ensures
        run_states(next_state(RelayState::Starting, Event::BindFailed), events) == (
        RelayState::Stopped { err: RelayError::BindError }),
{
    lemma_stopped_is_final(RelayError::BindError, events);
}

/// The relay keeps running through any burst of received datagrams and any
/// send outcomes, failed or not: only a failed receive stops it. In
/// particular, receiving the next datagram never waits on the completion of
/// an earlier forward.
pub proof fn lemma_runs_until_recv_failure(events: Seq<Event>)
    requires
        forall|i: int| 0 <= i < events.len() ==> !(#[trigger] events[i] is RecvFailed),
    ensures
        run_states(RelayState::Running, events) is Running,
    decreases events.len(),
{
    if events.len() > 0 {
        assert(next_state(RelayState::Running, events[0]) is Running);
        lemma_runs_until_recv_failure(events.drop_first());
    }
}

/// A failed forward attempt is never fatal: no transition ends in
/// `Stopped { SendError }`, so a relay that was not already in that state
/// never reaches it.
pub proof fn lemma_send_error_never_fatal(state: RelayState, events: Seq<Event>)
    requires
        state != (RelayState::Stopped { err: RelayError::SendError }),
    ensures
        run_states(state, events) != (RelayState::Stopped { err: RelayError::SendError }),
    decreases events.len(),
{
    if events.len() > 0 {
        lemma_send_error_never_fatal(next_state(state, events[0]), events.drop_first());
    }
}

/// The relay and its configuration: the two endpoints and the per-packet
/// buffer size.
pub struct Forwarder {
    pub listen_addr: Endpoint,
    pub target_addr: Endpoint,
    pub buffer_size: usize,
}

impl Forwarder {
    /// Parse the two endpoint strings and build a forwarder.
    ///
    /// Succeeds exactly when both strings are well-formed `ip:port` texts;
    /// any malformed string yields `InvalidAddress`. The buffer size is
    /// taken as given.
    pub fn new(listen_addr: &str, target_addr: &str, buffer_size: usize) -> (r: Result<
        Forwarder,
        RelayError,
    >)
        ensures
            match r {
                Ok(f) => {
                    &&& is_endpoint_text(listen_addr@, f.listen_addr)
                    &&& is_endpoint_text(target_addr@, f.target_addr)
                    &&& f.buffer_size == buffer_size
                },
                Err(e) => {
                    &&& e == RelayError::InvalidAddress
                    &&& (forall|ep: Endpoint| !is_endpoint_text(listen_addr@, ep)) || (forall|
                        ep: Endpoint,
                    | !is_endpoint_text(target_addr@, ep))
                },
            },
    {
        let listen = match parse_endpoint(listen_addr) {
            Some(ep) => ep,
            None => {
                return Err(RelayError::InvalidAddress);
            },
        };
        let target = match parse_endpoint(target_addr) {
            Some(ep) => ep,
            None => {
                return Err(RelayError::InvalidAddress);
            },
        };
        Ok(Forwarder { listen_addr: listen, target_addr: target, buffer_size })
    }

    /// Decide the relay's reaction to one event.
    ///
    /// The next state is [`next_state`]. A datagram received while running
    /// is answered with a `Forward` action whose payload is exactly the
    /// [`captured`] prefix of the buffer and whose destination is the
    /// configured target; a failed receive stops the relay with
    /// `ReceiveError`; a bind failure stops it with `BindError`; every
    /// other event — a send outcome above all — asks for nothing.
    pub fn step(&self, state: RelayState, event: Event) -> (r: (RelayState, Action))
        ensures
            r.0 == next_state(state, event),
            event matches Event::Received { data, len } ==> (state is Running ==> (
            r.1 matches Action::Forward { payload, dest } && payload@ == captured(
                data@,
                len as int,
                self.buffer_size as int,
            ) && dest == self.target_addr)),
            (state is Running && event is RecvFailed) ==> r.1 == (Action::Stop {
                err: RelayError::ReceiveError,
            }),
            (state is Starting && event is BindFailed) ==> r.1 == (Action::Stop {
                err: RelayError::BindError,
            }),
            (r.1 is Forward) <==> (state is Running && event is Received),
            (r.1 is Stop) <==> ((state is Running && event is RecvFailed) || (state is Starting
                && event is BindFailed)),
    {
        match state {
            RelayState::Starting => match event {
                Event::BindSucceeded => (RelayState::Running, Action::Continue),
                Event::BindFailed => (
                    RelayState::Stopped { err: RelayError::BindError },
                    Action::Stop { err: RelayError::BindError },
                ),
                _ => (RelayState::Starting, Action::Continue),
            },
            RelayState::Running => match event {
                Event::Received { mut data, len } => {
                    let ghost data0 = data@;
                    let bound = if len <= data.len() {
                        len
                    } else {
                        data.len()
                    };
                    let keep = if bound <= self.buffer_size {
                        bound
                    } else {
                        self.buffer_size
                    };
                    data.truncate(keep);
                    proof {
                        assert(data@ =~= captured(data0, len as int, self.buffer_size as int));
                    }
                    (RelayState::Running, Action::Forward { payload: data, dest: self.target_addr })
                },
                Event::RecvFailed => (
                    RelayState::Stopped { err: RelayError::ReceiveError },
                    Action::Stop { err: RelayError::ReceiveError },
                ),
                _ => (RelayState::Running, Action::Continue),
            },
            RelayState::Stopped { err } => (RelayState::Stopped { err }, Action::Continue),
        }
    }
}

} // verus!
