//! Per-connection lifecycle.
//!
//! Every accepted socket walks one path: optional client-side TLS
//! handshake, then the upstream connection attempt, then the relay, then
//! closure. A failure at any step closes this one connection and nothing
//! else; a connection that fails its handshake or its upstream connection
//! never reaches the relay.

use vstd::prelude::*;

verus! {

/// Where a connection stands.
#[derive(Clone, Copy, Debug, PartialEq, Eq, Structural)]
pub enum ConnPhase {
    /// The socket was accepted and nothing was done yet.
    Accepted,
    /// The client-side TLS handshake is running.
    TlsHandshaking,
    /// The upstream connection (with its optional handshake) is running.
    UpstreamConnecting,
    /// Bytes are being relayed in both directions.
    Proxying,
    /// The connection is finished; its resources can go.
    Closed,
}

/// What the outside work reports back.
#[derive(Clone, Copy, Debug, PartialEq, Eq, Structural)]
pub enum ConnEvent {
    /// The client-side TLS handshake finished, well or badly.
    HandshakeFinished(bool),
    /// The upstream connection attempt finished, well or badly.
    ConnectFinished(bool),
    /// The relay loop ended: a side closed, or a read or write failed.
    ProxyEnded,
}

impl ConnPhase {
    /// The phase an accepted connection starts in: the TLS handshake when
    /// the listener speaks TLS, else straight to the upstream connection.
    pub open spec fn spec_start(listener_tls: bool) -> ConnPhase {
        if listener_tls {
            ConnPhase::TlsHandshaking
        } else {
            ConnPhase::UpstreamConnecting
        }
    }

    /// The transition table. A failed handshake or connection attempt
    /// closes the connection without ever reaching the relay; an event
    /// that does not belong to the phase also closes it.
    pub open spec fn spec_step(self, event: ConnEvent) -> ConnPhase {
        match (self, event) {
            (ConnPhase::TlsHandshaking, ConnEvent::HandshakeFinished(true)) =>
                ConnPhase::UpstreamConnecting,
            (ConnPhase::UpstreamConnecting, ConnEvent::ConnectFinished(true)) =>
                ConnPhase::Proxying,
            _ => ConnPhase::Closed,
        }
    }

    /// Enter the lifecycle for a freshly accepted socket.
    pub fn start(listener_tls: bool) -> (r: ConnPhase)
        ensures
            r == ConnPhase::spec_start(listener_tls),
    {
        if listener_tls {
            ConnPhase::TlsHandshaking
        } else {
            ConnPhase::UpstreamConnecting
        }
    }

    /// Advance on an event from the outside work.
    pub fn step(self, event: ConnEvent) -> (r: ConnPhase)
        ensures
            r == self.spec_step(event),
    {
        match (self, event) {
            (ConnPhase::TlsHandshaking, ConnEvent::HandshakeFinished(true)) =>
                ConnPhase::UpstreamConnecting,
            (ConnPhase::UpstreamConnecting, ConnEvent::ConnectFinished(true)) =>
                ConnPhase::Proxying,
            _ => ConnPhase::Closed,
        }
    }
}

/// A connection that fails before the relay never proxies: from any
/// phase, a failed handshake or failed upstream connection steps straight
/// to `Closed`.
pub proof fn lemma_failure_closes(phase: ConnPhase)
    ensures
        phase.spec_step(ConnEvent::HandshakeFinished(false)) == ConnPhase::Closed,
        phase.spec_step(ConnEvent::ConnectFinished(false)) == ConnPhase::Closed,
{
}

} // verus!
