use redis_tls_proxy::session::ConnEvent;
use redis_tls_proxy::session::ConnPhase;

#[test]
fn tls_listener_starts_with_a_handshake() {
    assert_eq!(ConnPhase::start(true), ConnPhase::TlsHandshaking);
}

#[test]
fn plaintext_listener_skips_the_handshake() {
    assert_eq!(ConnPhase::start(false), ConnPhase::UpstreamConnecting);
}

#[test]
fn a_connection_walks_the_whole_path() {
    let phase = ConnPhase::start(true);
    let phase = phase.step(ConnEvent::HandshakeFinished(true));
    assert_eq!(phase, ConnPhase::UpstreamConnecting);
    let phase = phase.step(ConnEvent::ConnectFinished(true));
    assert_eq!(phase, ConnPhase::Proxying);
    let phase = phase.step(ConnEvent::ProxyEnded);
    assert_eq!(phase, ConnPhase::Closed);
}

#[test]
fn a_failed_handshake_closes_without_proxying() {
    let phase = ConnPhase::start(true);
    assert_eq!(
        phase.step(ConnEvent::HandshakeFinished(false)),
        ConnPhase::Closed
    );
}

#[test]
fn a_failed_upstream_connection_closes_without_proxying() {
    let phase = ConnPhase::start(false);
    assert_eq!(
        phase.step(ConnEvent::ConnectFinished(false)),
        ConnPhase::Closed
    );
}
