use redis_tls_proxy::config::Config;

fn base_config() -> Config {
    Config {
        listen: "0.0.0.0:16379".to_string(),
        upstream: "127.0.0.1:6379".to_string(),
        cert: None,
        key: None,
        no_tls: false,
        upstream_tls: false,
        upstream_tls_hostname: None,
    }
}

#[test]
fn tls_listener_without_cert_is_rejected() {
    let config = base_config();
    let err = config.validate().unwrap_err();
    assert_eq!(
        err,
        "--cert is required when TLS is enabled (use --no-tls to disable)"
    );
}

#[test]
fn tls_listener_without_key_is_rejected() {
    let mut config = base_config();
    config.cert = Some("proxy.crt".to_string());
    let err = config.validate().unwrap_err();
    assert_eq!(
        err,
        "--key is required when TLS is enabled (use --no-tls to disable)"
    );
}

#[test]
fn tls_listener_with_material_passes() {
    let mut config = base_config();
    config.cert = Some("proxy.crt".to_string());
    config.key = Some("proxy.key".to_string());
    assert!(config.validate().is_ok());
}

#[test]
fn plaintext_listener_needs_no_material() {
    let mut config = base_config();
    config.no_tls = true;
    assert!(config.validate().is_ok());
}

#[test]
fn upstream_hostname_defaults_to_the_host_part() {
    let config = base_config();
    assert_eq!(config.upstream_hostname(), "127.0.0.1");
}

#[test]
fn upstream_hostname_without_port_is_the_whole_address() {
    let mut config = base_config();
    config.upstream = "localhost".to_string();
    assert_eq!(config.upstream_hostname(), "localhost");
}

#[test]
fn upstream_hostname_override_wins() {
    let mut config = base_config();
    config.upstream_tls_hostname = Some("redis.example".to_string());
    assert_eq!(config.upstream_hostname(), "redis.example");
}
