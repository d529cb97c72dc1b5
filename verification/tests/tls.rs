use mp_http_server::tls::create_tls_config;

#[test]
fn test_tls_config_creation() {
    let config = create_tls_config();
    assert!(config.is_ok());
    let tls_config = config.unwrap();
    let tls_config = tls_config.server_config();
    assert_eq!(tls_config.alpn_protocols.len(), 2);
    assert_eq!(tls_config.alpn_protocols[0], b"h2");
    assert_eq!(tls_config.alpn_protocols[1], b"http/1.1");
}
