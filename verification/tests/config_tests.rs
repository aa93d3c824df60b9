use cluster_agent::config::{
    expand_shorthand_address, get_format, parse_overrides, ConfigFormat, LoggingConfig,
    TlsConfig, TlsConfigError,
};

fn tls(
    enabled: bool,
    cert: Option<&str>,
    key: Option<&str>,
    ca: Option<&str>,
    client_auth: Option<&str>,
) -> TlsConfig {
    TlsConfig {
        enabled,
        cert_file: cert.map(|s| s.as_bytes().to_vec()),
        key_file: key.map(|s| s.as_bytes().to_vec()),
        ca_file: ca.map(|s| s.as_bytes().to_vec()),
        client_auth: client_auth.map(|s| s.as_bytes().to_vec()),
    }
}

#[test]
fn test_tls_enabled_without_cert_files_fails() {
    let cfg = tls(true, None, None, None, None);
    assert_eq!(cfg.validate(), Err(TlsConfigError::CertAndKeyRequired));
    let cfg = tls(true, Some("cert.pem"), None, None, None);
    assert_eq!(cfg.validate(), Err(TlsConfigError::CertAndKeyRequired));
    let cfg = tls(true, None, Some("key.pem"), None, None);
    assert_eq!(cfg.validate(), Err(TlsConfigError::CertAndKeyRequired));
}

#[test]
fn test_tls_require_and_verify_without_ca_fails() {
    let cfg = tls(
        true,
        Some("cert.pem"),
        Some("key.pem"),
        None,
        Some("require-and-verify"),
    );
    assert_eq!(cfg.validate(), Err(TlsConfigError::CaRequired));
}

#[test]
fn test_tls_enabled_with_all_files_succeeds() {
    let cfg = tls(
        true,
        Some("cert.pem"),
        Some("key.pem"),
        Some("ca.pem"),
        Some("require-and-verify"),
    );
    assert_eq!(cfg.validate(), Ok(()));
    let cfg = tls(true, Some("cert.pem"), Some("key.pem"), None, None);
    assert_eq!(cfg.validate(), Ok(()));
    let cfg = tls(false, None, None, None, None);
    assert_eq!(cfg.validate(), Ok(()));
}

#[test]
fn logging_defaults_match_the_agent() {
    let cfg = LoggingConfig::default();
    assert!(cfg.enabled);
    assert_eq!(cfg.level, b"info".to_vec());
    assert_eq!(cfg.format, b"json".to_vec());
}

#[test]
fn test_parse_shorthand_address() {
    assert_eq!(expand_shorthand_address(b":50051"), b"[::]:50051".to_vec());
    assert_eq!(expand_shorthand_address(b"127.0.0.1:50051"), b"127.0.0.1:50051".to_vec());
    assert_eq!(expand_shorthand_address(b":abc"), b":abc".to_vec());
    assert_eq!(expand_shorthand_address(b":"), b":".to_vec());
}

#[test]
fn test_parse_with_overrides() {
    assert_eq!(
        parse_overrides(b"logging.level:debug"),
        Some((b"logging.level".to_vec(), b"debug".to_vec()))
    );
    assert_eq!(
        parse_overrides(b"addr::50052"),
        Some((b"addr".to_vec(), b":50052".to_vec()))
    );
    assert_eq!(parse_overrides(b"no-colon"), None);
}

#[test]
fn test_parse_json_format() {
    assert_eq!(get_format(b"agent.json"), Some(ConfigFormat::Json));
    assert_eq!(get_format(b"agent.JSON"), Some(ConfigFormat::Json));
    assert_eq!(get_format(b"agent.json5"), Some(ConfigFormat::Json5));
}

#[test]
fn test_parse_toml_format() {
    assert_eq!(get_format(b"agent.toml"), Some(ConfigFormat::Toml));
    assert_eq!(get_format(b"agent.yaml"), Some(ConfigFormat::Yaml));
    assert_eq!(get_format(b"agent.yml"), Some(ConfigFormat::Yaml));
    assert_eq!(get_format(b"agent.ron"), Some(ConfigFormat::Ron));
    assert_eq!(get_format(b"agent.ini"), Some(ConfigFormat::Ini));
}

#[test]
fn test_invalid_file_format_fails() {
    assert_eq!(get_format(b"agent.conf"), None);
    assert_eq!(get_format(b"agent"), None);
}
