use anttp::config::AntTpConfig;

fn arg_strs(v: &[&str]) -> Vec<String> {
    v.iter().map(|s| s.to_string()).collect()
}

#[test]
fn from_args_uses_defaults() {
    let c = AntTpConfig::from_args(arg_strs(&["anttp"]));
    assert_eq!(c.bind_addr, "0.0.0.0:8080");
    assert_eq!(c.static_dir, "static");
    assert_eq!(c.wallet_private_key, "");
    let c = AntTpConfig::from_args(Vec::new());
    assert_eq!(c.bind_addr, "0.0.0.0:8080");
}

#[test]
fn from_args_reads_positions() {
    let c = AntTpConfig::from_args(arg_strs(&["anttp", "127.0.0.1:9000", "www", "SECRET-REDACTED"]));
    assert_eq!(c.bind_addr, "127.0.0.1:9000");
    assert_eq!(c.static_dir, "www");
    assert_eq!(c.wallet_private_key, "SECRET-REDACTED");
    let c = AntTpConfig::from_args(arg_strs(&["anttp", "127.0.0.1:9000"]));
    assert_eq!(c.static_dir, "static");
}

#[test]
fn new_keeps_fields() {
    let c = AntTpConfig::new("1.2.3.4:5".to_string(), "d".to_string(), "k".to_string());
    assert_eq!((c.bind_addr.as_str(), c.static_dir.as_str(), c.wallet_private_key.as_str()), ("1.2.3.4:5", "d", "k"));
}
