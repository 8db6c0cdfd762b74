use rmemqueue::config::RmqClientConfig;

#[test]
fn test_config_set_get() {
    let mut config = RmqClientConfig::new();
    config.set("broker.id", "test");
    assert_eq!(config.get("broker.id"), Some("test"));
    assert_eq!(config.get("missing"), None);
}
