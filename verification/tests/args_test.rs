use onionize::args::{random_client_nickname, tagged_nickname, Args};

fn argv(items: &[&str]) -> Vec<String> {
    items.iter().map(|s| s.to_string()).collect()
}

#[test]
fn test_host_normalization() {
    let args = Args::parse_from(argv(&["bin", "-H", "localhost"])).unwrap();
    assert_eq!(args.get_normalized_host(), "127.0.0.1");

    let args_ip = Args::parse_from(argv(&["bin", "-H", "192.168.1.1"])).unwrap();
    assert_eq!(args_ip.get_normalized_host(), "192.168.1.1");
}

#[test]
fn test_host_normalization_ignores_case() {
    let args = Args::parse_from(argv(&["bin", "-H", "LocalHost"])).unwrap();
    assert_eq!(args.get_normalized_host(), "127.0.0.1");

    // Only the exact word counts, and non-ASCII hosts pass through whole.
    let args = Args::parse_from(argv(&["bin", "-H", "localhost9"])).unwrap();
    assert_eq!(args.get_normalized_host(), "localhost9");
}

#[test]
fn test_nickname_generation() {
    let args = Args::parse_from(argv(&["bin"])).unwrap(); // Using default
    let nick = args.get_effective_nickname();
    assert!(nick.starts_with("proxy-"));
    assert_ne!(nick, "my-ephemeral-service");

    let args_custom = Args::parse_from(argv(&["bin", "-n", "custom-name"])).unwrap();
    assert_eq!(args_custom.get_effective_nickname(), "custom-name");
}

#[test]
fn test_custom_nickname_is_static() {
    let args = Args::parse_from(argv(&["bin", "-n", "static-name"])).unwrap();
    assert_eq!(args.get_effective_nickname(), "static-name");
    assert_eq!(args.get_effective_nickname(), "static-name");
}

#[test]
fn test_nickname_generation_randomness() {
    // Generate two nicknames with default settings and ensure they differ
    let args1 = Args::parse_from(argv(&["bin"])).unwrap();
    let args2 = Args::parse_from(argv(&["bin"])).unwrap();

    let nick1 = args1.get_effective_nickname();
    let nick2 = args2.get_effective_nickname();

    assert!(nick1.starts_with("proxy-"));
    assert!(nick2.starts_with("proxy-"));

    // They should not be the same
    assert_ne!(nick1, nick2, "Generated nicknames should be different");
}

#[test]
fn test_tagged_nickname_exact() {
    assert_eq!(tagged_nickname("proxy-", &vec![0xde, 0xad, 0xbe]), "proxy-deadbe");
    assert_eq!(tagged_nickname("client-", &vec![0x00, 0x0f]), "client-000f");
    assert_eq!(tagged_nickname("x", &Vec::new()), "x");
}

#[test]
fn test_random_client_nickname_shape() {
    let nick = random_client_nickname();
    let tag = nick.strip_prefix("client-").unwrap();
    assert_eq!(tag.len(), 6);
    assert!(tag.chars().all(|c| c.is_ascii_hexdigit() && !c.is_ascii_uppercase()));
}

#[test]
fn test_generated_nickname_is_hex_tagged() {
    let args = Args::parse_from(argv(&["bin"])).unwrap();
    let nick = args.get_effective_nickname();
    let tag = nick.strip_prefix("proxy-").unwrap();
    assert_eq!(tag.len(), 6);
    assert!(tag.chars().all(|c| c.is_ascii_hexdigit() && !c.is_ascii_uppercase()));
}
