use pipistrelle::bridge::port_setting;
use pipistrelle::config::{
    anonymous_access_enabled, max_auth_concurrency, verify_password, AclRule, AuthConfig,
    CredentialsConfig, CredentialsSource, UserConfig,
};
use pipistrelle::crypto::{provider, TlsProfile};
use pipistrelle::latency::LatencyHistogram;
use pipistrelle::policy::{
    sampled, sampled_sequences_in_range, topic_alias_maximum, BridgeQueuePolicy,
    SlowConsumerPolicy,
};
use pipistrelle::startup::{key_exchange_is_pqc, log_level, parse_command_line, LogLevel};

const HASH: &str = "$argon2id$v=19$m=19456,t=2,p=1$MjY4NGRlMWY5YzliZDUwNjBhOGJhYTJhZDM1OWViZTE$qjlHo3ALKgMXLw1bgRz/p7LGhqvC4RKrgxMuvgPNNfg";

#[test]
fn test_argon2_password_verification() {
    let hash = "$argon2id$v=19$m=19456,t=2,p=1$MjY4NGRlMWY5YzliZDUwNjBhOGJhYTJhZDM1OWViZTE$qjlHo3ALKgMXLw1bgRz/p7LGhqvC4RKrgxMuvgPNNfg";
    assert!(verify_password("admin123", hash));
    assert!(!verify_password("wrongpassword", hash));
}

#[test]
fn what_is_no_hash_fits_no_password() {
    assert!(!verify_password("", ""));
    assert!(!verify_password("x", "x"));
}

#[test]
fn profiles_have_expected_group_counts() {
    assert_eq!(provider(TlsProfile::Hybrid).kx_groups.len(), 4);
    assert_eq!(provider(TlsProfile::PqcStrict).kx_groups.len(), 1);
    assert_eq!(provider(TlsProfile::Classical).kx_groups.len(), 3);
}

#[test]
fn profile_names_are_stable() {
    assert_eq!(TlsProfile::Hybrid.as_str(), "hybrid");
    assert_eq!(TlsProfile::PqcStrict.as_str(), "pqc-strict");
    assert_eq!(TlsProfile::Classical.as_str(), "classical");
}

#[test]
fn profiles_offer_their_groups_in_order() {
    let names: Vec<String> = provider(TlsProfile::Hybrid)
        .kx_groups
        .iter()
        .map(|g| format!("{:?}", g.name()))
        .collect();
    assert_eq!(names, ["X25519MLKEM768", "X25519", "secp256r1", "secp384r1"]);
    let names: Vec<String> = provider(TlsProfile::PqcStrict)
        .kx_groups
        .iter()
        .map(|g| format!("{:?}", g.name()))
        .collect();
    assert_eq!(names, ["X25519MLKEM768"]);
}

#[test]
fn profiles_are_read_from_settings() {
    assert_eq!(
        TlsProfile::from_env(Some(" PQC-Strict "), TlsProfile::Hybrid),
        TlsProfile::PqcStrict
    );
    assert_eq!(
        TlsProfile::from_env(Some("classic"), TlsProfile::Hybrid),
        TlsProfile::Classical
    );
    assert_eq!(
        TlsProfile::from_env(Some("?"), TlsProfile::PqcStrict),
        TlsProfile::PqcStrict
    );
    assert_eq!(
        TlsProfile::from_env(None, TlsProfile::Classical),
        TlsProfile::Classical
    );
}

#[test]
fn quantiles_use_bucket_upper_bounds() {
    let mut histogram = LatencyHistogram::new();
    for _ in 0..50 {
        histogram.record(8_000);
    }
    for _ in 0..45 {
        histogram.record(80_000);
    }
    for _ in 0..5 {
        histogram.record(800_000);
    }
    assert_eq!(histogram.count(), 100);
    assert_eq!(
        histogram.quantile_micros(50, 100) as f64 / 1_000_000.0,
        0.000_010
    );
    assert_eq!(
        histogram.quantile_micros(95, 100) as f64 / 1_000_000.0,
        0.000_100
    );
    assert_eq!(
        histogram.quantile_micros(99, 100) as f64 / 1_000_000.0,
        0.001_000
    );
    assert_eq!(histogram.sum_nanos(), 50 * 8_000 + 45 * 80_000 + 5 * 800_000);
    let buckets = histogram.cumulative_buckets();
    assert_eq!(buckets[buckets.len() - 1], (None, 100));
}

#[test]
fn sample_counter_matches_scalar_rule() {
    for start in [0_u64, 1, 63, 64, 65, 127, 1024] {
        for count in [0_u64, 1, 2, 63, 64, 65, 130] {
            let expected = (start..start + count)
                .filter(|sequence| sequence & 63 == 0)
                .count() as u64;
            assert_eq!(sampled_sequences_in_range(start, count, 64), expected);
        }
    }
}

#[test]
fn sampled_sequences_are_multiples_of_the_rate() {
    assert!(sampled(0, 64));
    assert!(!sampled(63, 64));
    assert!(sampled(128, 64));
}

#[test]
fn policy_parsing_is_stable() {
    assert_eq!(
        SlowConsumerPolicy::parse("disconnect"),
        SlowConsumerPolicy::Disconnect
    );
    assert_eq!(
        SlowConsumerPolicy::parse("anything"),
        SlowConsumerPolicy::Backpressure
    );
    assert_eq!(
        BridgeQueuePolicy::parse("backpressure"),
        BridgeQueuePolicy::Backpressure
    );
    assert_eq!(
        BridgeQueuePolicy::parse("drop-newest"),
        BridgeQueuePolicy::DropNewest
    );
}

fn rule(topic: &str, access: &str) -> AclRule {
    AclRule {
        topic: topic.to_string(),
        access: access.to_string(),
    }
}

fn two_users() -> CredentialsConfig {
    CredentialsConfig {
        users: vec![
            UserConfig {
                username: "admin".to_string(),
                password_hash: HASH.to_string(),
                acl: vec![rule("#", "readwrite")],
            },
            UserConfig {
                username: "sensor".to_string(),
                password_hash: HASH.to_string(),
                acl: vec![rule("sensor/+", "write"), rule("alerts/#", "read")],
            },
        ],
    }
}

#[test]
fn listed_users_are_admitted_with_their_password_only() {
    let auth = AuthConfig::load(CredentialsSource::Loaded(two_users()), false);
    assert!(auth.authenticate("admin", "admin123"));
    assert!(!auth.authenticate("admin", "wrong"));
    assert!(!auth.authenticate("nobody", "admin123"));
    assert!(!auth.authenticate("", ""));
}

#[test]
fn rules_say_what_may_be_read_and_written() {
    let auth = AuthConfig::load(CredentialsSource::Loaded(two_users()), false);
    assert!(auth.authorize("sensor", "sensor/temp", "write"));
    assert!(!auth.authorize("sensor", "sensor/temp", "read"));
    assert!(auth.authorize("sensor", "alerts/fire/now", "read"));
    assert!(!auth.authorize("sensor", "alerts/fire/now", "write"));
    assert!(!auth.authorize("nobody", "sensor/temp", "write"));
    assert!(auth.authorizes_all("admin", "read"));
    assert!(!auth.authorizes_all("sensor", "write"));
}

#[test]
fn without_credentials_the_broker_is_closed() {
    let closed = AuthConfig::load(CredentialsSource::Missing, false);
    assert!(!closed.authenticate("", ""));
    assert!(!closed.authorize("", "a", "read"));
    let open = AuthConfig::load(CredentialsSource::Missing, true);
    assert!(open.authenticate("", ""));
    assert!(open.authorize("", "a", "read"));
}

#[test]
fn settings_have_their_defaults() {
    assert!(anonymous_access_enabled(Some("TRUE")));
    assert!(anonymous_access_enabled(Some(" true ")));
    for value in ["no", "1", "yes", "on", "", "truee"] {
        assert!(!anonymous_access_enabled(Some(value)));
    }
    assert!(!anonymous_access_enabled(None));
    assert_eq!(max_auth_concurrency(Some("3")), 3);
    assert_eq!(port_setting(Some("1884"), 1883), 1884);
    assert_eq!(port_setting(Some("65536"), 1883), 1883);
    assert_eq!(port_setting(None, 8883), 8883);
    assert_eq!(log_level(Some("DEBUG")), LogLevel::Debug);
    assert_eq!(log_level(Some("loud")), LogLevel::Info);
    assert_eq!(log_level(None), LogLevel::Info);
}

#[test]
fn command_line_names_the_tls_files() {
    let args: Vec<String> = ["--cert", "a.pem", "-x", "--key", "b.pem"]
        .iter()
        .map(|s| s.to_string())
        .collect();
    let line = parse_command_line(&args).unwrap();
    assert_eq!(line.cert.as_deref(), Some("a.pem"));
    assert_eq!(line.key.as_deref(), Some("b.pem"));
    assert_eq!(line.unknown, vec!["-x".to_string()]);
    let short: Vec<String> = vec!["--key".to_string()];
    assert_eq!(parse_command_line(&short).err().as_deref(), Some("--key"));
}

#[test]
fn post_quantum_groups_are_known_by_number() {
    assert!(key_exchange_is_pqc(0x11EC));
    assert!(key_exchange_is_pqc(0x0201));
    assert!(!key_exchange_is_pqc(0x001D));
}

#[test]
fn topic_aliases_have_a_maximum() {
    assert_eq!(topic_alias_maximum(None), 32);
    assert_eq!(topic_alias_maximum(Some("0")), 0);
    assert_eq!(topic_alias_maximum(Some("65535")), 65535);
    assert_eq!(topic_alias_maximum(Some("65536")), 32);
    assert_eq!(topic_alias_maximum(Some("many")), 32);
}

#[test]
fn hashes_with_too_many_lanes_fit_no_password() {
    for lanes in ["536870912", "4294967295", "99999999999", "100000000"] {
        let hash = HASH.replace("p=1", &format!("p={lanes}"));
        assert!(!verify_password("admin123", &hash));
        let twice = HASH.replace("p=1", &format!("p={lanes},p=1"));
        assert!(!verify_password("admin123", &twice));
    }
    let wide = HASH.replace("p=1", "p=99999999");
    assert!(!verify_password("admin123", &wide));
    assert!(verify_password("admin123", HASH));
    let users = vec![UserConfig {
        username: "admin".to_string(),
        password_hash: HASH.replace("p=1", "p=536870912"),
        acl: Vec::new(),
    }];
    let auth = AuthConfig::with_users(Some(users));
    assert!(!auth.authenticate("admin", "admin123"));
}

#[test]
fn nobody_is_admitted_unless_the_setting_says_true() {
    for value in [None, Some("1"), Some("yes"), Some("false")] {
        let auth = AuthConfig::load(CredentialsSource::Missing, anonymous_access_enabled(value));
        assert!(!auth.authenticate("", ""));
        assert!(!auth.authorize("", "t", "write"));
    }
    let open = AuthConfig::load(CredentialsSource::Missing, anonymous_access_enabled(Some("true")));
    assert!(open.authenticate("", "") && open.authorize("", "t", "write"));
    let bad = AuthConfig::load(CredentialsSource::Malformed, true);
    assert!(!bad.authenticate("", ""));
}

#[test]
fn cumulative_counts_are_the_numbers_of_times_up_to_the_bounds() {
    let mut histogram = LatencyHistogram::new();
    let times: [(u128, u64); 6] = [
        (0, 3),
        (5_999, 1),
        (6_000, 2),
        (1_000_000, 4),
        (5_000_000_999, 1),
        (5_000_001_000, 5),
    ];
    for (nanos, n) in times {
        histogram.record_repeated(nanos, n);
    }
    let buckets = histogram.cumulative_buckets();
    assert_eq!(buckets.len(), 20);
    for (bound, count) in buckets {
        let expected: u64 = times
            .iter()
            .filter(|(nanos, _)| bound.is_none() || nanos / 1000 <= bound.unwrap() as u128)
            .map(|(_, n)| n)
            .sum();
        assert_eq!(count, expected);
    }
    assert_eq!(histogram.count(), 16);
}
