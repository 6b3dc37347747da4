use surf_fed::{
    clean_filter, default_rules, extract_hosts, push_rule_hosts, rules_or_default,
    strip_filter_anchors, AdBlockState, BlockRule, RulesFile,
};

fn rule(filter: Option<&str>, domains: &[&str]) -> BlockRule {
    BlockRule {
        url_filter: filter.map(|f| f.to_string()),
        domains: domains.iter().map(|d| d.to_string()).collect(),
        resource_types: vec![],
    }
}

#[test]
fn default_rules_hold_seventeen_domains() {
    let rules = default_rules();
    assert_eq!(rules.rules.len(), 17);
    assert_eq!(rules.rules[0].url_filter.as_deref(), Some("||doubleclick.net^"));
    assert_eq!(rules.rules[0].domains, vec!["doubleclick.net".to_string()]);
    assert_eq!(rules.rules[16].url_filter.as_deref(), Some("||hotjar.com^"));
    assert!(rules.rules.iter().all(|r| r.resource_types.is_empty()));
}

#[test]
fn default_hosts_are_the_domains_once_each() {
    let hosts = extract_hosts(&default_rules());
    assert_eq!(hosts.len(), 17);
    assert_eq!(hosts[0], "doubleclick.net");
    assert_eq!(hosts[4], "adservice.google.com");
}

#[test]
fn filter_anchors_are_removed() {
    assert_eq!(clean_filter("||Example.COM^"), "example.com");
    assert_eq!(clean_filter("||||*ads*^^"), "ads*");
    assert_eq!(clean_filter("|||x"), "|x");
    assert_eq!(clean_filter("||^"), "");
}

#[test]
fn filter_hosts_are_added_unless_empty_or_present() {
    let rules = RulesFile {
        rules: vec![
            rule(Some("||Tracker.NET^"), &["Ads.Example.com"]),
            rule(Some("||ads.example.com^"), &[]),
            rule(Some("||^"), &["other.org", "other.org"]),
            rule(None, &["plain.io"]),
        ],
    };
    let hosts = extract_hosts(&rules);
    assert_eq!(
        hosts,
        vec!["ads.example.com", "tracker.net", "other.org", "other.org", "plain.io"]
    );
}

#[test]
fn blocked_url_matches_case_insensitively() {
    let state = AdBlockState::new(default_rules(), true);
    assert!(state.enabled());
    assert!(state.is_blocked("https://stats.DoubleClick.NET/pixel"));
    assert!(state.is_blocked("https://www.hotjar.com/"));
    assert!(!state.is_blocked("https://example.org/"));
}

#[test]
fn switched_off_blocker_blocks_nothing() {
    let mut state = AdBlockState::new(default_rules(), true);
    state.set_enabled(false);
    assert!(!state.enabled());
    assert!(!state.is_blocked("https://doubleclick.net/"));
    state.set_enabled(true);
    assert!(state.is_blocked("https://doubleclick.net/"));
}

#[test]
fn missing_rules_fall_back_to_defaults() {
    let fallback = rules_or_default(None);
    assert_eq!(fallback.rules.len(), 17);
    let own = rules_or_default(Some(RulesFile { rules: vec![rule(None, &["a.b"])] }));
    assert_eq!(own.rules.len(), 1);
    assert_eq!(own.rules[0].domains, vec!["a.b".to_string()]);
}

#[test]
fn empty_domain_matches_every_url() {
    let state = AdBlockState::new(RulesFile { rules: vec![rule(None, &[""])] }, true);
    assert!(state.is_blocked("https://anything.example/"));
    let none = AdBlockState::new(RulesFile { rules: vec![] }, true);
    assert!(!none.is_blocked("https://anything.example/"));
}

#[test]
fn filter_only_rule_blocks_its_host() {
    let state = AdBlockState::new(RulesFile { rules: vec![rule(Some("||*Tracker.NET^"), &[])] }, true);
    assert_eq!(state.host_count(), 1);
    assert_eq!(state.rule_count(), 1);
    assert!(state.is_blocked("http://cdn.TRACKER.net/x.js"));
    assert!(!state.is_blocked("http://tracker.org/"));
}

#[test]
fn persisted_switch_is_restored() {
    let off = AdBlockState::new(default_rules(), false);
    assert!(!off.enabled());
    assert!(!off.is_blocked("https://doubleclick.net/ad"));
    let on = AdBlockState::new(default_rules(), true);
    assert!(on.enabled());
    assert!(on.is_blocked("https://doubleclick.net/ad"));
}

#[test]
fn lowercase_url_is_matched_as_given() {
    let state = AdBlockState::new(default_rules(), true);
    assert!(state.is_blocked_lowercase("https://stats.doubleclick.net/x"));
    assert!(!state.is_blocked_lowercase("https://DOUBLECLICK.NET/x"));
    assert!(!state.is_blocked_lowercase("https://example.org/"));
}

#[test]
fn anchors_are_stripped_without_lowercasing() {
    assert_eq!(strip_filter_anchors("||Example.COM^"), "Example.COM");
    assert_eq!(strip_filter_anchors("||||**Ads^^"), "Ads");
    assert_eq!(strip_filter_anchors("plain"), "plain");
    assert_eq!(strip_filter_anchors(""), "");
}

#[test]
fn rule_hosts_are_appended() {
    let mut hosts = vec!["a.com".to_string()];
    push_rule_hosts(&mut hosts, vec!["b.com".to_string(), "a.com".to_string()], Some("a.com".to_string()));
    assert_eq!(hosts, vec!["a.com", "b.com", "a.com"]);
    push_rule_hosts(&mut hosts, vec![], Some("c.net".to_string()));
    assert_eq!(hosts, vec!["a.com", "b.com", "a.com", "c.net"]);
    push_rule_hosts(&mut hosts, vec![], Some(String::new()));
    push_rule_hosts(&mut hosts, vec![], None);
    assert_eq!(hosts.len(), 4);
}
