use headroom::auth_mode::AuthMode;
use headroom::compression_policy::CompressionPolicy;

#[test]
fn payg_is_aggressive() {
    let p = CompressionPolicy::for_mode(AuthMode::Payg);
    assert!(!p.live_zone_only, "PAYG can touch outside live zone");
    assert!(p.cache_aligner_enabled, "PAYG runs cache aligner");
    assert!(p.live_zone_compression_enabled());
}

#[test]
fn oauth_matches_payg_today() {
    let oauth = CompressionPolicy::for_mode(AuthMode::OAuth);
    let payg = CompressionPolicy::for_mode(AuthMode::Payg);
    assert_eq!(
        oauth, payg,
        "F2.1 ships OAuth=PAYG; F2.2 will diverge based on telemetry"
    );
}

#[test]
fn subscription_disables_cache_aligner() {
    let p = CompressionPolicy::for_mode(AuthMode::Subscription);
    assert!(p.live_zone_only, "Subscription is live-zone-only");
    assert!(
        !p.cache_aligner_enabled,
        "Subscription MUST skip cache aligner — load-bearing for #327/#388"
    );
    assert!(
        p.live_zone_compression_enabled(),
        "Subscription still gets live-zone compression — closing the cache complaint must NOT mean shipping zero compression"
    );
}
