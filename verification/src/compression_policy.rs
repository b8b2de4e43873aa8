//! What compression may do, by the way in which a request is paid for.
//!
//! | Mode         | live_zone_only | cache_aligner_enabled |
//! |--------------|----------------|-----------------------|
//! | Payg         | false          | true                  |
//! | OAuth        | false          | true                  |
//! | Subscription | true           | false                 |
//!
//! Subscription users keep their prompt caches stable: nothing before the live
//! zone is touched. The live zone itself is compressed in every mode.

use crate::auth_mode::AuthMode;
use vstd::prelude::*;

verus! {

/// What the stages of compression may do.
#[derive(Debug, Clone, Copy, PartialEq, Eq, Structural)]
pub struct CompressionPolicy {
    /// Whether transforms must not change anything outside the live zone, that
    /// is, before the last cache marker.
    pub live_zone_only: bool,
    /// Whether the cache aligner may run.
    pub cache_aligner_enabled: bool,
}

impl CompressionPolicy {
    /// The policy for an auth mode.
    pub open spec fn spec_for_mode(mode: AuthMode) -> Self {
        CompressionPolicy {
            live_zone_only: mode == AuthMode::Subscription,
            cache_aligner_enabled: mode != AuthMode::Subscription,
        }
    }

    /// The policy for an auth mode.
    pub fn for_mode(mode: AuthMode) -> (r: Self)
        ensures
            r == Self::spec_for_mode(mode),
    {
        match mode {
            AuthMode::Payg => CompressionPolicy {
                live_zone_only: false,
                cache_aligner_enabled: true,
            },
            AuthMode::OAuth => CompressionPolicy {
                live_zone_only: false,
                cache_aligner_enabled: true,
            },
            AuthMode::Subscription => CompressionPolicy {
                live_zone_only: true,
                cache_aligner_enabled: false,
            },
        }
    }

    /// Whether the live zone is compressed: it is under every policy.
    pub fn live_zone_compression_enabled(&self) -> (r: bool)
        ensures
            r,
    {
        true
    }
}

/// Requests by grant and by use are treated alike, and the cache aligner runs
/// exactly where more than the live zone may be touched.
pub proof fn law_grants_are_treated_like_use(mode: AuthMode)
    ensures
        CompressionPolicy::spec_for_mode(AuthMode::OAuth) == CompressionPolicy::spec_for_mode(
            AuthMode::Payg,
        ),
        CompressionPolicy::spec_for_mode(mode).cache_aligner_enabled
            != CompressionPolicy::spec_for_mode(mode).live_zone_only,
{
}

/// Subscriptions are held to the live zone and keep the cache aligner off; every
/// other mode may touch more and runs it.
pub proof fn law_only_subscriptions_are_held_to_the_live_zone(mode: AuthMode)
    ensures
        mode == AuthMode::Subscription ==> CompressionPolicy::spec_for_mode(mode).live_zone_only
            && !CompressionPolicy::spec_for_mode(mode).cache_aligner_enabled,
        mode == AuthMode::Payg || mode == AuthMode::OAuth ==> !CompressionPolicy::spec_for_mode(
            mode,
        ).live_zone_only && CompressionPolicy::spec_for_mode(mode).cache_aligner_enabled,
{
}

} // verus!
