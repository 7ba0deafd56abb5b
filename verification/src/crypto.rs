//! TLS profiles: which key exchange groups are offered.

use vstd::prelude::*;
use crate::policy;
use crate::text;
use crate::text::{normalized, spells};

verus! {

/// Which key exchanges TLS accepts.
#[derive(Debug, Clone, Copy, PartialEq, Eq, Structural)]
pub enum TlsProfile {
    /// X25519 with ML-KEM-768 preferred, with classical groups as a fallback.
    Hybrid,
    /// X25519 with ML-KEM-768 only.
    PqcStrict,
    /// Classical groups only.
    Classical,
}

/// The name of a profile.
pub open spec fn profile_name(profile: TlsProfile) -> Seq<char> {
    match profile {
        TlsProfile::Hybrid => "hybrid"@,
        TlsProfile::PqcStrict => "pqc-strict"@,
        TlsProfile::Classical => "classical"@,
    }
}

/// A key exchange group.
#[derive(Debug, Clone, Copy, PartialEq, Eq, Structural)]
pub enum KxGroup {
    /// X25519 with ML-KEM-768.
    X25519Mlkem768,
    /// X25519.
    X25519,
    /// P-256.
    Secp256r1,
    /// P-384.
    Secp384r1,
}

/// The profile that a setting names, or a default.
pub open spec fn profile_of(value: Option<Seq<char>>, default: TlsProfile) -> TlsProfile {
    match value {
        None => default,
        Some(v) => {
            let s = text::setting(v);
            if s == "hybrid"@ || s == "pqc-hybrid"@ || s == "post-quantum"@ {
                TlsProfile::Hybrid
            } else if s == "pqc-strict"@ || s == "strict"@ || s == "pq-strict"@ {
                TlsProfile::PqcStrict
            } else if s == "classical"@ || s == "classic"@ || s == "pre-quantum"@ || s
                == "prequantum"@ {
                TlsProfile::Classical
            } else {
                default
            }
        },
    }
}

/// The groups that a profile offers, in the order of preference.
pub open spec fn groups_of(profile: TlsProfile) -> Seq<KxGroup> {
    match profile {
        TlsProfile::Hybrid => seq![
            KxGroup::X25519Mlkem768,
            KxGroup::X25519,
            KxGroup::Secp256r1,
            KxGroup::Secp384r1,
        ],
        TlsProfile::PqcStrict => seq![KxGroup::X25519Mlkem768],
        TlsProfile::Classical => seq![KxGroup::X25519, KxGroup::Secp256r1, KxGroup::Secp384r1],
    }
}

impl TlsProfile {
    /// The profile that the value of a setting names; the default where the setting is absent or
    /// names none.
    pub fn from_env(value: Option<&str>, default: TlsProfile) -> (r: TlsProfile)
        ensures
            r == profile_of(policy::setting_opt(value), default),
    {
        match value {
            None => default,
            Some(v) => {
                let s = normalized(v);
                if spells(&s, "hybrid") || spells(&s, "pqc-hybrid") || spells(&s, "post-quantum") {
                    TlsProfile::Hybrid
                } else if spells(&s, "pqc-strict") || spells(&s, "strict") || spells(
                    &s,
                    "pq-strict",
                ) {
                    TlsProfile::PqcStrict
                } else if spells(&s, "classical") || spells(&s, "classic") || spells(
                    &s,
                    "pre-quantum",
                ) || spells(&s, "prequantum") {
                    TlsProfile::Classical
                } else {
                    default
                }
            },
        }
    }

    /// The name of the profile.
    pub fn as_str(self) -> (r: &'static str)
        ensures
            r@ == profile_name(self),
    {
        match self {
            TlsProfile::Hybrid => "hybrid",
            TlsProfile::PqcStrict => "pqc-strict",
            TlsProfile::Classical => "classical",
        }
    }

    /// What the profile offers, in words.
    pub fn description(self) -> (r: &'static str)
        ensures
            r@ == (match self {
                TlsProfile::Hybrid => "X25519MLKEM768 preferred with X25519/P-256/P-384 fallback"@,
                TlsProfile::PqcStrict => "X25519MLKEM768 required"@,
                TlsProfile::Classical => "X25519/P-256/P-384 only"@,
            }),
    {
        match self {
            TlsProfile::Hybrid => "X25519MLKEM768 preferred with X25519/P-256/P-384 fallback",
            TlsProfile::PqcStrict => "X25519MLKEM768 required",
            TlsProfile::Classical => "X25519/P-256/P-384 only",
        }
    }

    /// The groups that the profile offers, in the order of preference.
    pub fn groups(self) -> (r: Vec<KxGroup>)
        ensures
            r@ == groups_of(self),
    {
        let r = match self {
            TlsProfile::Hybrid => vec![
                KxGroup::X25519Mlkem768,
                KxGroup::X25519,
                KxGroup::Secp256r1,
                KxGroup::Secp384r1,
            ],
            TlsProfile::PqcStrict => vec![KxGroup::X25519Mlkem768],
            TlsProfile::Classical => vec![
                KxGroup::X25519,
                KxGroup::Secp256r1,
                KxGroup::Secp384r1,
            ],
        };
        assert(r@ =~= groups_of(self));
        r
    }
}

/// The cryptography provider of `rustls`.
#[verifier::external_type_specification]
#[verifier::external_body]
pub struct ExCryptoProvider(rustls::crypto::CryptoProvider);

/// The provider of `rustls` on AWS-LC that offers these key exchange groups, in this order.
pub uninterp spec fn provider_offering(groups: Seq<KxGroup>) -> rustls::crypto::CryptoProvider;

/// Calls `rustls::crypto::aws_lc_rs::default_provider` and replaces its key exchange groups by
/// those of `rustls::crypto::aws_lc_rs::kx_group` that stand for the given ones, in their order.
/// What it returns depends on the groups alone.
#[verifier::external_body]
fn aws_lc_provider(groups: &Vec<KxGroup>) -> (r: rustls::crypto::CryptoProvider)
    ensures
        r == provider_offering(groups@),
{
    let mut provider = rustls::crypto::aws_lc_rs::default_provider();
    provider.kx_groups = groups.iter().map(
        |group| match group {
            KxGroup::X25519Mlkem768 => rustls::crypto::aws_lc_rs::kx_group::X25519MLKEM768,
            KxGroup::X25519 => rustls::crypto::aws_lc_rs::kx_group::X25519,
            KxGroup::Secp256r1 => rustls::crypto::aws_lc_rs::kx_group::SECP256R1,
            KxGroup::Secp384r1 => rustls::crypto::aws_lc_rs::kx_group::SECP384R1,
        },
    ).collect();
    provider
}

/// The cryptography provider of a profile.
pub fn provider(profile: TlsProfile) -> (r: rustls::crypto::CryptoProvider)
    ensures
        r == provider_offering(groups_of(profile)),
{
    aws_lc_provider(&profile.groups())
}

/// The strict profile offers nothing but the post-quantum group, the hybrid profile offers it first
/// and the classical groups after it, and the classical profile offers the same classical groups
/// and no other.
pub proof fn law_groups_of_the_profiles()
    ensures
        groups_of(TlsProfile::PqcStrict) == seq![KxGroup::X25519Mlkem768],
        groups_of(TlsProfile::Hybrid) == groups_of(TlsProfile::PqcStrict) + groups_of(
            TlsProfile::Classical,
        ),
        groups_of(TlsProfile::Classical) == seq![
            KxGroup::X25519,
            KxGroup::Secp256r1,
            KxGroup::Secp384r1,
        ],
{
    assert(groups_of(TlsProfile::Hybrid) =~= groups_of(TlsProfile::PqcStrict) + groups_of(
        TlsProfile::Classical,
    ));
}

/// The words for the profiles, as settings are compared: three for the hybrid one, three for the
/// strict one and four for the classical one. Where the setting is missing the default counts.
pub proof fn law_words_for_the_profiles(v: Seq<char>, default: TlsProfile)
    ensures
        profile_of(None, default) == default,
        (text::setting(v) == seq!['h', 'y', 'b', 'r', 'i', 'd']
            || text::setting(v) == seq!['p', 'q', 'c', '-', 'h', 'y', 'b', 'r', 'i', 'd']
            || text::setting(v) == seq!['p', 'o', 's', 't', '-', 'q', 'u', 'a', 'n', 't', 'u', 'm']) ==> profile_of(
            Some(v),
            default,
        ) == TlsProfile::Hybrid,
        (text::setting(v) == seq!['p', 'q', 'c', '-', 's', 't', 'r', 'i', 'c', 't']
            || text::setting(v) == seq!['s', 't', 'r', 'i', 'c', 't']
            || text::setting(v) == seq!['p', 'q', '-', 's', 't', 'r', 'i', 'c', 't']) ==> profile_of(
            Some(v),
            default,
        ) == TlsProfile::PqcStrict,
        (text::setting(v) == seq!['c', 'l', 'a', 's', 's', 'i', 'c', 'a', 'l']
            || text::setting(v) == seq!['c', 'l', 'a', 's', 's', 'i', 'c']
            || text::setting(v) == seq!['p', 'r', 'e', '-', 'q', 'u', 'a', 'n', 't', 'u', 'm']
            || text::setting(v) == seq!['p', 'r', 'e', 'q', 'u', 'a', 'n', 't', 'u', 'm']) ==> profile_of(
            Some(v),
            default,
        ) == TlsProfile::Classical,
        profile_of(Some(v), TlsProfile::Hybrid) != profile_of(Some(v), TlsProfile::Classical) ==> (
        profile_of(Some(v), default) == default),
{
    reveal_strlit("hybrid");
    reveal_strlit("pqc-hybrid");
    reveal_strlit("post-quantum");
    reveal_strlit("pqc-strict");
    reveal_strlit("strict");
    reveal_strlit("pq-strict");
    reveal_strlit("classical");
    reveal_strlit("classic");
    reveal_strlit("pre-quantum");
    reveal_strlit("prequantum");
    assert("hybrid"@ =~= seq!['h', 'y', 'b', 'r', 'i', 'd']);
    assert("pqc-hybrid"@ =~= seq!['p', 'q', 'c', '-', 'h', 'y', 'b', 'r', 'i', 'd']);
    assert("post-quantum"@ =~= seq!['p', 'o', 's', 't', '-', 'q', 'u', 'a', 'n', 't', 'u', 'm']);
    assert("pqc-strict"@ =~= seq!['p', 'q', 'c', '-', 's', 't', 'r', 'i', 'c', 't']);
    assert("strict"@ =~= seq!['s', 't', 'r', 'i', 'c', 't']);
    assert("pq-strict"@ =~= seq!['p', 'q', '-', 's', 't', 'r', 'i', 'c', 't']);
    assert("classical"@ =~= seq!['c', 'l', 'a', 's', 's', 'i', 'c', 'a', 'l']);
    assert("classic"@ =~= seq!['c', 'l', 'a', 's', 's', 'i', 'c']);
    assert("pre-quantum"@ =~= seq!['p', 'r', 'e', '-', 'q', 'u', 'a', 'n', 't', 'u', 'm']);
    assert("prequantum"@ =~= seq!['p', 'r', 'e', 'q', 'u', 'a', 'n', 't', 'u', 'm']);
    assert("hybrid"@.len() != "pqc-strict"@.len());
    assert("pqc-hybrid"@[4] != "pqc-strict"@[4]);
    assert("post-quantum"@.len() != "pqc-strict"@.len());
    assert("hybrid"@[0] != "strict"@[0]);
    assert("pqc-hybrid"@.len() != "strict"@.len());
    assert("post-quantum"@.len() != "strict"@.len());
    assert("hybrid"@.len() != "pq-strict"@.len());
    assert("pqc-hybrid"@.len() != "pq-strict"@.len());
    assert("post-quantum"@.len() != "pq-strict"@.len());
    assert("hybrid"@.len() != "classical"@.len());
    assert("pqc-hybrid"@.len() != "classical"@.len());
    assert("post-quantum"@.len() != "classical"@.len());
    assert("pqc-strict"@.len() != "classical"@.len());
    assert("strict"@.len() != "classical"@.len());
    assert("pq-strict"@[0] != "classical"@[0]);
    assert("hybrid"@.len() != "classic"@.len());
    assert("pqc-hybrid"@.len() != "classic"@.len());
    assert("post-quantum"@.len() != "classic"@.len());
    assert("pqc-strict"@.len() != "classic"@.len());
    assert("strict"@.len() != "classic"@.len());
    assert("pq-strict"@.len() != "classic"@.len());
    assert("hybrid"@.len() != "pre-quantum"@.len());
    assert("pqc-hybrid"@.len() != "pre-quantum"@.len());
    assert("post-quantum"@.len() != "pre-quantum"@.len());
    assert("pqc-strict"@.len() != "pre-quantum"@.len());
    assert("strict"@.len() != "pre-quantum"@.len());
    assert("pq-strict"@.len() != "pre-quantum"@.len());
    assert("hybrid"@.len() != "prequantum"@.len());
    assert("pqc-hybrid"@[1] != "prequantum"@[1]);
    assert("post-quantum"@.len() != "prequantum"@.len());
    assert("pqc-strict"@[1] != "prequantum"@[1]);
    assert("strict"@.len() != "prequantum"@.len());
    assert("pq-strict"@.len() != "prequantum"@.len());
}

} // verus!
