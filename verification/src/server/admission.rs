//! Who may join a running match.

use crate::player_map::PlayerId;
use crate::text::{decimal, hex_u64, push_decimal, push_hex_u64, push_text};
use vstd::prelude::*;

verus! {

/// A seat granted, and when it takes effect.
#[derive(Debug, Clone, PartialEq, Eq)]
pub struct Admission {
    pub pid: PlayerId,
    pub effective_tick: u64,
    pub roster: Vec<PlayerId>,
}

/// What a joiner tells of itself.
#[derive(Debug, Clone, Copy, PartialEq, Eq, Structural)]
pub struct JoinRequest {
    pub asset_digest: u64,
    pub crab_count: u8,
}

/// Why a joiner does not fit the match.
#[derive(Debug, Clone, Copy, PartialEq, Eq, Structural)]
pub enum AdmissionRefusal {
    AssetsMismatch { host: u64, joiner: u64 },
    CrabCountMismatch { host: u8, joiner: u8 },
}

/// Why a dialer is turned away.
#[derive(Debug, Clone, Copy, PartialEq, Eq, Structural)]
pub enum Refusal {
    Admission(AdmissionRefusal),
    Departed,
    /// The host is still forming its match and admits nobody yet.
    Forming,
}

/// A joiner must hold the host's crab assets; and, if it renders crabs at all, as many as
/// the host serves.
pub fn may_admit_joiner(host_assets: u64, host_crabs: u8, req: &JoinRequest) -> (r: Result<
    (),
    AdmissionRefusal,
>)
    ensures
        r == (if req.asset_digest != host_assets {
            Err::<(), AdmissionRefusal>(
                AdmissionRefusal::AssetsMismatch { host: host_assets, joiner: req.asset_digest },
            )
        } else if req.crab_count != 0 && req.crab_count != host_crabs {
            Err::<(), AdmissionRefusal>(
                AdmissionRefusal::CrabCountMismatch { host: host_crabs, joiner: req.crab_count },
            )
        } else {
            Ok::<(), AdmissionRefusal>(())
        }),
{
    if req.asset_digest != host_assets {
        return Err(
            AdmissionRefusal::AssetsMismatch { host: host_assets, joiner: req.asset_digest },
        );
    }
    if req.crab_count != 0 && req.crab_count != host_crabs {
        return Err(
            AdmissionRefusal::CrabCountMismatch { host: host_crabs, joiner: req.crab_count },
        );
    }
    Ok(())
}

impl AdmissionRefusal {
    /// What to tell the joiner.
    pub open spec fn text_of(self) -> Seq<char> {
        match self {
            AdmissionRefusal::AssetsMismatch { host, joiner } =>
                "crab-asset digest mismatch (host "@ + hex_u64(host) + ", joiner "@ + hex_u64(
                    joiner,
                ) + ") — different Sally/colliders"@,
            AdmissionRefusal::CrabCountMismatch { host, joiner } =>
                "crab-count mismatch (host serves "@ + decimal(host as nat) + ", joiner renders "@
                    + decimal(joiner as nat)
                    + ") — the joiner would show the wrong number of crabs; launch it with the host's binding list"@,
        }
    }

    /// What to tell the joiner.
    pub fn text(self) -> (s: String)
        ensures
            s@ == self.text_of(),
    {
        let mut out = String::new();
        match self {
            AdmissionRefusal::AssetsMismatch { host, joiner } => {
                push_text(&mut out, "crab-asset digest mismatch (host ");
                push_hex_u64(&mut out, host);
                push_text(&mut out, ", joiner ");
                push_hex_u64(&mut out, joiner);
                push_text(&mut out, ") — different Sally/colliders");
            },
            AdmissionRefusal::CrabCountMismatch { host, joiner } => {
                push_text(&mut out, "crab-count mismatch (host serves ");
                push_decimal(&mut out, host as u64);
                push_text(&mut out, ", joiner renders ");
                push_decimal(&mut out, joiner as u64);
                push_text(
                    &mut out,
                    ") — the joiner would show the wrong number of crabs; launch it with the host's binding list",
                );
            },
        }
        assert(out@ =~= self.text_of());
        out
    }
}

impl Refusal {
    /// What to tell the dialer.
    pub open spec fn text_of(self) -> Seq<char> {
        match self {
            Refusal::Admission(r) => r.text_of(),
            Refusal::Departed => "you were dropped from the match (connection lost) — rejoin"@,
            Refusal::Forming => "the host is still forming its match — try again in a few seconds"@,
        }
    }

    /// What to tell the dialer.
    pub fn text(self) -> (s: String)
        ensures
            s@ == self.text_of(),
    {
        let mut out = String::new();
        match self {
            Refusal::Admission(r) => {
                return r.text();
            },
            Refusal::Departed => {
                push_text(&mut out, "you were dropped from the match (connection lost) — rejoin");
            },
            Refusal::Forming => {
                push_text(
                    &mut out,
                    "the host is still forming its match — try again in a few seconds",
                );
            },
        }
        assert(out@ =~= self.text_of());
        out
    }
}

} // verus!
