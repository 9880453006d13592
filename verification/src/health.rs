//! Health states reported by the health check.
use vstd::prelude::*;

verus! {

/// Overall health of the database.
#[derive(Clone, Copy, Debug, PartialEq, Eq, Structural)]
pub enum HealthStatus {
    Healthy,
    Degraded,
    Unhealthy,
}

/// The status word used in reports.
pub open spec fn status_word(s: HealthStatus) -> Seq<char> {
    match s {
        HealthStatus::Healthy => seq!['h', 'e', 'a', 'l', 't', 'h', 'y'],
        HealthStatus::Degraded => seq!['d', 'e', 'g', 'r', 'a', 'd', 'e', 'd'],
        HealthStatus::Unhealthy => seq!['u', 'n', 'h', 'e', 'a', 'l', 't', 'h', 'y'],
    }
}

impl HealthStatus {
    /// The status word.
    pub fn word(&self) -> (r: &'static str)
        ensures
            r@ == status_word(*self),
    {
        proof {
            reveal_strlit("healthy");
            reveal_strlit("degraded");
            reveal_strlit("unhealthy");
        }
        match self {
            HealthStatus::Healthy => "healthy",
            HealthStatus::Degraded => "degraded",
            HealthStatus::Unhealthy => "unhealthy",
        }
    }

    /// The status as a JSON object: `{"status":"<word>"}`.
    pub fn to_json(&self) -> (r: &'static str)
        ensures
            r@ == seq!['{', '"', 's', 't', 'a', 't', 'u', 's', '"', ':', '"'] + status_word(*self) + seq!['"', '}'],
    {
        proof {
            reveal_strlit("{\"status\":\"healthy\"}");
            reveal_strlit("{\"status\":\"degraded\"}");
            reveal_strlit("{\"status\":\"unhealthy\"}");
        }
        let r = match self {
            HealthStatus::Healthy => "{\"status\":\"healthy\"}",
            HealthStatus::Degraded => "{\"status\":\"degraded\"}",
            HealthStatus::Unhealthy => "{\"status\":\"unhealthy\"}",
        };
        assert(r@ =~= seq!['{', '"', 's', 't', 'a', 't', 'u', 's', '"', ':', '"'] + status_word(*self) + seq!['"', '}']);
        r
    }
}

} // verus!
