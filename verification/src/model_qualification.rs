//! How well a model qualified on an upstream: fully, through adaptation,
//! not at all, or not testable because the provider failed operationally.
use vstd::prelude::*;
use crate::config::UpstreamProtocol;

verus! {

/// The qualification of a model on one upstream key.
#[derive(Clone, Copy, Debug, PartialEq, Eq, Structural)]
pub enum ModelQualificationLevel {
    Full,
    Adapted,
    Unusable,
    OperationalFailure,
}

/// How a qualification attempt ended.
#[derive(Clone, Copy, Debug, PartialEq, Eq, Structural)]
pub enum ModelQualificationCategory {
    Passed,
    Authentication,
    RateLimit,
    UpstreamUnavailable,
    RequestRejected,
    ModelNotFound,
    MalformedResponse,
    EmptyResponse,
    Timeout,
    Network,
}

impl ModelQualificationCategory {
    /// A failure of the provider rather than of the model.
    pub open spec fn operational(self) -> bool {
        self == ModelQualificationCategory::Authentication || self
            == ModelQualificationCategory::RateLimit || self
            == ModelQualificationCategory::UpstreamUnavailable || self
            == ModelQualificationCategory::Timeout || self == ModelQualificationCategory::Network
    }

    /// A failure that needs to be seen again before it counts.
    pub open spec fn needs_confirmation(self) -> bool {
        self == ModelQualificationCategory::RequestRejected || self
            == ModelQualificationCategory::ModelNotFound || self
            == ModelQualificationCategory::MalformedResponse || self
            == ModelQualificationCategory::EmptyResponse
    }

    pub fn is_operational(self) -> (r: bool)
        ensures
            r == self.operational(),
    {
        match self {
            ModelQualificationCategory::Authentication | ModelQualificationCategory::RateLimit
            | ModelQualificationCategory::UpstreamUnavailable | ModelQualificationCategory::Timeout
            | ModelQualificationCategory::Network => true,
            _ => false,
        }
    }

    pub fn requires_confirmation(self) -> (r: bool)
        ensures
            r == self.needs_confirmation(),
    {
        match self {
            ModelQualificationCategory::RequestRejected | ModelQualificationCategory::ModelNotFound
            | ModelQualificationCategory::MalformedResponse | ModelQualificationCategory::EmptyResponse => true,
            _ => false,
        }
    }
}

/// One qualification attempt's record.
#[derive(Clone, Debug)]
pub struct ModelQualificationEvidence {
    pub upstream_id: String,
    pub key_prefix: String,
    pub model: String,
    pub protocol: UpstreamProtocol,
    pub level: ModelQualificationLevel,
    pub category: ModelQualificationCategory,
    pub latency_ms: u64,
    pub attempted_at: u64,
}

/// A dialect capability that probes establish.
#[derive(Clone, Copy, Debug, PartialEq, Eq, Structural)]
pub enum Capability {
    TextInput,
    TextStream,
    FunctionTools,
    ToolContinuation,
    /// Any capability the qualification does not read.
    Other,
}

/// What the probes established about one capability.
#[derive(Clone, Copy, Debug, PartialEq, Eq, Structural)]
pub enum EvidenceState {
    Supported,
    /// Any state other than supported.
    Other,
}

/// Whether a dialect profile's probes are complete and current.
#[derive(Clone, Copy, Debug, PartialEq, Eq, Structural)]
pub enum DialectProfileState {
    Verified,
    /// Any state other than verified.
    Other,
}

/// The dialect profile of a route as the qualification reads it: its state
/// and the evidence per capability (the first entry of a capability counts).
#[derive(Clone, Debug)]
pub struct UpstreamDialectProfile {
    pub state: DialectProfileState,
    pub capabilities: Vec<(Capability, EvidenceState)>,
}

/// The evidence recorded for capability `c`.
pub open spec fn evidence_for(caps: Seq<(Capability, EvidenceState)>, c: Capability) -> Option<
    EvidenceState,
>
    decreases caps.len(),
{
    if caps.len() == 0 {
        None
    } else if caps[0].0 == c {
        Some(caps[0].1)
    } else {
        evidence_for(caps.drop_first(), c)
    }
}

/// Some record marks capability `c` as supported.
pub open spec fn has_supported(caps: Seq<(Capability, EvidenceState)>, c: Capability) -> bool {
    exists|i: int| 0 <= i < caps.len() && caps[i] == (c, EvidenceState::Supported)
}

/// The evidence for a capability is that of its first record, if any.
pub proof fn law_first_evidence(caps: Seq<(Capability, EvidenceState)>, c: Capability)
    ensures
        evidence_for(caps, c) matches Some(e) ==> exists|i: int|
            0 <= i < caps.len() && caps[i] == (c, e) && forall|j: int| 0 <= j < i ==> (#[trigger] caps[j]).0 != c,
        evidence_for(caps, c) is None <==> forall|j: int| 0 <= j < caps.len() ==> (#[trigger] caps[j]).0 != c,
    decreases caps.len(),
{
    if caps.len() > 0 {
        let rest = caps.drop_first();
        law_first_evidence(rest, c);
        if caps[0].0 != c {
            if let Some(e) = evidence_for(rest, c) {
                let i = choose|i: int|
                    0 <= i < rest.len() && rest[i] == (c, e) && forall|j: int| 0 <= j < i ==> (#[trigger] rest[j]).0 != c;
                assert(caps[i + 1] == rest[i]);
                assert forall|j: int| 0 <= j < i + 1 implies (#[trigger] caps[j]).0 != c by {
                    if j > 0 {
                        assert(caps[j] == rest[j - 1]);
                    }
                }
            }
            if evidence_for(caps, c) is None {
                assert forall|j: int| 0 <= j < caps.len() implies (#[trigger] caps[j]).0 != c by {
                    if j > 0 {
                        assert(caps[j] == rest[j - 1]);
                    }
                }
            } else {
                assert forall|j: int| 0 <= j < rest.len() implies rest[j] == caps[j + 1] by {}
            }
        }
    }
}

/// A verified profile with text input, streaming, function tools and tool
/// continuation all supported.
pub open spec fn fully_supported(p: UpstreamDialectProfile) -> bool {
    &&& p.state == DialectProfileState::Verified
    &&& evidence_for(p.capabilities@, Capability::TextInput) == Some(EvidenceState::Supported)
    &&& evidence_for(p.capabilities@, Capability::TextStream) == Some(EvidenceState::Supported)
    &&& evidence_for(p.capabilities@, Capability::FunctionTools) == Some(EvidenceState::Supported)
    &&& evidence_for(p.capabilities@, Capability::ToolContinuation) == Some(EvidenceState::Supported)
}

fn supported(caps: &Vec<(Capability, EvidenceState)>, c: Capability) -> (r: bool)
    ensures
        r == (evidence_for(caps@, c) == Some(EvidenceState::Supported)),
{
    let mut i: usize = 0;
    assert(caps@.skip(0) == caps@);
    while i < caps.len()
        invariant
            i <= caps@.len(),
            evidence_for(caps@, c) == evidence_for(caps@.skip(i as int), c),
        decreases caps@.len() - i,
    {
        assert(caps@.skip(i as int).drop_first() == caps@.skip(i + 1));
        if caps[i].0 == c {
            return caps[i].1 == EvidenceState::Supported;
        }
        i = i + 1;
    }
    false
}

/// The level a qualification attempt earns: operational failures say
/// nothing of the model; any other failure makes it unusable; a pass is
/// full when the route's verified profile supports text, streaming,
/// function tools and tool continuation, else adapted.
pub fn classify_qualification_level(
    category: ModelQualificationCategory,
    profile: Option<&UpstreamDialectProfile>,
) -> (r: ModelQualificationLevel)
    ensures
        category.operational() ==> r == ModelQualificationLevel::OperationalFailure,
        (category == ModelQualificationCategory::Authentication || category == ModelQualificationCategory::RateLimit
            || category == ModelQualificationCategory::UpstreamUnavailable || category
            == ModelQualificationCategory::Timeout || category == ModelQualificationCategory::Network) ==> r
            == ModelQualificationLevel::OperationalFailure,
        r == ModelQualificationLevel::Full ==> category == ModelQualificationCategory::Passed && (profile matches Some(p)
            && p.state == DialectProfileState::Verified && has_supported(p.capabilities@, Capability::TextInput)
            && has_supported(p.capabilities@, Capability::TextStream) && has_supported(
            p.capabilities@,
            Capability::FunctionTools,
        ) && has_supported(p.capabilities@, Capability::ToolContinuation)),
        category == ModelQualificationCategory::Passed && (profile is None || profile->Some_0.state
            != DialectProfileState::Verified) ==> r == ModelQualificationLevel::Adapted,
        (category == ModelQualificationCategory::RequestRejected || category
            == ModelQualificationCategory::ModelNotFound || category == ModelQualificationCategory::MalformedResponse
            || category == ModelQualificationCategory::EmptyResponse) ==> r == ModelQualificationLevel::Unusable,
        !category.operational() && category != ModelQualificationCategory::Passed ==> r
            == ModelQualificationLevel::Unusable,
        category == ModelQualificationCategory::Passed ==> r == if (profile matches Some(p)
            && fully_supported(*p)) {
            ModelQualificationLevel::Full
        } else {
            ModelQualificationLevel::Adapted
        },
{
    if category.is_operational() {
        return ModelQualificationLevel::OperationalFailure;
    }
    if category != ModelQualificationCategory::Passed {
        return ModelQualificationLevel::Unusable;
    }
    let full = match profile {
        Some(p) => p.state == DialectProfileState::Verified && supported(&p.capabilities, Capability::TextInput)
            && supported(&p.capabilities, Capability::TextStream) && supported(
            &p.capabilities,
            Capability::FunctionTools,
        ) && supported(&p.capabilities, Capability::ToolContinuation),
        None => false,
    };
    proof {
        if let Some(p) = profile {
            law_first_evidence(p.capabilities@, Capability::TextInput);
            law_first_evidence(p.capabilities@, Capability::TextStream);
            law_first_evidence(p.capabilities@, Capability::FunctionTools);
            law_first_evidence(p.capabilities@, Capability::ToolContinuation);
        }
    }
    if full {
        ModelQualificationLevel::Full
    } else {
        ModelQualificationLevel::Adapted
    }
}

/// No category is both an operational failure and one that needs
/// confirmation.
pub proof fn law_categories_disjoint(c: ModelQualificationCategory)
    ensures
        !(c.operational() && c.needs_confirmation()),
{
}


/// The failures of the provider rather than of the model are exactly an
/// authentication error, a rate limit, an unavailable upstream, a timeout
/// and a network error; the failures that need confirmation are exactly a
/// rejected request, a missing model, a malformed and an empty response.
pub proof fn law_provider_failures(c: ModelQualificationCategory)
    ensures
        c.operational() <==> (c == ModelQualificationCategory::Authentication || c == ModelQualificationCategory::RateLimit
            || c == ModelQualificationCategory::UpstreamUnavailable || c == ModelQualificationCategory::Timeout || c
            == ModelQualificationCategory::Network),
        c.needs_confirmation() <==> (c == ModelQualificationCategory::RequestRejected || c
            == ModelQualificationCategory::ModelNotFound || c == ModelQualificationCategory::MalformedResponse || c
            == ModelQualificationCategory::EmptyResponse),
        c != ModelQualificationCategory::Passed ==> (c.operational() || c.needs_confirmation()),
{
}
} // verus!
