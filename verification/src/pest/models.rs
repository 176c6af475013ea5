use vstd::prelude::*;

verus! {

/// Handshake message naming the protocol and its version.
#[derive(Clone, PartialEq, Debug)]
pub struct Hello {
    pub protocol: String,
    pub version: u32,
}

/// Error report carried over the wire.
#[derive(Clone, PartialEq, Debug)]
pub struct PestControlError {
    pub message: String,
}

/// Positive acknowledgment with no further content.
#[derive(Clone, PartialEq, Debug)]
pub struct Okay {}

/// Request to open a line to the authority for one site.
#[derive(Clone, PartialEq, Debug)]
pub struct DialAuthority {
    pub site: u32,
}

/// Allowed population range for one species.
#[derive(Clone, PartialEq, Debug)]
pub struct TargetPopulation {
    pub species: String,
    pub min: u32,
    pub max: u32,
}

/// Target ranges for every species of one site.
#[derive(Clone, PartialEq, Debug)]
pub struct TargetPopulations {
    pub site: u32,
    pub populations: Vec<TargetPopulation>,
}

/// Request to install a policy for one species.
#[derive(Clone, PartialEq, Debug)]
pub struct CreatePolicy {
    pub species: String,
    pub action: u8,
}

/// Request to retract a policy by its identifier.
#[derive(Clone, PartialEq, Debug)]
pub struct DeletePolicy {
    pub policy: u32,
}

/// Identifier assigned to a newly created policy.
#[derive(Clone, PartialEq, Debug)]
pub struct PolicyResult {
    pub policy: u32,
}

/// Observed head count for one species during a visit.
#[derive(Clone, PartialEq, Debug)]
pub struct VisitPopulation {
    pub species: String,
    pub count: u32,
}

/// Field report of all species seen at one site.
#[derive(Clone, PartialEq, Debug)]
pub struct SiteVisit {
    pub site: u32,
    pub populations: Vec<VisitPopulation>,
}

/// Every message of the authority protocol.
#[derive(Clone, Debug)]
pub enum Message {
    Hello(Hello),
    PestControlError(PestControlError),
    Okay(Okay),
    DialAuthority(DialAuthority),
    TargetPopulations(TargetPopulations),
    CreatePolicy(CreatePolicy),
    DeletePolicy(DeletePolicy),
    PolicyResult(PolicyResult),
    SiteVisit(SiteVisit),
}

/// Cursor over a byte buffer from which messages are decoded one at a time.
pub struct MessageIterator {
    pub input: Vec<u8>,
    pub pos: usize,
}

} // verus!
