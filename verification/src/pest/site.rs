//! The policy rules of a site: what target ranges ask for, and how an
//! existing policy is reconciled with the recommendation.

use vstd::prelude::*;

verus! {

/// What a policy does for a species.
#[derive(Copy, Clone, Debug, PartialEq, Eq, Structural)]
pub enum PolicyAction {
    Cull,
    Conserve,
    DoNothing,
}

impl PolicyAction {
    /// The wire code of this action.
    pub fn code(&self) -> (r: u8)
        ensures
            r == (match self {
                PolicyAction::Cull => 0x90u8,
                PolicyAction::Conserve => 0xA0u8,
                PolicyAction::DoNothing => 0x00u8,
            }),
    {
        match self {
            PolicyAction::Cull => 0x90,
            PolicyAction::Conserve => 0xA0,
            PolicyAction::DoNothing => 0x00,
        }
    }
}

/// A policy the authority has on file, by its identifier.
#[derive(Copy, Clone, Debug, PartialEq, Eq, Structural)]
pub struct Policy {
    pub id: u32,
    pub action: PolicyAction,
}

/// The allowed population range for one species.
#[derive(Copy, Clone, Debug, PartialEq, Eq, Structural)]
pub struct Target {
    pub min: u32,
    pub max: u32,
}

/// The action a sighting count asks for: cull above the range, conserve
/// below it or when the species was not seen at all, nothing inside it.
pub open spec fn spec_recommended(count: Option<u32>, target: Target) -> PolicyAction {
    match count {
        Some(c) => if c > target.max {
            PolicyAction::Cull
        } else if c < target.min {
            PolicyAction::Conserve
        } else {
            PolicyAction::DoNothing
        },
        None => PolicyAction::Conserve,
    }
}

/// What to do about the policy on file.
#[derive(Copy, Clone, Debug, PartialEq, Eq, Structural)]
pub enum PolicyStep {
    /// No policy is on file and one is wanted: create it.
    Create(PolicyAction),
    /// The policy on file does the wrong thing: delete it, then create the
    /// right one.
    Replace(u32, PolicyAction),
    /// The policy on file, or the absence of one, is already right.
    Keep,
}

/// Recommend an action from a sighting count and the target range.
pub fn recommended_action(count: Option<u32>, target: Target) -> (r: PolicyAction)
    ensures
        r == spec_recommended(count, target),
{
    match count {
        Some(c) => {
            if c > target.max {
                PolicyAction::Cull
            } else if c < target.min {
                PolicyAction::Conserve
            } else {
                PolicyAction::DoNothing
            }
        },
        None => PolicyAction::Conserve,
    }
}

/// Reconcile the recommendation with the policy on file: create a missing
/// wanted policy, replace a wrong one, touch nothing otherwise.
pub fn policy_step(recommended: PolicyAction, existing: Option<Policy>) -> (r: PolicyStep)
    ensures
        r == (match existing {
            None => if recommended == PolicyAction::DoNothing {
                PolicyStep::Keep
            } else {
                PolicyStep::Create(recommended)
            },
            Some(p) => if p.action == recommended {
                PolicyStep::Keep
            } else {
                PolicyStep::Replace(p.id, recommended)
            },
        }),
{
    match existing {
        None => {
            if recommended == PolicyAction::DoNothing {
                PolicyStep::Keep
            } else {
                PolicyStep::Create(recommended)
            }
        },
        Some(p) => {
            if p.action == recommended {
                PolicyStep::Keep
            } else {
                PolicyStep::Replace(p.id, recommended)
            }
        },
    }
}

} // verus!
