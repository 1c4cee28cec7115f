//! Cross-device discovery snapshot and immutable generalized group plans.

pub use crate::plan::{
    configured_scale_matches, plan_display_groups, GroupMemberPlan, GroupPlanRejection,
    GroupPlanningResult, OutputGroupPlan,
};
pub use crate::selection::{ConnectedOutput, GroupMemberClaim};
