//! KMS-free geometry, refresh, event-ordering, and logical-frame lifecycle primitives.

pub use crate::crtc::{CrtcEventClassification, CrtcEventTracker, CrtcSubmissionId};
pub use crate::elements::merge_render_element_states;
pub use crate::gamma::{GammaNodeState, GammaTransaction};
pub use crate::journal::FormationJournal;
pub use crate::layout::{group_layout, MemberGeometry, MemberRect, MemberSize, MAX_GROUP_MEMBERS};
pub use crate::pending::{
    aggregate_member_events, LogicalFrameCompletion, LogicalFrameDisposition, LogicalFrameEvent,
    LogicalFrameLifecycle, LogicalFrameOutcome, MemberEvent, PendingGroupFrame,
};
pub use crate::refresh::{
    choose_common_refresh, pacing_refresh_interval, RefreshMode, RefreshSync,
};
pub use crate::retirement::{GroupTeardownLifecycle, MemberRetirement, TeardownCommand};
pub use crate::submission::{
    submit_prepared_members, GroupSubmission, GroupSubmissionOutcome, SubmissionRun, SubmissionStep,
};
