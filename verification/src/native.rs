//! Same-device native TILE controller and KMS resource ownership.

pub use crate::commit::TiledCommitState;
pub use crate::device::{TiledDeviceState, TiledTraceNames};
pub use crate::failure::{
    TiledFailure, TiledFailureClass, TiledFailurePolicy, TiledFailureTracker, TiledRetry,
};
pub use crate::formats::{
    choose_tiled_scanout_format, filter_render_formats, is_ccs_modifier, tiled_scanout_formats,
};
pub use crate::gamma::{
    destroy_tiled_gamma_blobs, matching_tiled_gamma_size, restore_tiled_gamma, set_tiled_gamma,
    tiled_gamma_size, GammaProps,
};
pub use crate::group::{
    OutputId, PendingTiledFrame, TiledGroup, TiledMember, TiledPresentation, TiledScanoutBuffer,
};
pub use crate::modes::TimingFingerprint;
pub use crate::names::tiled_output_name;
pub use crate::pair::{
    tiled_candidate, tiled_claim_pair, validate_tile_pair, ConnectedTile, PairRejection,
    TileCandidate, TiledGroupPlan, TiledMemberPlan, ValidatedPair,
};
pub use crate::props::{find_drm_property, read_tile_info};
pub use crate::tile::TileInfo;
pub use crate::tiled::{plan_tiled_groups, resolve_tiled_members, TiledPlanningResult};
