use std::collections::{HashMap, HashSet};
use std::sync::atomic::{AtomicUsize, Ordering};
use std::sync::Arc;
use std::time::Duration;

use drm::control::atomic::AtomicModeReq;
use drm::control::{from_u32, property, RawResourceHandle};
use niri_tiled::commit::TiledCommitTracker;
use niri_tiled::crtc::CrtcSubmissionId;
use niri_tiled::flip::{
    aggregate_member_events, DrmEventMetadata, DrmEventTime, TiledFlipState,
};
use niri_tiled::formats::{Format, FOURCC_ARGB8888, FOURCC_XRGB8888, MODIFIER_LINEAR};
use niri_tiled::gamma::{
    tiled_gamma_data, tiled_gamma_request, GammaError, TiledGammaOutcome,
};
use niri_tiled::group::{RequestError, EXPECTED_TILED_SWAPCHAIN_SLOTS};
use niri_tiled::modes::DrmMode;
use niri_tiled::names::OutputName;
use niri_tiled::native::{
    choose_tiled_scanout_format, destroy_tiled_gamma_blobs, filter_render_formats,
    find_drm_property, is_ccs_modifier, matching_tiled_gamma_size, plan_tiled_groups,
    read_tile_info, resolve_tiled_members, restore_tiled_gamma, set_tiled_gamma, tiled_candidate,
    tiled_claim_pair, tiled_gamma_size, tiled_output_name, tiled_scanout_formats,
    validate_tile_pair, ConnectedTile, GammaProps, OutputId, PairRejection, PendingTiledFrame,
    TileCandidate, TileInfo, TiledCommitState, TiledDeviceState, TiledFailureClass,
    TiledFailurePolicy, TiledFailureTracker, TiledGroup, TiledMember, TiledMemberPlan,
    TiledScanoutBuffer, TimingFingerprint,
};
use niri_tiled::pair::WlMode;
use niri_tiled::plan::OutputConfig;
use niri_tiled::props::{
    enum_prop_value, tile_blob_id, EnumEntry, PropertyInfo, PropertyKind,
};
use niri_tiled::request::{request_of, Setting};
use niri_tiled::selection::ConnectorInfo;
use niri_tiled::tiled::{
    detected_group_names, detected_rejections, explicit_group_suppresses_standalone,
    resolve_and_claim_explicit_members, tiled_group_problem, ConfigMatch, TiledProblem,
};

const ABGR8888: u32 = 0x3432_4241;

fn nanos(duration: Duration) -> u128 {
    duration.as_nanos()
}

#[test]
fn commit_tracker_reuses_only_an_exact_validation_fingerprint() {
    let mut commit = TiledCommitTracker::<u8>::default();
    assert_eq!(
        commit.prepare(|fingerprint| *fingerprint == 7),
        TiledCommitState::NeedsValidation
    );

    commit.validated(7);
    assert_eq!(
        commit.prepare(|fingerprint| *fingerprint == 7),
        TiledCommitState::ValidatedNeedsModeset
    );
    commit.activated();
    assert_eq!(
        commit.prepare(|fingerprint| *fingerprint == 7),
        TiledCommitState::Active
    );

    assert_eq!(
        commit.prepare(|fingerprint| *fingerprint == 8),
        TiledCommitState::NeedsValidation
    );
    commit.validated(8);
    commit.reset();
    assert_eq!(
        commit.prepare(|fingerprint| *fingerprint == 8),
        TiledCommitState::NeedsValidation
    );
}

fn event(sequence: u32, millis: u64) -> DrmEventMetadata {
    DrmEventMetadata {
        sequence,
        time: DrmEventTime::Monotonic(nanos(Duration::from_millis(millis))),
    }
}

#[test]
fn aggregate_events_keeps_primary_sequence_and_later_timestamp() {
    let primary = event(1_000, 10);
    let secondary = event(5, 12);

    let aggregated = aggregate_member_events(primary, secondary);
    assert_eq!(aggregated.sequence, 1_000);
    assert!(matches!(
        aggregated.time,
        DrmEventTime::Monotonic(time) if time == nanos(Duration::from_millis(12))
    ));
}

#[test]
fn realtime_events_count_as_earliest() {
    let realtime = DrmEventMetadata {
        sequence: 3,
        time: DrmEventTime::Realtime(99),
    };
    assert_eq!(
        aggregate_member_events(realtime, event(4, 1)),
        DrmEventMetadata {
            sequence: 3,
            ..event(4, 1)
        }
    );
    assert_eq!(aggregate_member_events(event(4, 1), realtime), event(4, 1));
    assert_eq!(aggregate_member_events(realtime, realtime), realtime);
}

#[test]
fn flip_state_handles_both_event_orders_and_duplicate_members() {
    let primary = event(1_000, 10);
    let secondary = event(5, 12);

    for order in [
        [(0, primary), (1, secondary)],
        [(1, secondary), (0, primary)],
    ] {
        let mut state = TiledFlipState::default();
        state.frame_committed("frame");
        assert!(state.record_member_event(order[0].0, order[0].1).is_none());
        // A duplicate from the first member must not complete the frame.
        assert!(state.record_member_event(order[0].0, order[0].1).is_none());
        let (frame, meta) = state.record_member_event(order[1].0, order[1].1).unwrap();
        assert_eq!(frame, "frame");
        assert_eq!(meta.sequence, primary.sequence);
        assert!(matches!(
            meta.time,
            DrmEventTime::Monotonic(time) if time == nanos(Duration::from_millis(12))
        ));
        assert!(!state.has_pending_frame());
    }
}

struct DropProbe(Arc<AtomicUsize>);

impl Drop for DropProbe {
    fn drop(&mut self) {
        self.0.fetch_add(1, Ordering::SeqCst);
    }
}

#[test]
fn flip_state_reset_covers_every_pending_state() {
    let event = DrmEventMetadata {
        sequence: 1,
        time: DrmEventTime::Monotonic(0),
    };
    let mut state = TiledFlipState::default();
    assert!(!state.reset());

    state.frame_committed(1);
    assert!(state.reset());
    assert!(!state.has_pending_frame());

    state.frame_committed(2);
    assert!(state.record_member_event(0, event).is_none());
    assert!(state.reset());
    assert!(!state.has_pending_frame());

    let drops = Arc::new(AtomicUsize::new(0));
    let mut state = TiledFlipState::default();
    state.frame_committed(DropProbe(drops.clone()));
    assert!(state.reset());
    assert_eq!(drops.load(Ordering::SeqCst), 1);
}

const NOW: u128 = 1_000_000_000_000;

#[test]
fn tiled_failures_retry_with_bounded_backoff() {
    let now = NOW;
    let mut failures = TiledFailureTracker::default();

    for (attempt, delay) in [
        Duration::from_millis(250),
        Duration::from_secs(1),
        Duration::from_secs(5),
    ]
    .into_iter()
    .enumerate()
    {
        let delay = nanos(delay);
        let retry = failures
            .record("DP-4+DP-5".into(), TiledFailureClass::Retryable, now)
            .unwrap();
        assert_eq!(usize::from(retry.attempt), attempt);
        assert_eq!(retry.delay, delay);
        assert!(failures.blocks("DP-4+DP-5", now));
        assert!(!failures.retry_due("DP-4+DP-5", retry.generation, now));
        assert!(failures.retry_due("DP-4+DP-5", retry.generation, now + delay));
    }

    assert!(failures
        .record("DP-4+DP-5".into(), TiledFailureClass::Retryable, now)
        .is_none());
    assert_eq!(
        failures.policy("DP-4+DP-5"),
        Some(TiledFailurePolicy::UntilEnvironmentChange),
    );
    assert!(failures.blocks("DP-4+DP-5", now + nanos(Duration::from_secs(60))));
}

#[test]
fn tiled_failure_generations_make_stale_retries_harmless() {
    let now = NOW;
    let later = now + nanos(Duration::from_secs(10));
    let mut failures = TiledFailureTracker::default();
    let old = failures
        .record("DP-4+DP-5".into(), TiledFailureClass::Retryable, now)
        .unwrap();
    let new = failures
        .record("DP-4+DP-5".into(), TiledFailureClass::Retryable, now)
        .unwrap();

    assert!(!failures.retry_due("DP-4+DP-5", old.generation, later));
    assert!(failures.retry_due("DP-4+DP-5", new.generation, later));

    failures.remove("DP-4+DP-5");
    assert!(!failures.retry_due("DP-4+DP-5", new.generation, later));
    assert!(!failures.blocks("DP-4+DP-5", now));
}

#[test]
fn persistent_and_session_failures_wait_for_invalidation() {
    let now = NOW;
    let later = now + nanos(Duration::from_secs(60));
    let mut failures = TiledFailureTracker::default();

    failures.record(
        "persistent".into(),
        TiledFailureClass::UntilEnvironmentChange,
        now,
    );
    failures.record("session".into(), TiledFailureClass::UntilSessionResume, now);
    assert!(failures.blocks("persistent", later));
    assert!(failures.blocks("session", later));

    failures.clear();
    assert!(!failures.blocks("persistent", now));
    assert!(!failures.blocks("session", now));
}

#[test]
fn failures_of_different_groups_do_not_mix() {
    let mut failures = TiledFailureTracker::default();
    failures.record("a".into(), TiledFailureClass::Retryable, NOW);
    let retry = failures
        .record("b".into(), TiledFailureClass::Retryable, NOW)
        .unwrap();
    assert_eq!((retry.attempt, retry.generation), (0, 2));
    failures.record("a".into(), TiledFailureClass::UntilSessionResume, NOW);
    let retry = failures
        .record("a".into(), TiledFailureClass::Retryable, NOW)
        .unwrap();
    assert_eq!(retry.attempt, 0);
    assert_eq!(failures.policy("c"), None);
}

fn modeinfo(clock: u32, w: u16, h: u16) -> DrmMode {
    DrmMode {
        clock,
        hdisplay: w,
        hsync_start: w + 8,
        hsync_end: w + 32,
        htotal: w + 80,
        vdisplay: h,
        vsync_start: h + 3,
        vsync_end: h + 10,
        vtotal: h + 28,
        vrefresh: 60,
        flags: drm_ffi::DRM_MODE_FLAG_NHSYNC | drm_ffi::DRM_MODE_FLAG_PVSYNC,
        name: [0; 32],
        mode_type: drm_ffi::DRM_MODE_TYPE_PREFERRED,
        hskew: 0,
        vscan: 0,
    }
}

fn candidate(
    _name: &str,
    identity: &str,
    tile: Option<TileInfo>,
    modes: Vec<DrmMode>,
) -> TileCandidate {
    TileCandidate {
        identity: identity.to_string(),
        tile,
        modes,
        plane_fourccs: vec![FOURCC_XRGB8888, FOURCC_ARGB8888],
    }
}

fn lg_tile(h_loc: u32) -> Option<TileInfo> {
    Some(TileInfo {
        group_id: 1,
        single_monitor: true,
        num_h_tiles: 2,
        num_v_tiles: 1,
        tile_h_loc: h_loc,
        tile_v_loc: 0,
        tile_w: 2560,
        tile_h: 2880,
    })
}

#[test]
fn parse_tile_info() {
    assert_eq!(TileInfo::parse(b"1:1:2:1:0:0:2560:2880\0"), {
        let mut tile = lg_tile(0).unwrap();
        tile.group_id = 1;
        Some(tile)
    });
    assert_eq!(TileInfo::parse(b"1:1:2:1:1:0:2560:2880"), lg_tile(1),);
    // Wrong field count, bad values, garbage.
    assert_eq!(TileInfo::parse(b"1:1:2:1:0:0:2560\0"), None);
    assert_eq!(TileInfo::parse(b"1:1:2:1:0:0:2560:2880:extra\0"), None);
    assert_eq!(TileInfo::parse(b"1:1:0:1:0:0:2560:2880\0"), None);
    assert_eq!(TileInfo::parse(b"1:1:2:1:2:0:2560:2880\0"), None);
    assert_eq!(TileInfo::parse(b"1:1:2:1:0:0:0:2880\0"), None);
    assert_eq!(TileInfo::parse(b"1:1:2:1:0:0:65536:2880\0"), None);
    assert_eq!(TileInfo::parse(b"garbage\0"), None);
    assert_eq!(TileInfo::parse(b""), None);
}

#[test]
fn tile_fields_are_plain_unsigned_numbers() {
    let right = TileInfo::parse(b"+1:01:2:1:1:0:2560:2880\0\0\0").unwrap();
    assert_eq!(Some(right), lg_tile(1));
    assert_eq!((right.x_off(), right.y_off()), (Some(2560), Some(0)));
    for bad in [
        "-1:1:2:1:0:0:2560:2880",
        " 1:1:2:1:0:0:2560:2880",
        "+:1:2:1:0:0:2560:2880",
        ":1:2:1:0:0:2560:2880",
        "++1:1:2:1:0:0:2560:2880",
        "4294967296:1:2:1:0:0:2560:2880",
        "1:1:2:1:0:0:2560:2880:",
        "1:1:4294967295:1:4294967294:0:2560:2880",
        "1:1:2:1:0:0:25\u{e9}0:2880",
    ] {
        assert_eq!(TileInfo::parse(bad.as_bytes()), None, "{bad}");
    }
    assert_eq!(TileInfo::parse(b"\xff:1:2:1:0:0:2560:2880"), None);
    let widest = TileInfo::parse(b"4294967295:0:2:3:1:2:65535:65535").unwrap();
    assert_eq!(widest.group_id, u32::MAX);
    assert!(!widest.single_monitor);
    assert_eq!(widest.y_off(), Some(131_070));
    let unchecked = TileInfo {
        tile_h_loc: u32::MAX,
        ..widest
    };
    assert_eq!(unchecked.x_off(), None);
}

#[test]
fn fingerprint_ignores_name_and_type() {
    let a = modeinfo(533_250, 2560, 2880);
    let mut b = modeinfo(533_250, 2560, 2880);
    b.mode_type = drm_ffi::DRM_MODE_TYPE_DRIVER;
    b.name[0] = b'X';
    assert_eq!(TimingFingerprint::from(a), TimingFingerprint::from(b));

    let c = modeinfo(533_251, 2560, 2880);
    assert_ne!(TimingFingerprint::from(a), TimingFingerprint::from(c));
}

#[test]
fn validate_lg_5k_pair() {
    let modes_a = vec![
        modeinfo(533_250, 2560, 2880),
        modeinfo(268_500, 2560, 1440),
    ];
    let modes_b = modes_a.clone();
    let a = candidate("DP-4", "LG UltraFine 5K 123", lg_tile(0), modes_a);
    let b = candidate("DP-5", "LG UltraFine 5K 123", lg_tile(1), modes_b);

    let pair = validate_tile_pair(&a, &b, true).unwrap();
    assert_eq!(pair.tile_w, 2560);
    assert_eq!(pair.tile_h, 2880);
    assert_eq!(pair.a_x, 0);
    assert_eq!(pair.b_x, 2560);
    assert_eq!(pair.tile_mode.size(), (2560, 2880));

    // Swapped connector order must still yield the left tile at x = 0.
    let pair = validate_tile_pair(&b, &a, true).unwrap();
    assert_eq!(pair.a_x, 2560);
    assert_eq!(pair.b_x, 0);
}

#[test]
fn reject_mismatching_pairs() {
    let modes = || vec![modeinfo(533_250, 2560, 2880)];
    let left = || candidate("DP-4", "LG UltraFine 5K 123", lg_tile(0), modes());
    let right = || candidate("DP-5", "LG UltraFine 5K 123", lg_tile(1), modes());

    // Different identity: never cross-pair two physical panels.
    let other_panel = candidate("DP-5", "LG UltraFine 5K 456", lg_tile(1), modes());
    assert_eq!(
        validate_tile_pair(&left(), &other_panel, true),
        Err(PairRejection::IdentityMismatch),
    );

    // Missing topology when required.
    let no_tile = candidate("DP-5", "LG UltraFine 5K 123", None, modes());
    assert_eq!(
        validate_tile_pair(&left(), &no_tile, true),
        Err(PairRejection::MissingTopology),
    );

    // Different TILE group id.
    let mut other_group = lg_tile(1).unwrap();
    other_group.group_id = 2;
    let other_group = candidate("DP-5", "LG UltraFine 5K 123", Some(other_group), modes());
    assert_eq!(
        validate_tile_pair(&left(), &other_group, true),
        Err(PairRejection::GroupIdMismatch),
    );

    // Different timings.
    let other_modes = vec![modeinfo(533_333, 2560, 2880)];
    let other_timing = candidate("DP-5", "LG UltraFine 5K 123", lg_tile(1), other_modes);
    assert_eq!(
        validate_tile_pair(&left(), &other_timing, true),
        Err(PairRejection::NoCommonMode),
    );

    // Different format supersets are valid when the tiles retain a common format.
    let mut other_format = right();
    other_format.plane_fourccs = vec![FOURCC_XRGB8888];
    assert!(validate_tile_pair(&left(), &other_format, true).is_ok());

    // A disjoint format set is not viable.
    other_format.plane_fourccs = vec![ABGR8888];
    assert_eq!(
        validate_tile_pair(&left(), &other_format, true),
        Err(PairRejection::PlaneFormatMismatch),
    );
}

#[test]
fn reject_topology_that_is_no_horizontal_pair() {
    let modes = || vec![modeinfo(533_250, 2560, 2880)];
    let left = candidate("DP-4", "LG", lg_tile(0), modes());
    let reject = |change: fn(&mut TileInfo)| {
        let mut tile = lg_tile(1).unwrap();
        change(&mut tile);
        let right = candidate("DP-5", "LG", Some(tile), modes());
        validate_tile_pair(&left, &right, true).unwrap_err()
    };
    assert_eq!(
        reject(|tile| tile.single_monitor = false),
        PairRejection::NotSingleMonitor
    );
    assert_eq!(
        reject(|tile| tile.num_v_tiles = 2),
        PairRejection::NotHorizontalPair
    );
    assert_eq!(
        reject(|tile| tile.tile_h_loc = 0),
        PairRejection::DuplicatePosition
    );
    assert_eq!(
        reject(|tile| tile.tile_v_loc = 1),
        PairRejection::NotHorizontalPair
    );
    assert_eq!(
        reject(|tile| tile.tile_h_loc = u32::MAX),
        PairRejection::MissingTopology
    );
    assert_eq!(
        PairRejection::DuplicatePosition.to_string(),
        "duplicate tile position"
    );
}

#[test]
fn interlaced_modes_are_never_shared() {
    let interlaced = DrmMode {
        flags: drm_ffi::DRM_MODE_FLAG_INTERLACE,
        ..modeinfo(533_250, 2560, 2880)
    };
    let modes = || vec![interlaced, modeinfo(268_500, 2560, 1440)];
    let a = candidate("DP-4", "LG", None, modes());
    let b = candidate("DP-5", "LG", None, modes());
    let pair = validate_tile_pair(&a, &b, false).unwrap();
    assert_eq!(pair.tile_mode.size(), (2560, 1440));
}

#[test]
fn incomplete_explicit_group_claims_its_present_member() {
    let connected = ["DP-4", "DP-6"];
    let configured = ["DP-4".to_owned(), "DP-5".to_owned()];
    let mut claimed = HashSet::new();
    let (_members, missing) =
        resolve_and_claim_explicit_members(&configured, &connected, &mut claimed);

    assert_eq!(missing, ["DP-5"]);
    assert!(claimed.contains(&0));
    assert!(!claimed.contains(&1));
    assert!(explicit_group_suppresses_standalone(false, 1));
    assert!(explicit_group_suppresses_standalone(true, 0));
    assert!(!explicit_group_suppresses_standalone(false, 0));
}

#[test]
fn either_missing_native_member_suppresses_the_present_member() {
    for configured in [
        ["DP-4".to_owned(), "DP-5".to_owned()],
        ["DP-5".to_owned(), "DP-4".to_owned()],
    ] {
        let connected = ["DP-4"];
        let mut claimed = HashSet::new();
        let (members, missing) =
            resolve_and_claim_explicit_members(&configured, &connected, &mut claimed);
        assert_eq!(members, vec![0]);
        assert_eq!(missing.len(), 1);
        assert!(claimed.contains(&0));
        assert!(explicit_group_suppresses_standalone(false, missing.len()));
    }
}

#[test]
fn configured_names_ignore_case() {
    let configured = ["dp-5".to_owned(), "DP-9".to_owned(), "Dp-4".to_owned()];
    let (members, missing) = resolve_tiled_members(&configured, &["DP-4", "DP-5"]);
    assert_eq!(members, vec![1, 0]);
    assert_eq!(missing, ["DP-9"]);
}

#[test]
fn taking_an_inconsistent_live_index_prunes_stale_reverse_entries() {
    let primary = 10;
    let left = 11;
    let right = 12;
    let mapping = HashMap::from([(left, primary), (right, primary)]);
    let mut state = TiledDeviceState::<(), (), ()>::from_mapping(mapping);

    assert!(state.take_live_group_by_member(left).is_none());
    assert!(!state.owns_crtc(left));
    assert!(!state.owns_crtc(right));
}

#[test]
fn trace_names_and_output_id_are_reused_across_group_attempts() {
    let mut counter = 0;
    let mut state = TiledDeviceState::<(), (), ()>::default();
    let (first_id, first_names) = state.output_identity("DP-4+DP-5", &mut counter);
    let (second_id, second_names) = state.output_identity("DP-4+DP-5", &mut counter);

    assert_eq!(first_id, second_id);
    assert!(first_names.vblank_frame == second_names.vblank_frame);
    assert!(first_names.time_since_presentation == second_names.time_since_presentation);
    assert!(first_names.presentation_misprediction == second_names.presentation_misprediction);
    assert!(first_names.sequence_delta == second_names.sequence_delta);
}

#[test]
fn output_ids_are_counted_up() {
    let mut counter = 0;
    let first = OutputId::next(&mut counter);
    let second = OutputId::next(&mut counter);
    assert_eq!((first.get(), second.get()), (1, 2));
    let mut state = TiledDeviceState::<(), (), ()>::default();
    let (third, names) = state.output_identity("DP-1+DP-2", &mut counter);
    let (fourth, _) = state.output_identity("DP-3+DP-4", &mut counter);
    assert_eq!((third.get(), fourth.get(), counter), (3, 4, 4));
    assert!(
        names.vblank_frame
            == tracy_client::FrameName::new_leak("vblank on DP-1+DP-2".to_string())
    );
    assert!(
        names.sequence_delta
            == tracy_client::PlotName::new_leak("DP-1+DP-2 sequence delta".to_string())
    );
}

#[test]
fn explicit_group_without_topology() {
    let modes = || vec![modeinfo(533_250, 2560, 2880)];
    // Explicit config groups may lack TILE topology; layout is synthesized side-by-side
    // in config order and identity is not checked.
    let a = candidate("DP-4", "Panel A 1", None, modes());
    let b = candidate("DP-5", "Panel B 2", None, modes());

    let pair = validate_tile_pair(&a, &b, false).unwrap();
    assert_eq!(pair.a_x, 0);
    assert_eq!(pair.b_x, 2560);
    assert_eq!((pair.tile_w, pair.tile_h), (2560, 2880));
}

#[test]
fn explicit_group_with_one_sided_topology() {
    let modes = || vec![modeinfo(533_250, 2560, 2880)];

    // Only the second connector exposes TILE topology, placing it on the left.
    let a = candidate("DP-4", "Panel A 1", None, modes());
    let b = candidate("DP-5", "Panel B 2", lg_tile(0), modes());
    let pair = validate_tile_pair(&a, &b, false).unwrap();
    assert_eq!(pair.a_x, 2560);
    assert_eq!(pair.b_x, 0);

    // And on the right.
    let b = candidate("DP-5", "Panel B 2", lg_tile(1), modes());
    let pair = validate_tile_pair(&a, &b, false).unwrap();
    assert_eq!(pair.a_x, 0);
    assert_eq!(pair.b_x, 2560);

    // The available topology constrains mode selection even when it is only exposed by
    // the second connector.
    let modes = || {
        vec![
            modeinfo(268_500, 2560, 1440),
            modeinfo(533_250, 2560, 2880),
        ]
    };
    let a = candidate("DP-4", "Panel A 1", None, modes());
    let b = candidate("DP-5", "Panel B 2", lg_tile(1), modes());
    let pair = validate_tile_pair(&a, &b, false).unwrap();
    assert_eq!(pair.tile_mode.size(), (2560, 2880));
}

#[test]
fn explicit_group_still_validates_present_topology() {
    let modes = || vec![modeinfo(533_250, 2560, 2880)];

    // Config order says DP-5 first, but its live TILE position is right.
    let a = candidate("DP-5", "LG UltraFine 5K 123", lg_tile(1), modes());
    let b = candidate("DP-4", "LG UltraFine 5K 123", lg_tile(0), modes());
    let pair = validate_tile_pair(&a, &b, false).unwrap();
    assert_eq!(pair.a_x, 2560);
    assert_eq!(pair.b_x, 0);

    // Topology that is present but mismatching is rejected even for explicit groups.
    let mut wrong_size = lg_tile(1).unwrap();
    wrong_size.tile_w = 1920;
    let b = candidate("DP-5", "LG UltraFine 5K 123", Some(wrong_size), modes());
    assert_eq!(
        validate_tile_pair(&a, &b, false),
        Err(PairRejection::TileSizeMismatch),
    );
}

fn format(code: u32, modifier: u64) -> Format {
    Format { code, modifier }
}

#[test]
fn compressed_modifiers_are_not_rendered_to() {
    let base = 0x0100_0000_0000_0000;
    for low in 0..16 {
        let expected = matches!(low, 4 | 5 | 6 | 7 | 8 | 10 | 11 | 12);
        assert_eq!(is_ccs_modifier(base + low), expected);
        assert!(!is_ccs_modifier(low));
    }
    let formats = [
        format(FOURCC_XRGB8888, base + 4),
        format(FOURCC_XRGB8888, base + 9),
        format(FOURCC_ARGB8888, MODIFIER_LINEAR),
    ];
    assert_eq!(filter_render_formats(&formats, false), formats[1..]);
    assert_eq!(filter_render_formats(&formats, true), formats[2..]);
}

#[test]
fn scanout_format_is_shared_by_every_plane() {
    let render = [
        format(FOURCC_ARGB8888, 0),
        format(FOURCC_XRGB8888, 7),
        format(FOURCC_ARGB8888, 9),
        format(FOURCC_XRGB8888, 0),
    ];
    let left = vec![render[3], render[2], render[1], render[0]];
    let right = vec![render[1], render[2]];
    let planes = [left.clone(), right.clone()];
    assert_eq!(
        tiled_scanout_formats(&render, &planes),
        vec![render[1], render[2]]
    );
    assert_eq!(
        choose_tiled_scanout_format(&render, &planes),
        Some((FOURCC_XRGB8888, vec![7]))
    );
    assert_eq!(
        choose_tiled_scanout_format(&render, &[left.clone(), left.clone()]),
        Some((FOURCC_XRGB8888, vec![7, 0]))
    );
    assert_eq!(
        choose_tiled_scanout_format(&render, &[left, vec![render[2]]]),
        Some((FOURCC_ARGB8888, vec![9]))
    );
    assert_eq!(
        choose_tiled_scanout_format(&render, &[right, vec![format(ABGR8888, 0)]]),
        None
    );
}

fn output_name(connector: &str, serial: &str) -> OutputName {
    OutputName {
        connector: connector.to_string(),
        make: Some("LG".to_string()),
        model: None,
        serial: Some(serial.to_string()),
    }
}

#[test]
fn tiled_names_do_not_depend_on_the_order_of_links() {
    let left = output_name("DP-5", "left");
    let right = output_name("DP-4", "right");
    let name = tiled_output_name(&left, &right, false);
    assert_eq!(name.connector, "DP-4+DP-5");
    assert_eq!(name.serial.as_deref(), Some("left"));
    assert_eq!(name.make.as_deref(), Some("LG"));
    let swapped = tiled_output_name(&right, &left, true);
    assert_eq!(swapped.connector, "DP-4+DP-5");
    assert_eq!((swapped.make, swapped.serial), (None, None));
}

fn tile(connector: &str, crtc: u32, tile: Option<TileInfo>) -> ConnectedTile {
    let plane = vec![
        format(FOURCC_XRGB8888, 0),
        format(FOURCC_XRGB8888, 1),
        format(FOURCC_ARGB8888, 0),
    ];
    ConnectedTile {
        connector: ConnectorInfo {
            handle: crtc + 100,
            modes: vec![modeinfo(533_250, 2560, 2880)],
        },
        crtc,
        name: output_name(connector, "123"),
        identity: "LG UltraFine 5K 123".to_string(),
        tile,
        planes: Some(vec![plane, vec![format(FOURCC_ARGB8888, 3)]]),
        configured_off: false,
    }
}

#[test]
fn candidates_list_each_plane_format_once() {
    let mut live = tile("DP-4", 1, lg_tile(0));
    let found = tiled_candidate(&live).unwrap();
    assert_eq!(found.identity, "LG UltraFine 5K 123");
    assert_eq!(found.tile, lg_tile(0));
    assert_eq!(found.modes.len(), 1);
    assert_eq!(found.plane_fourccs, vec![FOURCC_XRGB8888, FOURCC_ARGB8888]);
    live.planes = None;
    assert!(tiled_candidate(&live).is_none());
}

#[test]
fn claimed_pairs_are_ordered_left_to_right() {
    let right = tile("DP-4", 1, lg_tile(1));
    let left = tile("DP-5", 2, lg_tile(0));
    let plan = tiled_claim_pair(&right, &left, true, false).unwrap();
    assert_eq!(plan.primary_crtc(), 2);
    assert_eq!(plan.member_crtcs(), [2, 1]);
    assert_eq!(plan.key(), "DP-4+DP-5");
    assert_eq!(
        plan.members[1],
        TiledMemberPlan {
            connector: 101,
            crtc: 1,
            crtc_x: 2560,
            tile_w: 2560,
            tile_h: 2880
        }
    );
    // 533 250 000 / (2640 * 2908) frames per second.
    assert_eq!(
        plan.wl_mode(),
        WlMode {
            width: 5120,
            height: 2880,
            refresh: 69_460
        }
    );
    assert!(tiled_claim_pair(&left, &tile("DP-6", 3, None), true, false).is_none());
}

fn tiled_config(name: &str, off: bool, members: &[&str]) -> OutputConfig {
    OutputConfig {
        name: name.to_string(),
        off,
        scale: None,
        display_group: None,
        tiled_group: Some(members.iter().map(|member| member.to_string()).collect()),
    }
}

fn crtc_set(crtcs: &[u32]) -> HashSet<u32> {
    crtcs.iter().copied().collect()
}

#[test]
fn explicit_tiled_groups_are_planned_in_declared_order() {
    let connected = [tile("DP-4", 1, None), tile("DP-5", 2, None)];
    let config = [tiled_config("five-k", false, &["DP-5", "dp-4"])];
    let result = plan_tiled_groups(&config, &connected, &crtc_set(&[1]), false, false, &[]);
    assert_eq!(result.plans.len(), 1);
    assert_eq!(result.plans[0].member_crtcs(), [2, 1]);
    assert_eq!(result.plans[0].config, Some(0));
    assert!(result.consumed_crtcs.is_empty());
    assert!(result.force_disconnect.is_empty());
}

#[test]
fn unusable_explicit_tiled_groups_withhold_their_members() {
    let connected = [
        tile("DP-4", 1, lg_tile(0)),
        tile("DP-5", 2, lg_tile(1)),
        tile("DP-6", 3, None),
    ];
    let config = [
        tiled_config("elsewhere", false, &["DP-8", "DP-9"]),
        tiled_config("incomplete", false, &["DP-4", "DP-9"]),
        tiled_config("off", true, &["DP-5", "DP-6"]),
    ];
    let result = plan_tiled_groups(
        &config,
        &connected,
        &crtc_set(&[1, 3, 7]),
        true,
        false,
        &[],
    );
    assert!(result.plans.is_empty());
    assert_eq!(result.consumed_crtcs, crtc_set(&[1, 2, 3]));
    assert_eq!(result.force_disconnect, vec![1, 3]);
    assert!(detected_group_names(&config, &connected, false).is_empty());
}

#[test]
fn three_tiles_are_no_explicit_group() {
    let connected = [
        tile("DP-4", 1, None),
        tile("DP-5", 2, None),
        tile("DP-6", 3, None),
    ];
    let config = [tiled_config("three", false, &["DP-4", "DP-5", "DP-6"])];
    let result = plan_tiled_groups(&config, &connected, &crtc_set(&[1]), false, false, &[]);
    assert!(result.plans.is_empty());
    assert!(result.consumed_crtcs.is_empty());
}

#[test]
fn panels_are_detected_by_topology_and_identity() {
    let mut second_left = tile("DP-7", 4, lg_tile(0));
    let mut second_right = tile("DP-6", 3, lg_tile(1));
    second_left.identity = "LG UltraFine 5K 456".to_string();
    second_right.identity = "LG UltraFine 5K 456".to_string();
    let mut lone = tile("DP-8", 5, lg_tile(0));
    lone.identity = "LG UltraFine 5K 789".to_string();
    let connected = [
        tile("DP-4", 1, lg_tile(0)),
        second_right,
        tile("DP-5", 2, lg_tile(1)),
        second_left,
        lone,
    ];
    let names = detected_group_names(&[], &connected, false);
    let connectors = names
        .iter()
        .map(|name| name.connector.as_str())
        .collect::<Vec<_>>();
    assert_eq!(connectors, ["DP-4+DP-5", "DP-6+DP-7"]);
    let found = [
        ConfigMatch {
            config: None,
            off: true,
        },
        ConfigMatch {
            config: Some(6),
            off: false,
        },
    ];
    let occupied = crtc_set(&[2, 4]);
    let result = plan_tiled_groups(&[], &connected, &occupied, true, false, &found);
    assert_eq!(result.plans.len(), 1);
    assert_eq!(result.plans[0].member_crtcs(), [4, 3]);
    assert_eq!(result.plans[0].config, Some(6));
    assert_eq!(result.consumed_crtcs, crtc_set(&[1, 2]));
    assert_eq!(result.force_disconnect, vec![2]);
    let manual = plan_tiled_groups(&[], &connected, &occupied, false, false, &[]);
    assert!(manual.plans.is_empty());
}

#[test]
fn detection_leaves_out_claimed_off_and_nameless_tiles() {
    let pair = || [tile("DP-4", 1, lg_tile(0)), tile("DP-5", 2, lg_tile(1))];
    assert_eq!(detected_group_names(&[], &pair(), true).len(), 1);
    let mut off = pair();
    off[1].configured_off = true;
    assert!(detected_group_names(&[], &off, true).is_empty());
    let mut nameless = pair();
    nameless[0].name.make = None;
    nameless[0].name.serial = None;
    assert!(detected_group_names(&[], &nameless, true).is_empty());
    let config = [tiled_config("mine", false, &["DP-4", "DP-9"])];
    assert!(detected_group_names(&config, &pair(), true).is_empty());
    let third = [
        tile("DP-4", 1, lg_tile(0)),
        tile("DP-5", 2, lg_tile(1)),
        tile("DP-6", 3, lg_tile(1)),
    ];
    assert!(detected_group_names(&[], &third, true).is_empty());
}

fn info(handle: u32, name: &str, kind: PropertyKind, value: u64) -> PropertyInfo {
    PropertyInfo {
        handle,
        name: Some(name.to_string()),
        kind,
        value,
    }
}

fn choices(entries: &[(&str, u64)]) -> PropertyKind {
    PropertyKind::Enum(
        entries
            .iter()
            .map(|&(name, value)| EnumEntry {
                name: Some(name.to_string()),
                value,
            })
            .collect(),
    )
}

#[test]
fn properties_are_found_by_name() {
    let list = [
        PropertyInfo {
            name: None,
            ..info(1, "", PropertyKind::Other, 0)
        },
        info(2, "Colorspace", choices(&[("Other", 1), ("Default", 4)]), 1),
        info(3, "Colorspace", choices(&[("Default", 9)]), 0),
        info(4, "TILE", PropertyKind::Blob, 77),
    ];
    assert_eq!(find_drm_property(&list, "Colorspace").unwrap().handle, 2);
    assert!(find_drm_property(&list, "colorspace").is_none());
    assert_eq!(enum_prop_value(&list, "Colorspace", "Default"), Some((2, 4)));
    assert_eq!(enum_prop_value(&list, "Colorspace", "Missing"), None);
    assert_eq!(enum_prop_value(&list, "TILE", "Default"), None);
    assert_eq!(tile_blob_id(&list), Some(77));
    let blobs = [
        (7, b"garbage".to_vec()),
        (77, b"1:1:2:1:1:0:2560:2880\0".to_vec()),
    ];
    assert_eq!(read_tile_info(&list, &blobs), lg_tile(1));
    assert_eq!(read_tile_info(&list, &blobs[..1]), None);
    assert_eq!(read_tile_info(&list[..3], &blobs), None);
    let wrong = [info(4, "TILE", PropertyKind::UnsignedRange, 77)];
    assert_eq!(read_tile_info(&wrong, &blobs), None);
}

fn connector_props() -> Vec<PropertyInfo> {
    vec![
        info(11, "CRTC_ID", PropertyKind::Other, 0),
        info(12, "underscan", choices(&[("on", 1), ("off", 0)]), 1),
        info(13, "Broadcast RGB", choices(&[("Automatic", 0), ("Full", 1)]), 0),
        info(14, "HDR_OUTPUT_METADATA", PropertyKind::Blob, 5),
    ]
}

fn crtc_props() -> Vec<PropertyInfo> {
    vec![
        info(21, "MODE_ID", PropertyKind::Blob, 0),
        info(22, "ACTIVE", PropertyKind::Boolean, 0),
        info(23, "GAMMA_LUT", PropertyKind::Blob, 0),
        info(24, "GAMMA_LUT_SIZE", PropertyKind::UnsignedRange, 2),
        info(25, "VRR_ENABLED", PropertyKind::Boolean, 1),
        info(26, "CTM", PropertyKind::Blob, 1),
    ]
}

fn plane_props() -> Vec<PropertyInfo> {
    let mut props = Vec::new();
    for (i, name) in [
        "FB_ID", "CRTC_ID", "SRC_X", "SRC_Y", "SRC_W", "SRC_H", "CRTC_X", "CRTC_Y", "CRTC_W",
        "CRTC_H",
    ]
    .into_iter()
    .enumerate()
    {
        props.push(info(31 + i as u32, name, PropertyKind::Other, 0));
    }
    props.push(info(41, "rotation", PropertyKind::Bitmask, 2));
    props
}

fn planned(crtc: u32, crtc_x: u32) -> TiledMemberPlan {
    TiledMemberPlan {
        connector: crtc + 100,
        crtc,
        crtc_x,
        tile_w: 2560,
        tile_h: 2880,
    }
}

fn live_member(crtc: u32, crtc_x: u32) -> TiledMember {
    let gamma = GammaProps::new(&crtc_props(), crtc).unwrap();
    TiledMember::new(
        &planned(crtc, crtc_x),
        crtc + 200,
        &connector_props(),
        &crtc_props(),
        &plane_props(),
        Some(gamma),
    )
    .unwrap()
}

type Group = TiledGroup<u8, u16, &'static str>;

fn live_group_at(left: u32, right: u32) -> Group {
    TiledGroup::new(
        output_name("DP-4+DP-5", "123"),
        None,
        OutputId::next(&mut 0),
        [live_member(left, 0), live_member(right, 2560)],
        modeinfo(533_250, 2560, 2880),
        WlMode {
            width: 5120,
            height: 2880,
            refresh: 69_460,
        },
        FOURCC_XRGB8888,
    )
}

#[test]
fn member_properties_are_required_and_neutralized() {
    let member = live_member(1, 0);
    assert_eq!(member.plane(), 201);
    assert_eq!(member.props.plane_crtc_h, 40);
    assert_eq!(
        member.props.connector_neutral,
        vec![(14, 0), (13, 1), (12, 0)]
    );
    assert_eq!(member.props.crtc_neutral, vec![(25, 0), (23, 0), (26, 0)]);
    assert_eq!(member.props.plane_neutral, vec![(41, 1)]);
    let missing = TiledMember::new(
        &planned(1, 0),
        201,
        &connector_props(),
        &crtc_props()[..1],
        &plane_props()[1..],
        None,
    )
    .unwrap_err();
    assert_eq!(
        missing.to_string(),
        "missing required property: crtc ACTIVE"
    );
}

/// The same settings made on the device crate's request directly.
fn expected_request(settings: &[(u32, u32, u64)]) -> String {
    let mut request = AtomicModeReq::new();
    for &(object, property, value) in settings {
        request.add_raw_property(
            from_u32::<RawResourceHandle>(object).unwrap(),
            from_u32::<property::Handle>(property).unwrap(),
            value,
        );
    }
    format!("{request:?}")
}

fn shown_settings(crtc: u32, blob: u64, src_x: u64, gamma: u64) -> Vec<(u32, u32, u64)> {
    let (connector, plane) = (crtc + 100, crtc + 200);
    vec![
        (connector, 11, u64::from(crtc)),
        (crtc, 21, blob),
        (crtc, 22, 1),
        (plane, 31, 900),
        (plane, 32, u64::from(crtc)),
        (plane, 33, src_x << 16),
        (plane, 34, 0),
        (plane, 35, 2560 << 16),
        (plane, 36, 2880 << 16),
        (plane, 37, 0),
        (plane, 38, 0),
        (plane, 39, 2560),
        (plane, 40, 2880),
        (connector, 14, 0),
        (connector, 13, 1),
        (connector, 12, 0),
        (crtc, 25, 0),
        (crtc, 23, gamma),
        (crtc, 26, 0),
        (plane, 41, 1),
    ]
}

#[test]
fn full_requests_show_one_framebuffer_on_both_tiles() {
    let mut group = live_group_at(1, 2);
    assert_eq!(group.modeset_property_count(), 40);
    assert!(group.is_valid());
    assert!(group.members[0].gamma_props.unwrap().is_valid());
    assert_eq!(
        group.build_validation_request(900).unwrap_err(),
        RequestError::MissingModeBlob
    );
    group.members[0].install_mode_blob(51);
    assert_eq!(
        group.build_full_request(None, true).unwrap_err(),
        RequestError::NoFramebuffer
    );
    assert_eq!(
        group.build_modeset_request(900).unwrap_err(),
        RequestError::MissingModeBlob
    );
    group.members[1].install_mode_blob(52);
    group.members[1].install_mode_blob(53);
    assert_eq!(group.members[1].mode_blob(), Some(52));
    group.members[1]
        .gamma_props
        .as_mut()
        .unwrap()
        .install_blob(Some(66));
    let mut settings = shown_settings(1, 51, 0, 0);
    settings.extend(shown_settings(2, 52, 2560, 66));
    let expected = expected_request(&settings);
    let request = group.build_validation_request(900).unwrap();
    assert_eq!(format!("{request:?}"), expected);
    let request = group.build_modeset_request(900).unwrap();
    assert_eq!(format!("{request:?}"), expected);
    let request = group.build_flip_request(901);
    assert_eq!(
        format!("{request:?}"),
        expected_request(&[(201, 31, 901), (202, 31, 901)])
    );
    assert_eq!(group.destroy(), vec![51, 52]);
    assert!(group.destroy().is_empty());
    assert_eq!(
        RequestError::NoFramebuffer.to_string(),
        "no framebuffer for active tiled commit"
    );
}

#[test]
fn disable_requests_take_both_tiles_out_of_use() {
    let mut group = live_group_at(1, 2);
    group.members[0]
        .gamma_props
        .as_mut()
        .unwrap()
        .install_blob(Some(66));
    let mut settings = Vec::new();
    for crtc in [1, 2] {
        let (connector, plane) = (crtc + 100, crtc + 200);
        settings.extend([
            (connector, 11, 0),
            (crtc, 21, 0),
            (crtc, 22, 0),
            (plane, 31, 0),
            (plane, 32, 0),
            (connector, 14, 0),
            (connector, 13, 1),
            (connector, 12, 0),
            (crtc, 25, 0),
            (crtc, 23, 0),
            (crtc, 26, 0),
            (plane, 41, 1),
        ]);
    }
    let request = group.build_disable_request().unwrap();
    assert_eq!(format!("{request:?}"), expected_request(&settings));
}

#[test]
fn later_settings_override_earlier_ones() {
    let set = |object, property, value| Setting {
        object,
        property,
        value,
    };
    let request = request_of(&vec![set(9, 3, 1), set(8, 3, 5), set(9, 3, 2), set(9, 1, 4)]);
    assert_eq!(
        format!("{request:?}"),
        expected_request(&[(8, 3, 5), (9, 1, 4), (9, 3, 2)])
    );
}

#[test]
fn gamma_properties_need_both_entries_of_the_right_type() {
    let gamma = GammaProps::new(&crtc_props(), 7).unwrap();
    assert_eq!(
        (gamma.crtc, gamma.gamma_lut, gamma.gamma_lut_size),
        (7, 23, 24)
    );
    assert_eq!(gamma.gamma_size(&crtc_props()), Ok(2));
    assert_eq!(
        gamma.gamma_size(&crtc_props()[..3]),
        Err(GammaError::MissingLutSize)
    );
    let error = |list: &[PropertyInfo]| GammaProps::new(list, 7).unwrap_err();
    assert_eq!(error(&crtc_props()[..2]), GammaError::MissingLut);
    assert_eq!(error(&crtc_props()[..3]), GammaError::MissingLutSize);
    let range = info(1, "GAMMA_LUT", PropertyKind::UnsignedRange, 0);
    assert_eq!(error(&[range]), GammaError::WrongLutType);
    let blob = info(1, "GAMMA_LUT_SIZE", PropertyKind::Blob, 0);
    assert_eq!(error(&[blob]), GammaError::WrongLutSizeType);
    let huge = info(24, "GAMMA_LUT_SIZE", PropertyKind::UnsignedRange, (1 << 32) + 5);
    assert_eq!(gamma.gamma_size(&[huge]), Ok(5));
}

fn table_bytes(words: &[u16]) -> Vec<u8> {
    words.iter().flat_map(|word| word.to_ne_bytes()).collect()
}

#[test]
fn gamma_ramps_become_tables() {
    let gamma = GammaProps::new(&crtc_props(), 7).unwrap();
    let ramp = [0x0102, 0x0304, 0x1112, 0x1314, 0x2122, 0x2324];
    let table = table_bytes(&[
        0x0102, 0x1112, 0x2122, 0, 0x0304, 0x1314, 0x2324, 0,
    ]);
    assert_eq!(
        gamma.create_blob(&crtc_props(), Some(&ramp)),
        Ok(Some(table.clone()))
    );
    assert_eq!(gamma.create_blob(&crtc_props(), None), Ok(None));
    assert_eq!(
        gamma.create_blob(&crtc_props(), Some(&ramp[1..])),
        Err(GammaError::WrongLength)
    );
    let unsized_table = gamma.create_blob(&crtc_props()[..3], Some(&ramp)).unwrap_err();
    assert_eq!(unsized_table.to_string(), "error getting gamma size");
    assert_eq!(unsized_table.cause(), Some(GammaError::MissingLutSize));
    assert_eq!(GammaError::WrongLength.cause(), None);
    let both = |left, right, ramp| {
        tiled_gamma_data(left, &crtc_props(), right, &crtc_props(), ramp)
    };
    assert_eq!(
        both(Some(gamma), Some(gamma), Some(&ramp[..])),
        Ok(Some(table))
    );
    assert_eq!(both(Some(gamma), Some(gamma), None), Ok(None));
    assert_eq!(
        both(Some(gamma), Some(gamma), Some(&ramp[..3])),
        Err(GammaError::WrongLength)
    );
    assert_eq!(
        both(None, Some(gamma), None),
        Err(GammaError::LeftUnsupported)
    );
    assert_eq!(
        both(Some(gamma), None, None),
        Err(GammaError::RightUnsupported)
    );
    let none = [info(24, "GAMMA_LUT_SIZE", PropertyKind::UnsignedRange, 0)];
    assert_eq!(
        tiled_gamma_data(Some(gamma), &none, Some(gamma), &none, Some(&[])),
        Err(GammaError::Unsupported)
    );
    assert_eq!(
        tiled_gamma_size(Some(gamma), &crtc_props(), Some(gamma), &none),
        Err(GammaError::IncompatibleSizes { left: 2, right: 0 })
    );
    assert_eq!(GammaProps::created_blob(0), None);
    assert_eq!(GammaProps::created_blob(9), Some(9));
}

#[test]
fn gamma_sizes_must_match() {
    assert_eq!(matching_tiled_gamma_size([256, 256]), Ok(256));
    let error = matching_tiled_gamma_size([256, 1_024]).unwrap_err();
    assert_eq!(
        error.to_string(),
        "tiled group members have incompatible gamma sizes: 256 and 1024"
    );
    let error = matching_tiled_gamma_size([0, u32::MAX]).unwrap_err();
    assert_eq!(
        error.to_string(),
        "tiled group members have incompatible gamma sizes: 0 and 4294967295"
    );
}

#[test]
fn gamma_blobs_are_installed_or_destroyed() {
    let installed = |crtc, blob| GammaProps {
        previous_blob: blob,
        ..GammaProps::new(&crtc_props(), crtc).unwrap()
    };
    let change = |outcome| {
        let mut left = installed(1, Some(51));
        let mut right = installed(2, None);
        let destroy = set_tiled_gamma(&mut left, &mut right, outcome);
        (left.previous_blob(), right.previous_blob(), destroy)
    };
    let (left, right) = (Some(61), Some(62));
    assert_eq!(
        change(TiledGammaOutcome::LeftFailed),
        (Some(51), None, vec![])
    );
    assert_eq!(
        change(TiledGammaOutcome::RightFailed { left }),
        (Some(51), None, vec![61])
    );
    assert_eq!(
        change(TiledGammaOutcome::Refused { left, right }),
        (Some(51), None, vec![61, 62])
    );
    assert_eq!(
        change(TiledGammaOutcome::Accepted { left, right }),
        (left, right, vec![51])
    );
    let mut single = installed(1, Some(51));
    assert_eq!(single.set_gamma(Some(71), false), Some(71));
    assert_eq!(single.set_gamma(Some(71), true), Some(51));
    assert_eq!(single.current_blob_property(), (23, 71));
    assert_eq!(
        single.restore_gamma(),
        Setting {
            object: 1,
            property: 23,
            value: 71
        }
    );
    let mut left = Some(single);
    let mut right = Some(installed(2, None));
    let request = restore_tiled_gamma(left, right).unwrap();
    assert_eq!(
        format!("{request:?}"),
        expected_request(&[(1, 23, 71), (2, 23, 0)])
    );
    let request = tiled_gamma_request(&single, Some(8), &installed(2, None), Some(9));
    assert_eq!(
        format!("{request:?}"),
        expected_request(&[(1, 23, 8), (2, 23, 9)])
    );
    assert_eq!(
        restore_tiled_gamma(None, right).unwrap_err(),
        GammaError::LeftUnsupported
    );
    assert_eq!(destroy_tiled_gamma_blobs(&mut left, &mut right), vec![71]);
    assert_eq!(left.unwrap().previous_blob(), None);
    assert!(destroy_tiled_gamma_blobs(&mut left, &mut None).is_empty());
}

fn frame(buffer: TiledScanoutBuffer<u8, u16>) -> PendingTiledFrame<u8, u16, &'static str> {
    let submission = |sequence_floor| CrtcSubmissionId {
        generation: 1,
        sequence_floor,
    };
    PendingTiledFrame {
        buffer,
        feedback: "feedback",
        target_presentation_time: 16,
        submissions: [submission(4), submission(5)],
    }
}

#[test]
fn groups_present_a_frame_once_both_tiles_reported() {
    let mut group = live_group_at(1, 2);
    assert!(group.record_member_event(1, event(3, 1)).is_none());
    assert_eq!(group.pending_submission(1), None);
    group.frame_committed(frame(TiledScanoutBuffer::Direct(9)));
    assert!(group.has_pending_frame());
    assert_eq!(group.pending_submission(2).unwrap().sequence_floor, 5);
    assert_eq!(group.pending_submission(3), None);
    assert!(group.record_member_event(3, event(3, 1)).is_none());
    assert!(group.record_member_event(2, event(8, 9)).is_none());
    let (done, meta) = group.record_member_event(1, event(3, 1)).unwrap();
    assert_eq!(meta, event(3, 9));
    assert!(!group.has_pending_frame());
    assert!(!group.prepare_composited_frame());
    let presentation = group.frame_presented(done);
    assert_eq!(presentation.feedback, "feedback");
    assert_eq!(presentation.target_presentation_time, 16);
    assert!(group.prepare_composited_frame());
    group.frame_committed(frame(TiledScanoutBuffer::Composited(2)));
    assert!(group.reset_frame_state());
    assert!(!group.prepare_composited_frame());
    assert!(!group.reset_frame_state());
}

#[test]
fn commits_rely_on_the_validation_of_the_same_state() {
    let linear = format(FOURCC_XRGB8888, 0);
    let mut group = live_group_at(1, 2);
    assert_eq!(
        group.prepare_commit(1, linear),
        (TiledCommitState::NeedsValidation, false)
    );
    group.validation_succeeded(1, linear);
    assert_eq!(
        group.prepare_commit(1, linear),
        (TiledCommitState::ValidatedNeedsModeset, false)
    );
    assert_eq!(group.direct_scanout_active(1), (false, false));
    group.modeset_succeeded();
    assert_eq!(group.direct_scanout_active(1), (true, false));
    assert_eq!(
        group.prepare_commit(1, format(FOURCC_XRGB8888, 7)),
        (TiledCommitState::NeedsValidation, true)
    );
    group.validation_succeeded(1, linear);
    group.modeset_succeeded();
    assert_eq!(group.direct_scanout_active(2), (false, true));
    group.validation_succeeded(2, linear);
    group.invalidate_after_resume();
    assert_eq!(group.commit_state(), TiledCommitState::NeedsValidation);
    group.validation_succeeded(2, linear);
    group.invalidate_validation();
    assert_eq!(group.commit_state(), TiledCommitState::NeedsValidation);
    for slot in 1..=4 {
        assert_eq!(
            group.slot_allocated(),
            slot > EXPECTED_TILED_SWAPCHAIN_SLOTS
        );
    }
    assert_eq!(group.allocated_slots(), 4);
    assert_eq!(group.format(), FOURCC_XRGB8888);
    assert_eq!(group.wl_mode().width, 5120);
}

#[test]
fn groups_match_only_the_plan_they_were_formed_by() {
    let left = tile("DP-4", 1, lg_tile(0));
    let right = tile("DP-5", 2, lg_tile(1));
    let mut plan = tiled_claim_pair(&left, &right, true, false).unwrap();
    let mut group = live_group_at(1, 2);
    assert!(group.matches_plan(&plan, false));
    plan.config = Some(3);
    assert!(!group.matches_plan(&plan, true));
    group.config = Some(5);
    assert!(group.matches_plan(&plan, true));
    assert!(!group.matches_plan(&plan, false));
    plan.members[1].crtc_x = 2561;
    assert!(!group.matches_plan(&plan, true));
    plan.members[1].crtc_x = 2560;
    plan.tile_mode.mode_type = 0;
    assert!(group.matches_plan(&plan, true));
    plan.tile_mode.clock += 1;
    assert!(!group.matches_plan(&plan, true));
    plan.tile_mode.clock -= 1;
    plan.name.serial = None;
    assert!(!group.matches_plan(&plan, true));
}

#[test]
fn live_groups_are_indexed_by_either_member() {
    let mut state = TiledDeviceState::default();
    state.insert_live_group(live_group_at(1, 2));
    state.insert_live_group(live_group_at(3, 4));
    assert_eq!(state.primary_for_member(2), Some(1));
    assert_eq!(state.primary_for_member(5), None);
    assert!(state.contains_primary(3));
    assert!(!state.contains_primary(4));
    let mut crtcs = state.occupied_crtcs();
    crtcs.sort();
    assert_eq!(crtcs, vec![1, 2, 3, 4]);
    let mut primaries = state.live_primaries();
    primaries.sort();
    assert_eq!(primaries, vec![1, 3]);
    assert_eq!(state.live_groups().len(), 2);
    state.live_group_mut(3).unwrap().config = Some(77);
    assert_eq!(state.live_group(3).unwrap().config, Some(77));
    assert!(state.live_group(4).is_none());
    assert!(state.live_group_mut(4).is_none());
    let (group, failures) = state.live_group_and_formation_failures_mut(1).unwrap();
    group.config = Some(78);
    failures.record("key".into(), TiledFailureClass::UntilSessionResume, 0);
    assert!(state.formation_failures().blocks("key", 0));
    assert!(!state.disable_failures().blocks("key", 0));
    state
        .disable_failures_mut()
        .record("key".into(), TiledFailureClass::UntilSessionResume, 0);
    state.clear_failures();
    assert!(!state.formation_failures_mut().blocks("key", 0));
    assert!(!state.disable_failures().blocks("key", 0));
    let mut visited = Vec::new();
    state.live_groups_mut(|primary, mut group| {
        visited.push(primary);
        group.config = group.config.map(|config| config + 1);
        group
    });
    visited.sort();
    assert_eq!(visited, vec![1, 3]);
    let (primary, group) = state.take_live_group_by_member(2).unwrap();
    assert_eq!((primary, group.config), (1, Some(79)));
    assert!(!state.owns_crtc(1));
    assert!(state.owns_crtc(4));
    state.insert_live_group(group);
    assert_eq!(state.primary_for_member(2), Some(1));
}

#[test]
fn quarantine_covers_both_members() {
    let mut state = TiledDeviceState::default();
    state.quarantine_group(1, live_group_at(1, 2));
    assert!(state.crtc_is_quarantined(2));
    assert!(!state.crtc_is_quarantined(3));
    assert!(state.members_are_quarantined([3, 1]));
    assert!(!state.members_are_quarantined([3, 4]));
    assert_eq!(state.quarantined_groups().len(), 1);
    state.quarantine_group(5, live_group_at(5, 6));
    assert!(state.take_quarantined_group(5).is_some());
    assert!(state.crtc_is_quarantined(1) && state.crtc_is_quarantined(2));
    assert!(!state.crtc_is_quarantined(6));
    assert!(state.take_quarantined_group(2).is_none());
    assert!(state.take_quarantined_group(1).is_some());
    assert!(!state.crtc_is_quarantined(1));
    assert_eq!(state.generation(), 0);
    state.advance_generation();
    assert_eq!(state.generation(), 1);
    state.advance_generation();
    assert_eq!(state.generation(), 2);
}

#[test]
fn unplanned_groups_are_explained() {
    let connected = [
        tile("DP-4", 1, lg_tile(0)),
        tile("DP-5", 2, lg_tile(1)),
        tile("DP-6", 3, None),
    ];
    let problem = |off, members: &[&str]| {
        tiled_group_problem(&tiled_config("five-k", off, members), &connected)
    };
    assert!(problem(false, &["DP-4", "DP-5"]).is_none());
    assert!(problem(false, &["DP-8", "DP-9"]).is_none());
    match problem(true, &["DP-4", "DP-9"]) {
        Some(TiledProblem::MissingMembers { connectors }) => assert_eq!(connectors, ["DP-9"]),
        other => panic!("{other:?}"),
    }
    assert!(matches!(
        problem(false, &["DP-4", "DP-5", "DP-6"]),
        Some(TiledProblem::NotTwoMembers)
    ));
    let mut slower = tile("DP-5", 2, lg_tile(1));
    slower.connector.modes = vec![modeinfo(533_000, 2560, 2880)];
    let mut mismatched = [tile("DP-4", 1, lg_tile(0)), slower];
    let declared = tiled_config("five-k", false, &["DP-4", "DP-5"]);
    assert!(matches!(
        tiled_group_problem(&declared, &mismatched),
        Some(TiledProblem::NoPair {
            rejection: Some(PairRejection::NoCommonMode)
        })
    ));
    assert_eq!(
        detected_rejections(&[], &mismatched),
        vec![(0, 1, PairRejection::NoCommonMode)]
    );
    assert!(detected_rejections(&[declared], &mismatched).is_empty());
    mismatched[0].planes = None;
    assert!(detected_rejections(&[], &mismatched).is_empty());
    assert!(detected_rejections(&[], &connected).is_empty());
}

#[test]
fn groups_without_handles_are_not_valid() {
    let mut group = live_group_at(1, 2);
    group.members[1].connector = 0;
    assert!(!group.is_valid());
    group.members[1].connector = 102;
    group.members[0].props.plane_neutral[0].0 = 0;
    assert!(!group.is_valid());
    let blank = GammaProps {
        previous_blob: Some(0),
        ..GammaProps::new(&crtc_props(), 7).unwrap()
    };
    assert!(!blank.is_valid());
}
