use std::collections::{HashMap, HashSet};

use niri_tiled::frame::{MemberRect, MemberSize, RefreshMode, RefreshSync};
use niri_tiled::modes::{
    candidate_modes, mode_refresh, preferred_mode_size, retain_preferred_resolution,
    ConfiguredMode, DrmMode,
};
use niri_tiled::names::{stable_group_key, OutputName};
use niri_tiled::plan::{plan_timed_display_groups, OutputConfig};
use niri_tiled::planning::{
    configured_scale_matches, plan_display_groups, ConnectedOutput, GroupMemberClaim,
    GroupPlanningResult,
};
use niri_tiled::selection::{
    choose_candidate, commit_present_claims, explicit_claim_policy, member_key,
    output_matches_selector, transformed_size,
    CandidateChoiceError, ConnectorInfo, DisplayGroup, GroupMember, GroupRenderPolicy, Transform,
};

fn modeinfo(clock: u32, width: u16, height: u16, preferred: bool) -> DrmMode {
    DrmMode {
        clock,
        hdisplay: width,
        hsync_start: width + 8,
        hsync_end: width + 32,
        htotal: width + 80,
        vdisplay: height,
        vsync_start: height + 3,
        vsync_end: height + 10,
        vtotal: height + 28,
        vrefresh: 60,
        flags: drm_ffi::DRM_MODE_FLAG_NHSYNC | drm_ffi::DRM_MODE_FLAG_PVSYNC,
        name: [0; 32],
        mode_type: if preferred {
            drm_ffi::DRM_MODE_TYPE_PREFERRED
        } else {
            drm_ffi::DRM_MODE_TYPE_DRIVER
        },
        hskew: 0,
        vscan: 0,
    }
}

fn strings<const N: usize>(names: [&str; N]) -> Vec<String> {
    names.iter().map(|name| name.to_string()).collect()
}

#[test]
fn stable_key_ignores_member_order_and_case() {
    assert_eq!(
        stable_group_key(&strings(["DVI-I-2", "dvi-i-1"])),
        stable_group_key(&strings(["DVI-I-1", "DVI-I-2"])),
    );
}

#[test]
fn stable_key_joins_the_lowered_names_in_order() {
    assert_eq!(
        stable_group_key(&strings(["HDMI-2", "dp-10", "DP-9"])),
        "dp-10\u{1f}dp-9\u{1f}hdmi-2"
    );
    assert_eq!(stable_group_key(&[]), "");
}

#[test]
fn transformed_portrait_size_swaps_axes() {
    assert_eq!(transformed_size((3840, 2160), Transform::_90), (2160, 3840));
    assert_eq!(
        transformed_size((3840, 2160), Transform::_270),
        (2160, 3840)
    );
    assert_eq!(
        transformed_size((3840, 2160), Transform::Normal),
        (3840, 2160)
    );
}

#[test]
fn preferred_resolution_is_kept_during_refresh_selection() {
    let native = modeinfo(533_223, 3840, 2160, true);
    let lower_exact = modeinfo(148_500, 1920, 1080, false);
    let mut modes = vec![native, lower_exact];

    retain_preferred_resolution(&mut modes);

    assert_eq!(modes, vec![native]);
}

#[test]
fn native_size_is_the_largest_preferred_one() {
    let small = modeinfo(100_000, 1280, 720, true);
    let large = modeinfo(200_000, 1920, 1080, true);
    let larger = modeinfo(500_000, 3840, 2160, false);
    assert_eq!(
        preferred_mode_size(&[small, large, larger]),
        Some((1920, 1080))
    );
    assert_eq!(
        preferred_mode_size(&[modeinfo(1, 9, 9, false), larger]),
        Some((3840, 2160))
    );
    assert_eq!(preferred_mode_size(&[]), None);
}

#[test]
fn mode_refresh_is_exact_to_the_millihertz() {
    // 533 223 000 / (3920 * 2188) frames per second.
    let mode = modeinfo(533_223, 3840, 2160, true);
    assert_eq!(mode_refresh(&mode), 62_169);
    let interlaced = DrmMode {
        flags: drm_ffi::DRM_MODE_FLAG_INTERLACE,
        ..mode
    };
    assert_eq!(mode_refresh(&interlaced), 124_338);
    let doubled = DrmMode {
        flags: drm_ffi::DRM_MODE_FLAG_DBLSCAN,
        vscan: 3,
        ..mode
    };
    assert_eq!(mode_refresh(&doubled), 62_169 / 2 / 3);
}

#[test]
fn candidate_modes_follow_the_configured_mode() {
    let native = modeinfo(533_223, 3840, 2160, true);
    let slow = modeinfo(266_000, 3840, 2160, false);
    let low = modeinfo(148_500, 1920, 1080, false);
    let interlaced = DrmMode {
        flags: drm_ffi::DRM_MODE_FLAG_INTERLACE,
        ..native
    };
    let all = [interlaced, native, slow, low];
    assert_eq!(candidate_modes(&all, None), vec![native, slow]);
    let wanted = |width, height, refresh_millihz, custom| {
        Some(ConfiguredMode {
            custom,
            width,
            height,
            refresh_millihz,
        })
    };
    assert_eq!(
        candidate_modes(&all, wanted(1920, 1080, None, false)),
        vec![low]
    );
    assert_eq!(
        candidate_modes(&all, wanted(3840, 2160, Some(62_169), false)),
        vec![native]
    );
    assert_eq!(
        candidate_modes(&all, wanted(3840, 2160, Some(62_170), false)),
        Vec::new()
    );
    assert_eq!(
        candidate_modes(&all, wanted(1920, 1080, None, true)),
        Vec::new()
    );
}

#[test]
fn connector_name_disambiguates_identity_matches() {
    assert_eq!(choose_candidate(&[(2, false), (5, true)]), Ok(5));
    assert_eq!(
        choose_candidate(&[(2, false), (5, false)]),
        Err(CandidateChoiceError::Ambiguous),
    );
    assert_eq!(choose_candidate(&[]), Err(CandidateChoiceError::Missing));
}

#[test]
fn two_exact_matches_are_ambiguous() {
    assert_eq!(
        choose_candidate(&[(2, true), (4, false), (5, true)]),
        Err(CandidateChoiceError::Ambiguous),
    );
    assert_eq!(choose_candidate(&[(3, false)]), Ok(3));
}

fn bits(scale: Option<f64>) -> Option<u64> {
    scale.map(f64::to_bits)
}

#[test]
fn scale_transition_fingerprint_rebuilds_hidden_members() {
    assert!(configured_scale_matches(bits(None), bits(None)));
    assert!(configured_scale_matches(bits(Some(1.25)), bits(Some(1.25))));
    assert!(!configured_scale_matches(bits(None), bits(Some(1.0))));
    assert!(!configured_scale_matches(bits(Some(1.25)), bits(Some(1.5))));
}

#[test]
fn scales_compare_like_the_numbers_they_are() {
    for (a, b) in [
        (0.0, -0.0),
        (f64::NAN, f64::NAN),
        (f64::INFINITY, f64::INFINITY),
        (f64::NEG_INFINITY, f64::INFINITY),
        (-1.5, 1.5),
        (f64::MIN_POSITIVE, 0.0),
    ] {
        assert_eq!(
            configured_scale_matches(bits(Some(a)), bits(Some(b))),
            a == b
        );
    }
}

#[test]
fn explicit_claim_policy_suppresses_off_and_incomplete_groups() {
    assert_eq!(
        explicit_claim_policy(false, true),
        GroupMemberClaim::Planned
    );
    assert_eq!(
        explicit_claim_policy(true, true),
        GroupMemberClaim::SuppressStandalone
    );
    assert_eq!(
        explicit_claim_policy(false, false),
        GroupMemberClaim::SuppressStandalone
    );
    assert_eq!(
        explicit_claim_policy(true, false),
        GroupMemberClaim::SuppressStandalone
    );
}

#[test]
fn conflicting_explicit_group_commits_no_local_claims() {
    let mut claims = HashMap::from([(1_u8, GroupMemberClaim::Planned)]);
    commit_present_claims(
        &mut claims,
        vec![2_u8, 3],
        true,
        GroupMemberClaim::SuppressStandalone,
    );
    assert_eq!(claims, HashMap::from([(1, GroupMemberClaim::Planned)]));

    commit_present_claims(
        &mut claims,
        vec![2_u8, 3],
        false,
        GroupMemberClaim::SuppressStandalone,
    );
    assert_eq!(claims.len(), 3);
    assert_eq!(claims[&2], GroupMemberClaim::SuppressStandalone);
    assert_eq!(claims[&3], GroupMemberClaim::SuppressStandalone);
}

#[test]
fn member_keys_tell_devices_and_crtcs_apart() {
    assert_ne!(member_key(1, 0), member_key(0, 1));
    assert_ne!(member_key(1, u32::MAX), member_key(2, 0));
    assert_eq!(member_key(3, 4), 3 * (1 << 32) + 4);
}

const NODE: u64 = 57_856;

fn connected(connector: &str, crtc: u32, modes: Vec<DrmMode>) -> ConnectedOutput {
    let name = OutputName {
        connector: connector.to_string(),
        make: Some("Dell".to_string()),
        model: Some("U2720Q".to_string()),
        serial: Some(format!("serial of {connector}")),
    };
    ConnectedOutput {
        node: NODE,
        connector: ConnectorInfo {
            handle: crtc + 100,
            modes,
        },
        crtc,
        identity: name.clone(),
        name,
    }
}

fn member(output: &str, matches: &[bool]) -> GroupMember {
    GroupMember {
        output: output.to_string(),
        matches: matches.to_vec(),
        mode: None,
        transform: Transform::Normal,
        position: None,
    }
}

fn group(members: Vec<GroupMember>) -> DisplayGroup {
    DisplayGroup {
        members,
        primary: None,
        refresh_sync: RefreshSync::Strict,
        render_policy: GroupRenderPolicy::Auto,
    }
}

fn declared(name: &str, off: bool, group: Option<DisplayGroup>) -> OutputConfig {
    OutputConfig {
        name: name.to_string(),
        off,
        scale: Some(1.5_f64.to_bits()),
        display_group: group,
        tiled_group: None,
    }
}

fn native() -> DrmMode {
    modeinfo(533_223, 3840, 2160, true)
}

fn reasons(result: &GroupPlanningResult) -> Vec<&str> {
    result
        .rejections
        .iter()
        .map(|rejection| rejection.reason.as_str())
        .collect()
}

fn plan(
    outputs: &[OutputConfig],
    connected: &[ConnectedOutput],
    occupied: &[u128],
) -> GroupPlanningResult {
    let occupied = occupied.iter().copied().collect::<HashSet<_>>();
    plan_display_groups(outputs, connected, &occupied)
}

#[test]
fn complete_group_is_planned_side_by_side() {
    let slower = modeinfo(533_200, 3840, 2160, false);
    let outputs = [
        connected("DP-1", 41, vec![slower, native()]),
        connected("DP-2", 42, vec![native()]),
    ];
    let mut wall = group(vec![
        member("dp-2", &[false, true]),
        member("DP-1", &[true, false]),
    ]);
    wall.primary = Some("dp-1".to_string());
    wall.render_policy = GroupRenderPolicy::Composited;
    let config = [declared("other", false, None), declared("wall", false, Some(wall))];
    let result = plan(&config, &outputs, &[]);

    assert!(result.rejections.is_empty());
    assert_eq!(result.plans.len(), 1);
    let planned = &result.plans[0];
    assert_eq!(planned.key, "dp-1\u{1f}dp-2");
    assert_eq!(planned.name.connector, "wall");
    assert_eq!(planned.name.serial.as_deref(), Some("serial of DP-1"));
    assert_eq!(planned.config, Some(1));
    assert_eq!(planned.primary, 1);
    assert_eq!(
        planned.size,
        MemberSize {
            width: 7680,
            height: 2160
        }
    );
    assert_eq!(planned.refresh_sync, RefreshSync::Strict);
    assert_eq!(
        planned.pacing_refresh,
        RefreshMode {
            millihz: 62_169,
            preferred: true
        }
    );
    assert!(planned.composited_only);
    assert_eq!(planned.configured_scale, Some(1.5_f64.to_bits()));
    let members = planned
        .members
        .iter()
        .map(|member| (member.node, member.connector, member.crtc, member.mode))
        .collect::<Vec<_>>();
    assert_eq!(
        members,
        vec![(NODE, 142, 42, native()), (NODE, 141, 41, native())]
    );
    assert_eq!(
        planned.members[1].rect,
        MemberRect {
            x: 3840,
            y: 0,
            width: 3840,
            height: 2160
        }
    );
    assert_eq!(result.claims.len(), 2);
    assert_eq!(
        result.claims[&member_key(NODE, 41)],
        GroupMemberClaim::Planned
    );
}

#[test]
fn turned_members_are_laid_out_turned() {
    let outputs = [
        connected("DP-1", 1, vec![native()]),
        connected("DP-2", 2, vec![native()]),
    ];
    let mut left = member("DP-1", &[true, false]);
    let mut right = member("DP-2", &[false, true]);
    left.transform = Transform::_90;
    right.transform = Transform::Flipped270;
    let config = [declared("wall", false, Some(group(vec![left, right])))];
    let result = plan(&config, &outputs, &[]);
    assert_eq!(
        result.plans[0].size,
        MemberSize {
            width: 4320,
            height: 3840
        }
    );
    assert_eq!(result.plans[0].members[1].rect.x, 2160);
    assert_eq!(result.plans[0].primary, 0);
}

#[test]
fn incomplete_and_off_groups_suppress_their_present_members() {
    let outputs = [
        connected("DP-1", 1, vec![native()]),
        connected("DP-2", 2, vec![native()]),
        connected("DP-3", 3, vec![native()]),
    ];
    let incomplete = group(vec![
        member("DP-1", &[true, false, false]),
        member("DP-9", &[false, false, false]),
    ]);
    let off = group(vec![
        member("DP-2", &[false, true, false]),
        member("DP-3", &[false, false, true]),
    ]);
    let config = [
        declared("incomplete", false, Some(incomplete)),
        declared("off", true, Some(off)),
    ];
    let result = plan(&config, &outputs, &[]);
    assert!(result.plans.is_empty());
    assert_eq!(
        reasons(&result),
        ["member `DP-9` is not connected or is already in use"]
    );
    assert_eq!(result.rejections[0].output, "incomplete");
    assert_eq!(result.claims.len(), 3);
    for crtc in 1..=3 {
        assert_eq!(
            result.claims[&member_key(NODE, crtc)],
            GroupMemberClaim::SuppressStandalone
        );
    }
}

#[test]
fn earlier_declarations_keep_their_members() {
    let outputs = [
        connected("DP-1", 1, vec![native()]),
        connected("DP-2", 2, vec![native()]),
        connected("DP-3", 3, vec![native()]),
    ];
    let first = group(vec![
        member("DP-1", &[true, false, false]),
        member("DP-2", &[false, true, false]),
    ]);
    let second = group(vec![
        member("DP-2", &[false, true, false]),
        member("DP-3", &[false, false, true]),
    ]);
    let config = [
        declared("first", false, Some(first)),
        declared("second", false, Some(second)),
    ];
    let result = plan(&config, &outputs, &[]);
    assert_eq!(result.plans.len(), 1);
    assert_eq!(result.plans[0].name.connector, "first");
    assert_eq!(
        reasons(&result),
        ["member `DP-2` is not connected or is already in use"]
    );
    assert_eq!(result.claims.len(), 2);
    assert!(!result.claims.contains_key(&member_key(NODE, 3)));
}

#[test]
fn occupied_outputs_are_neither_planned_nor_claimed() {
    let outputs = [
        connected("DP-1", 1, vec![native()]),
        connected("DP-2", 2, vec![native()]),
    ];
    let wall = group(vec![
        member("DP-1", &[true, false]),
        member("DP-2", &[false, true]),
    ]);
    let config = [declared("wall", false, Some(wall))];
    let result = plan(&config, &outputs, &[member_key(NODE, 2)]);
    assert!(result.plans.is_empty());
    assert_eq!(result.claims.len(), 1);
    assert!(result.claims.contains_key(&member_key(NODE, 1)));
}

#[test]
fn every_rejection_says_why() {
    let reject = |outputs: &[ConnectedOutput], group: DisplayGroup| {
        let result = plan(&[declared("wall", false, Some(group))], outputs, &[]);
        assert!(result.plans.is_empty());
        result.rejections[0].reason.clone()
    };
    let pair = || {
        vec![
            member("DP-1", &[true, false]),
            member("DP-2", &[false, true]),
        ]
    };
    let both = |left: Vec<DrmMode>, right: Vec<DrmMode>| {
        [connected("DP-1", 1, left), connected("DP-2", 2, right)]
    };
    let twins = both(vec![native()], vec![native()]);
    assert_eq!(
        reject(
            &twins,
            group(vec![
                member("Dell U2720Q", &[true, true]),
                member("DP-2", &[false, true]),
            ])
        ),
        "member selector `Dell U2720Q` matches more than one connected output; use connector \
         names to disambiguate identical displays"
    );
    let interlaced = DrmMode {
        flags: drm_ffi::DRM_MODE_FLAG_INTERLACE,
        ..native()
    };
    assert_eq!(
        reject(&both(vec![native()], vec![interlaced]), group(pair())),
        "a member has no usable non-interlaced mode"
    );
    let faster = modeinfo(700_000, 3840, 2160, true);
    assert_eq!(
        reject(&both(vec![native()], vec![faster]), group(pair())),
        "members do not advertise a compatible refresh rate"
    );
    let mut negative = pair();
    negative[0].position = Some((0, 0));
    negative[1].position = Some((-1, 0));
    assert_eq!(
        reject(&twins, group(negative)),
        "member positions cannot be negative"
    );
    let mut overlapping = pair();
    overlapping[0].position = Some((0, 0));
    overlapping[1].position = Some((1, 0));
    assert_eq!(
        reject(&twins, group(overlapping)),
        "display-group member rectangles overlap"
    );
}

#[test]
fn exact_connector_names_win_over_identities() {
    let outputs = [
        connected("DP-1", 1, vec![native()]),
        connected("DP-2", 2, vec![native()]),
    ];
    // The first selector answers to both outputs, but names one of the connectors.
    let wall = group(vec![
        member("dp-2", &[true, true]),
        member("Dell U2720Q", &[true, true]),
    ]);
    let result = plan(&[declared("wall", false, Some(wall))], &outputs, &[]);
    let crtcs = result.plans[0]
        .members
        .iter()
        .map(|member| member.crtc)
        .collect::<Vec<_>>();
    assert_eq!(crtcs, vec![2, 1]);
}

#[test]
fn primary_and_pacing_survive_a_replug() {
    let wall = |matches: [[bool; 3]; 2]| {
        let mut wall = group(vec![
            member("DP-1", &matches[0][..]),
            member("DP-2", &matches[1][..]),
        ]);
        wall.primary = Some("DP-2".to_string());
        wall.refresh_sync = RefreshSync::Relaxed;
        [declared("wall", false, Some(wall))]
    };
    let slower = || modeinfo(533_200, 3840, 2160, true);
    let before = plan(
        &wall([[true, false, false], [false, true, false]]),
        &[
            connected("DP-1", 41, vec![native()]),
            connected("DP-2", 42, vec![slower()]),
            connected("DP-3", 43, vec![native()]),
        ],
        &[],
    );
    let after = plan(
        &wall([[false, false, true], [true, false, false]]),
        &[
            connected("DP-2", 52, vec![slower()]),
            connected("DP-3", 53, vec![native()]),
            connected("DP-1", 51, vec![native()]),
        ],
        &[],
    );
    let (before, after) = (&before.plans[0], &after.plans[0]);
    assert_eq!((before.primary, after.primary), (1, 1));
    assert_eq!(before.key, after.key);
    assert_eq!(after.members[after.primary].crtc, 52);
    assert_eq!(after.name.serial.as_deref(), Some("serial of DP-2"));
    assert_eq!(after.name.connector, "wall");
    let rates = after.members.iter().map(|member| mode_refresh(&member.mode));
    assert_eq!(rates.min(), Some(after.pacing_refresh.millihz));
    assert_eq!(after.pacing_refresh.millihz, 62_167);
}

fn planned_crtcs(result: &GroupPlanningResult) -> Vec<Vec<u32>> {
    result
        .plans
        .iter()
        .map(|plan| plan.members.iter().map(|member| member.crtc).collect())
        .collect()
}

fn assert_plans_own_their_members(result: &GroupPlanningResult) {
    for plan in &result.plans {
        for member in &plan.members {
            let key = member_key(member.node, member.crtc);
            assert_eq!(result.claims.get(&key), Some(&GroupMemberClaim::Planned));
        }
    }
}

#[test]
fn planned_members_are_owned_though_their_selector_is_ambiguous() {
    let outputs = [1, 2, 3, 4, 5].map(|crtc| connected(&format!("DP-{crtc}"), crtc, vec![native()]));
    let named = |place: usize| {
        let mut matches = [false; 5];
        matches[place] = true;
        member(&format!("DP-{}", place + 1), &matches)
    };
    let either = || member("Dell U2720Q", &[false, true, true, false, false]);
    let config = [
        declared("first", false, Some(group(vec![named(0), named(1)]))),
        // Matches the claimed second output and the free third one.
        declared("second", false, Some(group(vec![either(), named(3)]))),
        declared("third", false, Some(group(vec![named(2), named(4)]))),
    ];
    let result = plan(&config, &outputs, &[]);
    assert_eq!(planned_crtcs(&result), [[1, 2], [3, 4]]);
    assert_plans_own_their_members(&result);
    assert_eq!(
        reasons(&result),
        ["member `DP-3` is not connected or is already in use"]
    );
}

#[test]
fn planned_members_are_owned_though_a_claimed_connector_is_named() {
    let outputs = [1, 2, 3, 4].map(|crtc| connected(&format!("DP-{crtc}"), crtc, vec![native()]));
    let config = |second_off: bool| {
        [
            declared(
                "first",
                false,
                Some(group(vec![
                    member("DP-1", &[true, false, false, false]),
                    member("DP-2", &[false, true, false, false]),
                ])),
            ),
            // Names the claimed second connector, and matches the third one by identity.
            declared(
                "second",
                second_off,
                Some(group(vec![
                    member("DP-2", &[false, true, true, false]),
                    member("DP-4", &[false, false, false, true]),
                ])),
            ),
        ]
    };
    let result = plan(&config(false), &outputs, &[]);
    assert_eq!(planned_crtcs(&result), [[1, 2], [3, 4]]);
    assert_plans_own_their_members(&result);
    assert_eq!(result.claims.len(), 4);
    let off = plan(&config(true), &outputs, &[]);
    assert_eq!(planned_crtcs(&off), [[1, 2]]);
    assert_eq!(off.claims.len(), 2);
}

#[test]
fn only_modes_whose_rate_is_needed_must_have_timings() {
    let blank = |width, height| DrmMode {
        htotal: 0,
        vtotal: 0,
        ..modeinfo(0, width, height, false)
    };
    let wall = || {
        [declared(
            "wall",
            false,
            Some(group(vec![
                member("DP-1", &[true, false, false]),
                member("DP-2", &[false, true, false]),
            ])),
        )]
    };
    let outputs = |first: Vec<DrmMode>| {
        [
            connected("DP-1", 1, first),
            connected("DP-2", 2, vec![native()]),
            connected("DP-3", 3, vec![blank(3840, 2160)]),
        ]
    };
    let none = HashSet::new();
    let fine = outputs(vec![native(), blank(1920, 1080)]);
    let planned = plan_timed_display_groups(&wall(), &fine, &none).unwrap();
    assert_eq!(planned_crtcs(&planned), [[1, 2]]);
    assert_eq!(planned_crtcs(&plan(&wall(), &fine, &[])), [[1, 2]]);
    let needed = outputs(vec![native(), blank(3840, 2160)]);
    assert!(plan_timed_display_groups(&wall(), &needed, &none).is_none());
    let mut compared = wall();
    compared[0].display_group.as_mut().unwrap().members[0].mode = Some(ConfiguredMode {
        custom: false,
        width: 1920,
        height: 1080,
        refresh_millihz: Some(60_000),
    });
    assert!(plan_timed_display_groups(&compared, &fine, &none).is_none());
}

#[test]
fn outputs_answer_by_name_or_by_identity() {
    assert!(output_matches_selector(true, false));
    assert!(output_matches_selector(false, true));
    assert!(!output_matches_selector(false, false));
}

#[test]
fn planning_values_can_be_copied_and_start_empty() {
    let output = connected("DP-1", 7, vec![native()]);
    let copy = output.clone();
    assert_eq!((copy.crtc, copy.name), (7, output.name));
    let empty = GroupPlanningResult::default();
    assert!(empty.plans.is_empty() && empty.claims.is_empty() && empty.rejections.is_empty());
    let outputs = [
        connected("DP-1", 1, vec![native()]),
        connected("DP-2", 2, vec![native()]),
    ];
    let wall = group(vec![member("DP-1", &[true, false]), member("DP-2", &[false, true])]);
    let result = plan(&[declared("wall", false, Some(wall))], &outputs, &[]);
    let planned = result.plans[0].clone();
    assert_eq!(planned.key, result.plans[0].key);
    assert_eq!(planned.members, result.plans[0].members);
}
