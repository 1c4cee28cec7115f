use std::time::Duration;

use niri_tiled::elements::{
    RenderElementPresentationState, RenderElementState, RenderElementStates, RenderingReason,
};
use niri_tiled::frame::{
    aggregate_member_events, choose_common_refresh, group_layout, merge_render_element_states,
    pacing_refresh_interval, submit_prepared_members, CrtcEventClassification, CrtcEventTracker,
    FormationJournal, GammaNodeState, GammaTransaction, GroupSubmission, GroupSubmissionOutcome,
    GroupTeardownLifecycle, LogicalFrameCompletion, LogicalFrameDisposition, LogicalFrameEvent,
    LogicalFrameLifecycle, LogicalFrameOutcome, MemberEvent, MemberGeometry, MemberRetirement,
    MemberSize, PendingGroupFrame, RefreshMode, RefreshSync, SubmissionRun, SubmissionStep,
    TeardownCommand, MAX_GROUP_MEMBERS,
};
use niri_tiled::layout::LayoutError;
use niri_tiled::pending::FrameError;

fn millis(n: u64) -> u128 {
    Duration::from_millis(n).as_nanos()
}

fn sized(width: u32, height: u32, position: Option<(u32, u32)>) -> MemberGeometry {
    MemberGeometry {
        size: MemberSize { width, height },
        position,
    }
}

#[test]
fn retirement_tracks_every_partial_clear_order() {
    for member_count in 2..=MAX_GROUP_MEMBERS {
        let full_mask = (1_u8 << member_count) - 1;
        for initially_failed in 0..=full_mask {
            let mut retirement = MemberRetirement::new(member_count);
            for member in 0..member_count {
                if initially_failed & (1 << member) == 0 {
                    assert!(retirement.confirm(member));
                }
            }
            assert_eq!(retirement.pending_mask(), initially_failed);
            for member in (0..member_count).rev() {
                if initially_failed & (1 << member) != 0 {
                    assert!(retirement.confirm(member));
                }
            }
            assert!(retirement.is_complete());
        }
    }
}

#[test]
fn retirement_knows_only_its_own_members() {
    let mut retirement = MemberRetirement::new(3);
    for member in [3, 4, 7, 8, 9, 64, (1 << 32) + 3, usize::MAX] {
        assert!(!retirement.confirm(member));
        assert!(!retirement.is_retired(member));
    }
    assert_eq!(retirement.pending_mask(), 0b111);
    assert!(retirement.confirm(1));
    assert!(retirement.confirm(1));
    assert!(retirement.is_retired(1));
    assert!(!retirement.is_retired(0));
    assert_eq!(retirement.pending_mask(), 0b101);
    // Only the low 32 bits of a number say which member is confirmed.
    assert!(retirement.confirm((1 << 32) + 2));
    assert!(!retirement.is_retired((1 << 32) + 2));
    assert!(retirement.is_retired(2));
    assert_eq!(retirement.pending_mask(), 0b001);
    assert!(!retirement.is_complete());
}

#[test]
fn teardown_reducer_withdraws_once_and_never_releases_partial_ownership() {
    for member_count in 2..=MAX_GROUP_MEMBERS {
        let full_mask = (1_u8 << member_count) - 1;
        for failed_mask in 0..=full_mask {
            let (mut lifecycle, commands) = GroupTeardownLifecycle::begin(member_count);
            assert_eq!(
                commands,
                [
                    TeardownCommand::WithdrawOutput,
                    TeardownCommand::EnterQuarantine
                ]
            );
            assert!(!lifecycle.is_public());
            let mut release_count = 0;
            for member in 0..member_count {
                if failed_mask & (1 << member) == 0
                    && lifecycle.confirm_retired(member) == Some(TeardownCommand::ReleaseResources)
                {
                    release_count += 1;
                }
            }
            assert_eq!(lifecycle.pending_mask(), failed_mask);
            if failed_mask != 0 {
                assert_eq!(lifecycle.disable_failed(), TeardownCommand::RetryDisable);
                assert_eq!(release_count, 0);
            }
            for member in (0..member_count).rev() {
                if failed_mask & (1 << member) != 0
                    && lifecycle.confirm_retired(member) == Some(TeardownCommand::ReleaseResources)
                {
                    release_count += 1;
                }
            }
            assert!(lifecycle.is_complete());
            assert_eq!(release_count, 1);
            assert!(!lifecycle.is_public());
        }
    }
}

#[test]
fn teardown_ignores_unknown_members() {
    let (mut lifecycle, _) = GroupTeardownLifecycle::begin(2);
    assert_eq!(lifecycle.confirm_retired(2), None);
    assert!(!lifecycle.is_retired(0));
    assert_eq!(lifecycle.confirm_retired(0), None);
    assert!(lifecycle.is_retired(0));
    assert_eq!(
        lifecycle.confirm_retired(1),
        Some(TeardownCommand::ReleaseResources)
    );
}

#[test]
fn formation_journal_rolls_back_every_fault_point_in_reverse() {
    for failed_after in 0..4 {
        let mut journal = FormationJournal::default();
        for member in 0..failed_after {
            journal.record_changed(format!("changed-{member}"));
            journal.record_created(format!("created-{member}"));
        }
        let (changed, created) = journal.rollback();
        let expected = (0..failed_after).rev().collect::<Vec<_>>();
        assert_eq!(
            changed,
            expected
                .iter()
                .map(|member| format!("changed-{member}"))
                .collect::<Vec<_>>()
        );
        assert_eq!(
            created,
            expected
                .iter()
                .map(|member| format!("created-{member}"))
                .collect::<Vec<_>>()
        );
    }
}

#[test]
fn committed_journal_is_consumed() {
    let mut journal = FormationJournal::<u8, u8>::default();
    journal.record_created(1);
    journal.commit();
}

#[test]
fn gamma_transaction_retains_unknown_nodes_after_rollback_failures() {
    for node_count in 2..=MAX_GROUP_MEMBERS {
        for failed_commit in 1..node_count {
            for rollback_failure_mask in 0_u8..(1 << failed_commit) {
                let mut transaction = GammaTransaction::new((0..node_count).collect::<Vec<_>>());
                for node in 0..failed_commit {
                    transaction.mark_new(node);
                }
                for node in 0..failed_commit {
                    transaction.mark_rollback(node, rollback_failure_mask & (1 << node) == 0);
                }
                assert_eq!(transaction.has_unknown(), rollback_failure_mask != 0);
                for node in 0..failed_commit {
                    let expected = if rollback_failure_mask & (1 << node) == 0 {
                        GammaNodeState::Old
                    } else {
                        GammaNodeState::Unknown
                    };
                    assert_eq!(transaction.state(node), Some(expected));
                }
                for node in failed_commit..node_count {
                    assert_eq!(transaction.state(node), Some(GammaNodeState::Old));
                }
            }
        }
    }
}

#[test]
fn gamma_transaction_lists_its_nodes() {
    let mut transaction = GammaTransaction::new(vec![3_u64, 5, 3]);
    transaction.mark_new(5);
    assert_eq!(transaction.states().len(), 2);
    assert_eq!(transaction.state(5), Some(GammaNodeState::New));
    assert_eq!(transaction.state(4), None);
    assert!(!transaction.has_unknown());
}

#[test]
fn portrait_pair_auto_layout_is_exact() {
    let members = [sized(2160, 3840, None), sized(2160, 3840, None)];
    let (size, rects) = group_layout(&members).unwrap();
    assert_eq!(
        size,
        MemberSize {
            width: 4320,
            height: 3840
        }
    );
    assert_eq!(rects[1].x, 2160);
    assert_eq!(
        (f64::from(size.width) / 1.25, f64::from(size.height) / 1.25),
        (3456.0, 3072.0)
    );
}

#[test]
fn explicit_layout_rejects_gaps_overlap_and_shifted_origin() {
    let member = |x| MemberGeometry {
        size: MemberSize {
            width: 100,
            height: 100,
        },
        position: Some((x, 0)),
    };
    assert!(group_layout(&[member(0), member(101)]).is_err());
    assert!(group_layout(&[member(0), member(99)]).is_err());
    assert!(group_layout(&[member(1), member(101)]).is_err());
    assert!(group_layout(&[
        member(0),
        MemberGeometry {
            position: None,
            ..member(100)
        },
    ])
    .is_err());
}

#[test]
fn automatic_layout_partitions_physical_pixels_exactly() {
    let members = [sized(2160, 3840, None), sized(2160, 3840, None)];
    let (_, rects) = group_layout(&members).unwrap();
    assert_eq!(rects[0].right(), Some(rects[1].x));
    assert_eq!(rects[0].y, rects[1].y);
    assert_eq!(rects[0].height, rects[1].height);
}

#[test]
fn automatic_layout_reports_unequal_heights_directly() {
    let err = group_layout(&[sized(100, 100, None), sized(100, 90, None)]).unwrap_err();
    assert!(err
        .to_string()
        .contains("automatic row layout requires equal member heights"));
}

#[test]
fn every_layout_error_is_reported() {
    let err = |members: &[MemberGeometry]| group_layout(members).unwrap_err();
    assert_eq!(err(&[sized(1, 1, None)]), LayoutError::MemberCount);
    assert_eq!(err(&[sized(1, 1, None); 5]), LayoutError::MemberCount);
    assert_eq!(
        err(&[sized(1, 1, None), sized(0, 1, None)]),
        LayoutError::EmptyMember
    );
    assert_eq!(
        err(&[sized(1, 1, None), sized(1, 1, Some((1, 0)))]),
        LayoutError::PartialPositions
    );
    assert_eq!(
        err(&[sized(1, 1, None), sized(1, 2, None)]),
        LayoutError::UnequalHeights
    );
    assert_eq!(
        err(&[sized(u32::MAX, 1, None), sized(1, 1, None)]),
        LayoutError::WidthOverflow
    );
    assert_eq!(
        err(&[sized(1, 1, Some((0, u32::MAX))), sized(1, 1, Some((0, 0)))]),
        LayoutError::HeightOverflow
    );
    assert_eq!(
        err(&[sized(65_535, 1, None), sized(1, 1, None)]),
        LayoutError::ProtocolLimit
    );
    assert_eq!(
        err(&[sized(1, 1, Some((1, 0))), sized(1, 1, Some((2, 0)))]),
        LayoutError::ShiftedOrigin
    );
    assert_eq!(
        err(&[sized(2, 1, Some((0, 0))), sized(2, 1, Some((1, 0)))]),
        LayoutError::Overlap
    );
    assert_eq!(
        err(&[sized(1, 1, Some((0, 0))), sized(1, 1, Some((2, 0)))]),
        LayoutError::Gaps
    );
    assert_eq!(
        LayoutError::MemberCount.to_string(),
        "display-group requires between 2 and 4 members"
    );
    assert!(group_layout(&[sized(65_534, 65_535, None), sized(1, 65_535, None)]).is_ok());
}

#[test]
fn rows_columns_and_grids_are_accepted() {
    for widths in [vec![1_u32, 3_999], vec![640, 1, 77], vec![9, 9, 9, 3_000]] {
        let mut offset = 0;
        let mut row = Vec::new();
        let mut column = Vec::new();
        for &width in &widths {
            row.push(sized(width, 700, Some((offset, 0))));
            column.push(sized(700, width, Some((0, offset))));
            offset += width;
        }
        let (size, rects) = group_layout(&row).unwrap();
        assert_eq!((size.width, size.height), (offset, 700));
        for pair in rects.windows(2) {
            assert_eq!(pair[0].right(), Some(pair[1].x));
        }
        let (size, rects) = group_layout(&column).unwrap();
        assert_eq!((size.width, size.height), (700, offset));
        for pair in rects.windows(2) {
            assert_eq!(pair[0].bottom(), Some(pair[1].y));
        }
    }
    for (left, right, top, bottom) in [(1, 1_999, 3, 4), (640, 640, 480, 1)] {
        let (size, _) = group_layout(&[
            sized(left, top, Some((0, 0))),
            sized(right, top, Some((left, 0))),
            sized(left, bottom, Some((0, top))),
            sized(right, bottom, Some((left, top))),
        ])
        .unwrap();
        assert_eq!((size.width, size.height), (left + right, top + bottom));
    }
}

#[test]
fn automatic_and_explicit_rows_agree() {
    let automatic = group_layout(&[sized(30, 9, None), sized(50, 9, None)]).unwrap();
    let explicit =
        group_layout(&[sized(30, 9, Some((0, 0))), sized(50, 9, Some((30, 0)))]).unwrap();
    assert_eq!(automatic, explicit);
    assert!(!automatic.1[0].overlaps(automatic.1[1]));
    assert!(automatic.1[0].overlaps(automatic.1[0]));
}

fn rate(millihz: u32, preferred: bool) -> RefreshMode {
    RefreshMode { millihz, preferred }
}

#[test]
fn strict_refresh_searches_beyond_independent_preferred_modes() {
    let selected = choose_common_refresh(
        &[
            vec![rate(60_000, true), rate(59_997, false)],
            vec![rate(59_940, true), rate(59_997, false)],
        ],
        RefreshSync::Strict,
    )
    .unwrap();
    assert_eq!(
        selected.iter().map(|mode| mode.millihz).collect::<Vec<_>>(),
        vec![59_997, 59_997]
    );
    assert!(choose_common_refresh(
        &[vec![rate(60_000, true)], vec![rate(59_940, true)]],
        RefreshSync::Strict,
    )
    .is_none());
    assert!(choose_common_refresh(
        &[vec![rate(60_000, true)], vec![rate(59_940, true)]],
        RefreshSync::Relaxed,
    )
    .is_some());
}

#[test]
fn common_refresh_prefers_preferred_then_faster_modes() {
    let both = vec![rate(30_000, false), rate(60_000, false), rate(50_000, true)];
    let selected = choose_common_refresh(&[both.clone(), both.clone()], RefreshSync::Strict);
    assert_eq!(selected, Some(vec![rate(50_000, true), rate(50_000, true)]));
    let plain = vec![rate(30_000, false), rate(60_000, false)];
    let selected = choose_common_refresh(&[plain.clone(), plain], RefreshSync::default());
    assert_eq!(selected, Some(vec![rate(60_000, false), rate(60_000, false)]));
    assert_eq!(choose_common_refresh(&[both.clone()], RefreshSync::Relaxed), None);
    assert_eq!(
        choose_common_refresh(&[both.clone(), Vec::new()], RefreshSync::Relaxed),
        None
    );
    assert_eq!(RefreshSync::Strict.tolerance_millihz(), 5);
    assert_eq!(RefreshSync::Relaxed.tolerance_millihz(), 100);
}

#[test]
fn common_refresh_prefers_the_faster_pacing_over_the_smaller_spread() {
    let plain = |millihz| rate(millihz, false);
    let modes = [
        vec![plain(60_000), plain(59_990)],
        vec![plain(59_998), plain(59_990)],
    ];
    assert_eq!(
        choose_common_refresh(&modes, RefreshSync::Strict),
        Some(vec![plain(60_000), plain(59_998)])
    );
    // A preferred mode counts only at a rate that all members share.
    let one_sided = [
        vec![rate(60_000, true), plain(59_990)],
        vec![plain(59_998), rate(59_990, true)],
    ];
    assert_eq!(
        choose_common_refresh(&one_sided, RefreshSync::Strict),
        Some(vec![plain(59_990), rate(59_990, true)])
    );
    // At the same pacing rate the members stay together.
    let close = [
        vec![plain(60_003), plain(60_000)],
        vec![plain(60_000)],
    ];
    assert_eq!(
        choose_common_refresh(&close, RefreshSync::Strict),
        Some(vec![plain(60_000), plain(60_000)])
    );
}

#[test]
fn frame_mask_ignores_duplicates_and_stale_events() {
    let mut frame = PendingGroupFrame::new("frame", 0b101, [10, 0, 20, 0]);
    assert!(!frame.record(
        0,
        MemberEvent {
            sequence: 9,
            time: 0
        }
    ));
    assert!(frame.record(
        2,
        MemberEvent {
            sequence: 20,
            time: millis(12)
        }
    ));
    assert!(!frame.record(
        2,
        MemberEvent {
            sequence: 21,
            time: millis(13)
        }
    ));
    assert!(frame.record(
        0,
        MemberEvent {
            sequence: 10,
            time: millis(10)
        }
    ));
    let (value, event) = frame.finish(0).unwrap();
    assert_eq!(value, "frame");
    assert_eq!(event.sequence, 10);
    assert_eq!(event.time, millis(12));

    let wrapping = PendingGroupFrame::new((), 0b1, [u32::MAX, 0, 0, 0]);
    assert!(wrapping.accepts(0, 0));
    assert!(!wrapping.accepts(0, u32::MAX - 1));
}

#[test]
fn unfinished_frames_report_why() {
    let pending = PendingGroupFrame::new((), 0b11, [0; MAX_GROUP_MEMBERS]);
    assert_eq!(pending.pending_mask(), 0b11);
    assert!(!pending.accepts(2, 0));
    assert!(!pending.accepts(4, 0));
    assert!(!pending.accepts(40, 0));
    assert_eq!(pending.finish(0).unwrap_err(), FrameError::StillPending);
    let pending = PendingGroupFrame::new((), 0b11, [0; MAX_GROUP_MEMBERS]);
    assert_eq!(
        pending.finish_logical(0).unwrap_err(),
        FrameError::StillPending
    );
    let event = MemberEvent {
        sequence: 4,
        time: 9,
    };
    let mut pending = PendingGroupFrame::new((), 0b10, [0; MAX_GROUP_MEMBERS]);
    assert!(pending.record(1, event));
    assert_eq!(pending.finish(0).unwrap_err(), FrameError::PrimaryAbsent);
    let mut pending = PendingGroupFrame::new(7_u8, 0b10, [0; MAX_GROUP_MEMBERS]);
    assert!(pending.record(1, event));
    let (frame, event) = pending.finish_logical(70).unwrap();
    assert_eq!((frame, event.sequence, event.time), (7, 70, 9));
    assert_eq!(
        FrameError::NoEvents.to_string(),
        "group frame has no member events"
    );
}

#[test]
fn aggregation_uses_the_primary_sequence_and_the_latest_time() {
    let event = |sequence, time| Some(MemberEvent { sequence, time });
    let events = [None, event(7, 30), event(9, 20), None];
    assert_eq!(aggregate_member_events(&events, 1), event(7, 30));
    assert_eq!(aggregate_member_events(&events, 2), event(9, 30));
    assert_eq!(aggregate_member_events(&events, 0), None);
    assert_eq!(aggregate_member_events(&events, 4), None);
}

#[test]
fn crtc_tracker_retires_old_generations_without_authenticating_new_frames() {
    let mut tracker = CrtcEventTracker::default();
    let standalone = tracker.enqueue();
    assert_eq!(standalone.generation, 1);
    tracker.begin_generation();
    let grouped = tracker.enqueue();
    assert_eq!(grouped.generation, 2);
    assert_eq!(
        grouped.sequence_floor,
        standalone.sequence_floor.wrapping_add(1)
    );

    assert_eq!(
        tracker.classify(standalone.sequence_floor),
        CrtcEventClassification::Retire {
            submission: standalone,
            drain: true,
            current_generation: false,
        }
    );
    assert!(tracker.retired(standalone, standalone.sequence_floor));
    assert_eq!(
        tracker.classify(grouped.sequence_floor),
        CrtcEventClassification::Retire {
            submission: grouped,
            drain: true,
            current_generation: true,
        }
    );
    assert!(tracker.retired(grouped, grouped.sequence_floor));
}

#[test]
fn crtc_tracker_rejects_pre_floor_and_handles_wraparound() {
    let mut tracker = CrtcEventTracker::default();
    let first = tracker.enqueue();
    assert!(tracker.retired(first, u32::MAX));
    let wrapped = tracker.enqueue();
    assert_eq!(wrapped.sequence_floor, 0);
    assert_eq!(
        tracker.classify(u32::MAX - 1),
        CrtcEventClassification::Reject
    );
    assert!(matches!(
        tracker.classify(0),
        CrtcEventClassification::Retire { submission, .. } if submission == wrapped
    ));
}

#[test]
fn replacing_compositor_never_drains_old_submission_into_new_owner() {
    let mut tracker = CrtcEventTracker::default();
    let old = tracker.enqueue();
    tracker.replace_compositor();
    let new = tracker.enqueue();
    assert_eq!(
        tracker.classify(old.sequence_floor),
        CrtcEventClassification::Retire {
            submission: old,
            drain: false,
            current_generation: false,
        }
    );
    assert!(tracker.retired(old, old.sequence_floor));
    assert!(matches!(
        tracker.classify(new.sequence_floor),
        CrtcEventClassification::Retire {
            submission,
            drain: true,
            current_generation: true,
        } if submission == new
    ));
}

#[test]
fn rejected_event_without_pending_submission_never_establishes_a_floor() {
    let mut tracker = CrtcEventTracker::default();
    assert_eq!(
        tracker.classify(4_000_000_000),
        CrtcEventClassification::Reject
    );
    assert_eq!(tracker.last_sequence(), None);
    let submission = tracker.enqueue();
    assert_eq!(submission.sequence_floor, 0);
    assert_eq!(tracker.last_sequence(), None);
}

#[test]
fn cancelled_submissions_leave_the_others_in_order() {
    let mut tracker = CrtcEventTracker::default();
    let first = tracker.enqueue();
    let second = tracker.enqueue();
    let third = tracker.enqueue();
    assert!(tracker.cancel(second));
    assert!(!tracker.cancel(second));
    assert!(!tracker.retired(third, 5));
    assert!(tracker.retired(first, 5));
    assert_eq!(tracker.last_sequence(), Some(5));
    assert!(tracker.retired(third, 6));
    assert_eq!(tracker.generation(), 1);
    assert_eq!(tracker.begin_generation(), 2);
    assert_eq!(tracker.enqueue().sequence_floor, 7);
}

#[test]
fn stale_event_between_current_member_events_cannot_complete_the_frame() {
    let mut lifecycle = LogicalFrameLifecycle::default();
    lifecycle.submit(
        "current",
        0b11,
        [100, 200, 0, 0],
        LogicalFrameOutcome::Complete,
    );
    assert!(matches!(
        lifecycle.record(
            0,
            MemberEvent {
                sequence: 100,
                time: millis(1),
            }
        ),
        LogicalFrameEvent::Waiting
    ));
    assert!(matches!(
        lifecycle.record(
            0,
            MemberEvent {
                sequence: 99,
                time: millis(2),
            }
        ),
        LogicalFrameEvent::Rejected
    ));
    assert!(lifecycle.has_pending());
    assert!(matches!(
        lifecycle.record(
            1,
            MemberEvent {
                sequence: 200,
                time: millis(3),
            }
        ),
        LogicalFrameEvent::Completed(LogicalFrameCompletion {
            disposition: LogicalFrameDisposition::Present { sequence: 1 },
            ..
        })
    ));
}

#[test]
fn abandoning_after_one_member_event_never_presents() {
    let mut lifecycle = LogicalFrameLifecycle::default();
    lifecycle.submit(
        "hot-unplugged",
        0b111,
        [0; MAX_GROUP_MEMBERS],
        LogicalFrameOutcome::Complete,
    );
    assert!(matches!(
        lifecycle.record(
            1,
            MemberEvent {
                sequence: 1,
                time: millis(1),
            }
        ),
        LogicalFrameEvent::Waiting
    ));
    assert_eq!(lifecycle.take_pending(), Some("hot-unplugged"));
    assert!(!lifecycle.has_pending());
    assert_eq!(lifecycle.successful_sequence(), 0);
}

fn permutations(values: &mut [usize], start: usize, out: &mut Vec<Vec<usize>>) {
    if start == values.len() {
        out.push(values.to_vec());
        return;
    }
    for idx in start..values.len() {
        values.swap(start, idx);
        permutations(values, start + 1, out);
        values.swap(start, idx);
    }
}

#[test]
fn every_complete_member_event_order_presents_exactly_once() {
    for member_count in 2..=MAX_GROUP_MEMBERS {
        let mut members = (0..member_count).collect::<Vec<_>>();
        let mut orders = Vec::new();
        permutations(&mut members, 0, &mut orders);
        for order in orders {
            let mut lifecycle = LogicalFrameLifecycle::default();
            lifecycle.submit(
                (),
                (1_u8 << member_count) - 1,
                [0; MAX_GROUP_MEMBERS],
                LogicalFrameOutcome::Complete,
            );
            let mut completions = 0;
            for member in order {
                let result = lifecycle.record(
                    member,
                    MemberEvent {
                        sequence: member as u32,
                        time: millis(member as u64),
                    },
                );
                completions += matches!(result, LogicalFrameEvent::Completed(_)) as usize;
            }
            assert_eq!(completions, 1);
            assert_eq!(lifecycle.successful_sequence(), 1);
        }
    }
}

#[test]
fn submission_seam_records_partial_failure_without_waiting_for_unsent_members() {
    let prepared = [true, true, false, true];
    let mut attempted = Vec::new();
    let result = submit_prepared_members(
        prepared.len(),
        |member| prepared[member],
        |member| {
            attempted.push(member);
            member != 1
        },
    );

    assert_eq!(attempted, vec![0, 1, 3]);
    assert_eq!(result.submitted_mask, 0b1001);
    assert!(result.partial_failure);
    assert_eq!(
        result.outcome(),
        GroupSubmissionOutcome::PartialFailure {
            submitted_mask: 0b1001
        }
    );
}

#[test]
fn submission_outcome_is_explicit_for_two_to_four_members_and_every_failure() {
    for member_count in 2..=MAX_GROUP_MEMBERS {
        let complete = submit_prepared_members(member_count, |_| true, |_| true);
        assert_eq!(
            complete.outcome(),
            GroupSubmissionOutcome::Complete {
                submitted_mask: (1 << member_count) - 1
            }
        );

        for failed in 0..member_count {
            let submission =
                submit_prepared_members(member_count, |_| true, |member| member != failed);
            let expected_mask = ((1_u8 << member_count) - 1) & !(1 << failed);
            let expected = if expected_mask == 0 {
                GroupSubmissionOutcome::NoSubmission
            } else {
                GroupSubmissionOutcome::PartialFailure {
                    submitted_mask: expected_mask,
                }
            };
            assert_eq!(
                submission.outcome(),
                expected,
                "member_count={member_count}, failed={failed}"
            );
        }
    }

    let none = submit_prepared_members(4, |_| false, |_| unreachable!());
    assert_eq!(none.outcome(), GroupSubmissionOutcome::NoSubmission);
}

#[test]
fn logical_lifecycle_never_presents_partial_submissions() {
    for member_count in 2..=MAX_GROUP_MEMBERS {
        let full_mask = (1_u8 << member_count) - 1;
        for failed in 0..member_count {
            let submitted = full_mask & !(1 << failed);
            let mut lifecycle = LogicalFrameLifecycle::default();
            lifecycle.submit(
                "partial",
                submitted,
                [0; MAX_GROUP_MEMBERS],
                LogicalFrameOutcome::PartialFailure,
            );
            for member in 0..member_count {
                if submitted & (1 << member) == 0 {
                    continue;
                }
                let event = lifecycle.record(
                    member,
                    MemberEvent {
                        sequence: member as u32 + 1,
                        time: millis(member as u64 + 1),
                    },
                );
                if lifecycle.has_pending() {
                    assert!(matches!(event, LogicalFrameEvent::Waiting));
                } else {
                    assert!(matches!(
                        event,
                        LogicalFrameEvent::Completed(LogicalFrameCompletion {
                            frame: "partial",
                            disposition: LogicalFrameDisposition::DiscardPartial,
                            ..
                        })
                    ));
                }
            }
            assert_eq!(lifecycle.successful_sequence(), 0);
        }
    }
}

#[test]
fn logical_lifecycle_advances_only_complete_frames_and_rejects_duplicates() {
    let mut lifecycle = LogicalFrameLifecycle::default();
    lifecycle.submit(
        "complete",
        0b11,
        [10, 20, 0, 0],
        LogicalFrameOutcome::Complete,
    );
    assert!(matches!(
        lifecycle.record(
            0,
            MemberEvent {
                sequence: 10,
                time: millis(10),
            },
        ),
        LogicalFrameEvent::Waiting
    ));
    assert!(matches!(
        lifecycle.record(
            0,
            MemberEvent {
                sequence: 11,
                time: millis(11),
            },
        ),
        LogicalFrameEvent::Rejected
    ));
    let completion = lifecycle.record(
        1,
        MemberEvent {
            sequence: 20,
            time: millis(20),
        },
    );
    assert!(matches!(
        completion,
        LogicalFrameEvent::Completed(LogicalFrameCompletion {
            frame: "complete",
            event: MemberEvent {
                sequence: 1,
                time,
            },
            disposition: LogicalFrameDisposition::Present { sequence: 1 },
        }) if time == millis(20)
    ));
    assert_eq!(lifecycle.successful_sequence(), 1);
}

#[test]
fn idle_lifecycle_rejects_events() {
    let mut lifecycle = LogicalFrameLifecycle::<()>::default();
    let event = MemberEvent {
        sequence: 0,
        time: 0,
    };
    assert!(matches!(
        lifecycle.record(0, event),
        LogicalFrameEvent::Rejected
    ));
    assert_eq!(lifecycle.take_pending(), None);
}

#[test]
fn reported_refresh_uses_slowest_member() {
    let refresh = pacing_refresh_interval(&[rate(60_000, true), rate(59_940, true)]).unwrap();
    assert_eq!(
        Duration::from_secs_f64(1000.0 / f64::from(refresh.millihz)),
        Duration::from_secs_f64(1000.0 / 59_940.0)
    );
}

#[test]
fn stopped_members_report_no_refresh() {
    assert!(pacing_refresh_interval(&[]).is_none());
    assert!(pacing_refresh_interval(&[rate(60_000, true), rate(0, false)]).is_none());
}

fn shown(
    visible_area: usize,
    presentation_state: RenderElementPresentationState,
    needs_capture: bool,
) -> RenderElementState {
    RenderElementState {
        visible_area,
        presentation_state,
        needs_capture,
    }
}

fn states(entries: &[(u64, RenderElementState)]) -> RenderElementStates {
    RenderElementStates {
        states: entries.iter().copied().collect(),
    }
}

#[test]
fn element_state_merge_requires_every_visible_fragment_to_be_zero_copy() {
    let id = 1_u64;
    let mut merged = states(&[]);
    let left = states(&[(
        id,
        shown(100, RenderElementPresentationState::ZeroCopy, false),
    )]);
    let right = states(&[(
        id,
        shown(
            20,
            RenderElementPresentationState::Rendering {
                reason: Some(RenderingReason::ScanoutFailed),
            },
            true,
        ),
    )]);

    merge_render_element_states(&mut merged, &left);
    merge_render_element_states(&mut merged, &right);
    let state = merged.states[&id];
    assert_eq!(state.visible_area, 120);
    assert!(state.needs_capture);
    assert_eq!(
        state.presentation_state,
        RenderElementPresentationState::Rendering {
            reason: Some(RenderingReason::ScanoutFailed),
        }
    );
}

#[test]
fn element_state_merge_keeps_absent_and_skipped_members_neutral() {
    let skipped = RenderElementPresentationState::Skipped;
    let zero_copy = RenderElementPresentationState::ZeroCopy;
    let rendered = RenderElementPresentationState::Rendering { reason: None };
    let mut merged = states(&[
        (1, shown(usize::MAX, skipped, false)),
        (2, shown(3, zero_copy, false)),
        (4, shown(1, rendered, false)),
    ]);
    let member = states(&[
        (1, shown(5, zero_copy, false)),
        (3, shown(7, skipped, true)),
        (
            4,
            shown(
                1,
                RenderElementPresentationState::Rendering {
                    reason: Some(RenderingReason::FormatUnsupported),
                },
                false,
            ),
        ),
    ]);
    merge_render_element_states(&mut merged, &member);
    assert_eq!(merged.states.len(), 4);
    assert_eq!(merged.states[&1], shown(usize::MAX, zero_copy, false));
    assert_eq!(merged.states[&2], shown(3, zero_copy, false));
    assert_eq!(merged.states[&3], shown(7, skipped, true));
    assert_eq!(
        merged.states[&4],
        shown(
            2,
            RenderElementPresentationState::Rendering {
                reason: Some(RenderingReason::FormatUnsupported),
            },
            false,
        )
    );
}

#[test]
fn only_prepared_members_are_submitted_and_in_order() {
    let mut asked = Vec::new();
    let mut submitted = Vec::new();
    let submission = submit_prepared_members(
        4,
        |member| {
            asked.push(member);
            [true, true, false, true][member]
        },
        |member| {
            submitted.push(member);
            member != 1
        },
    );
    assert_eq!(asked, [0, 1, 2, 3]);
    assert_eq!(submitted, [0, 1, 3]);
    let expected = GroupSubmission {
        submitted_mask: 0b1001,
        partial_failure: true,
    };
    assert_eq!(submission, expected);
    let failed = GroupSubmission {
        submitted_mask: 0,
        partial_failure: true,
    };
    assert_eq!(failed.outcome(), GroupSubmissionOutcome::NoSubmission);
}

#[test]
fn submission_runs_step_by_step() {
    let mut run = SubmissionRun::new(2);
    assert_eq!(run.step(), SubmissionStep::AskPrepared { member: 0 });
    run.answer(true);
    assert_eq!(run.step(), SubmissionStep::Submit { member: 0 });
    run.answer(false);
    assert_eq!(run.step(), SubmissionStep::AskPrepared { member: 1 });
    run.answer(true);
    assert_eq!(run.step(), SubmissionStep::Submit { member: 1 });
    run.answer(true);
    let finished = SubmissionStep::Finished {
        submission: GroupSubmission {
            submitted_mask: 0b10,
            partial_failure: true,
        },
    };
    assert_eq!(run.step(), finished);
    run.answer(false);
    assert_eq!(run.step(), finished);
}

#[test]
fn replaced_submissions_stay_old_until_they_retire() {
    let mut tracker = CrtcEventTracker::default();
    let first = tracker.enqueue();
    let second = tracker.enqueue();
    let generation = tracker.generation();
    assert_eq!(tracker.replace_compositor(), generation + 1);
    let new = tracker.enqueue();
    for (sequence, old) in [(0, first), (1, second)] {
        assert_eq!(
            tracker.classify(sequence),
            CrtcEventClassification::Retire {
                submission: old,
                drain: false,
                current_generation: false
            }
        );
        assert!(tracker.retired(old, sequence));
    }
    assert_eq!(
        tracker.classify(2),
        CrtcEventClassification::Retire {
            submission: new,
            drain: true,
            current_generation: true
        }
    );
}
