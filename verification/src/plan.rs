//! Discovery planning for general display groups.
//!
//! Planning consumes a stable snapshot of the connected outputs of every device and never reaches
//! back into mutable state, which keeps topology reconciliation deterministic.

use std::collections::HashMap;
use std::collections::HashSet;

use vstd::prelude::*;

use crate::layout;
use crate::layout::group_layout;
use crate::layout::MemberGeometry;
use crate::layout::MemberRect;
use crate::layout::MemberSize;
use crate::modes;
use crate::modes::candidate_modes;
use crate::modes::mode_refresh;
use crate::modes::needs_rate;
use crate::modes::DrmMode;
use crate::names;
use crate::names::copy_optional;
use crate::names::stable_group_key;
use crate::names::NameView;
use crate::names::OutputName;
use crate::refresh;
use crate::refresh::choose_common_refresh;
use crate::refresh::RefreshMode;
use crate::refresh::RefreshSync;
use crate::selection;
use crate::selection::commit_present_claims;
use crate::selection::explicit_claim_policy;
use crate::selection::find_output;
use crate::selection::member_key;
use crate::selection::present_member_claims;
use crate::selection::transformed_size;
use crate::selection::CandidateChoiceError;
use crate::selection::ConnectedOutput;
use crate::selection::DisplayGroup;
use crate::selection::GroupMember;
use crate::selection::GroupMemberClaim;
use crate::selection::GroupRenderPolicy;
use crate::selection::Transform;
use crate::text;
use crate::tiling;

verus! {

/// One output block of the configuration.
#[derive(Debug)]
pub struct OutputConfig {
    pub name: String,
    pub off: bool,
    /// Bit pattern of the explicit logical scale, a 64-bit floating-point number.
    pub scale: Option<u64>,
    pub display_group: Option<DisplayGroup>,
    /// Connector names of a same-device tiled group.
    pub tiled_group: Option<Vec<String>>,
}

/// One member of a planned group.
#[derive(Debug, Clone, Copy, PartialEq, Eq)]
pub struct GroupMemberPlan {
    pub node: u64,
    pub connector: u32,
    pub crtc: u32,
    pub mode: DrmMode,
    pub transform: Transform,
    pub rect: MemberRect,
}

/// A complete plan to join connected outputs into one logical output.
#[derive(Debug, Clone)]
pub struct OutputGroupPlan {
    pub key: String,
    pub name: OutputName,
    /// Index of the declaring output block.
    pub config: Option<usize>,
    pub members: Vec<GroupMemberPlan>,
    pub primary: usize,
    pub size: MemberSize,
    pub refresh_sync: RefreshSync,
    pub pacing_refresh: RefreshMode,
    pub composited_only: bool,
    /// Explicit logical scale of the declaring output block, as its bit pattern. A change requires
    /// rebuilding the hidden member outputs so their transforms, damage history, and
    /// logical-to-physical mapping cannot remain on the old scale.
    pub configured_scale: Option<u64>,
}

/// The contents of a plan.
pub struct PlanView {
    pub key: Seq<char>,
    pub name: NameView,
    pub config: Option<usize>,
    pub members: Seq<GroupMemberPlan>,
    pub primary: int,
    pub size: MemberSize,
    pub refresh_sync: RefreshSync,
    pub pacing_refresh: RefreshMode,
    pub composited_only: bool,
    pub configured_scale: Option<u64>,
}

impl View for OutputGroupPlan {
    type V = PlanView;

    open spec fn view(&self) -> PlanView {
        PlanView {
            key: self.key@,
            name: self.name@,
            config: self.config,
            members: self.members@,
            primary: self.primary as int,
            size: self.size,
            refresh_sync: self.refresh_sync,
            pacing_refresh: self.pacing_refresh,
            composited_only: self.composited_only,
            configured_scale: self.configured_scale,
        }
    }
}

/// A declaration that could not be planned.
#[derive(Debug, Clone, PartialEq, Eq)]
pub struct GroupPlanRejection {
    pub output: String,
    pub reason: String,
}

/// The outcome of planning every declared display group.
#[derive(Debug)]
pub struct GroupPlanningResult {
    pub plans: Vec<OutputGroupPlan>,
    pub claims: HashMap<u128, GroupMemberClaim>,
    pub rejections: Vec<GroupPlanRejection>,
}

// ---------------------------------------------------------------------------------------------
// Scale
// ---------------------------------------------------------------------------------------------

/// Whether the bit pattern is that of a floating-point number that is not a number.
pub open spec fn scale_is_nan(bits: u64) -> bool {
    let magnitude = bits as int % 0x8000_0000_0000_0000;
    magnitude > 0x7ff0_0000_0000_0000
}

/// Whether the bit pattern is that of positive or negative zero.
pub open spec fn scale_is_zero(bits: u64) -> bool {
    bits as int % 0x8000_0000_0000_0000 == 0
}

/// Whether two bit patterns are those of equal floating-point numbers.
pub open spec fn same_scale(a: u64, b: u64) -> bool {
    &&& !scale_is_nan(a)
    &&& !scale_is_nan(b)
    &&& a == b || (scale_is_zero(a) && scale_is_zero(b))
}

/// Whether a group still has the logical scale that it was built with. Scales are the bit patterns
/// of 64-bit floating-point numbers and compare as the numbers do.
pub fn configured_scale_matches(previous: Option<u64>, planned: Option<u64>) -> (matches: bool)
    ensures
        matches == match (previous, planned) {
            (None, None) => true,
            (Some(a), Some(b)) => same_scale(a, b),
            _ => false,
        },
{
    match previous {
        None => planned.is_none(),
        Some(a) => match planned {
            None => false,
            Some(b) => {
                let a_low: u64 = a % 0x8000_0000_0000_0000;
                let b_low: u64 = b % 0x8000_0000_0000_0000;
                a_low <= 0x7ff0_0000_0000_0000 && b_low <= 0x7ff0_0000_0000_0000 && (a == b || (
                a_low == 0 && b_low == 0))
            },
        },
    }
}

// ---------------------------------------------------------------------------------------------
// One group
// ---------------------------------------------------------------------------------------------

pub open spec fn missing_reason(member: Seq<char>) -> Seq<char> {
    "member `"@ + member + "` is not connected or is already in use"@
}

pub open spec fn ambiguous_reason(member: Seq<char>) -> Seq<char> {
    "member selector `"@ + member
        + "` matches more than one connected output; use connector names to disambiguate identical displays"@
}

pub open spec fn no_mode_reason() -> Seq<char> {
    "a member has no usable non-interlaced mode"@
}

pub open spec fn no_refresh_reason() -> Seq<char> {
    "members do not advertise a compatible refresh rate"@
}

pub open spec fn negative_reason() -> Seq<char> {
    "member positions cannot be negative"@
}

/// The outputs that serve the first `k` members, or why one of them has none.
pub open spec fn member_outputs(
    group: DisplayGroup,
    connected: Seq<ConnectedOutput>,
    blocked: Set<u128>,
    k: int,
) -> Result<Seq<usize>, Seq<char>>
    decreases k,
{
    if k <= 0 {
        Ok(Seq::empty())
    } else {
        match member_outputs(group, connected, blocked, k - 1) {
            Err(reason) => Err(reason),
            Ok(before) => match selection::output_for(
                group.members@[k - 1],
                connected,
                blocked,
                before,
            ) {
                Ok(i) => Ok(before.push(i)),
                Err(CandidateChoiceError::Missing) => Err(
                    missing_reason(group.members@[k - 1].output@),
                ),
                Err(CandidateChoiceError::Ambiguous) => Err(
                    ambiguous_reason(group.members@[k - 1].output@),
                ),
            },
        }
    }
}

/// The modes that each member may use.
pub open spec fn mode_sets(
    group: DisplayGroup,
    connected: Seq<ConnectedOutput>,
    outputs: Seq<usize>,
) -> Seq<Seq<DrmMode>> {
    Seq::new(
        outputs.len(),
        |i: int|
            modes::member_modes(
                connected[outputs[i] as int].connector.modes@,
                group.members@[i].mode,
            ),
    )
}

/// A mode as refresh selection sees it.
pub open spec fn rate_of(mode: DrmMode) -> RefreshMode {
    RefreshMode { millihz: modes::refresh_of(mode), preferred: mode.preferred() }
}

/// The rates that each member may run at.
pub open spec fn rate_sets(sets: Seq<Seq<DrmMode>>) -> Seq<Seq<RefreshMode>> {
    Seq::new(sets.len(), |i: int| rates(sets[i]))
}

/// The rates of a list of modes.
pub open spec fn rates(list: Seq<DrmMode>) -> Seq<RefreshMode> {
    Seq::new(list.len(), |k: int| rate_of(list[k]))
}

/// The first of the modes whose rate is closest to `millihz`.
pub open spec fn closest_mode(list: Seq<DrmMode>, millihz: u32) -> DrmMode
    decreases list.len(),
{
    if list.len() <= 1 {
        list[0]
    } else {
        let best = closest_mode(list.drop_last(), millihz);
        if refresh::rate_gap(modes::refresh_of(list.last()), millihz) < refresh::rate_gap(
            modes::refresh_of(best),
            millihz,
        ) {
            list.last()
        } else {
            best
        }
    }
}

/// The mode that each member is driven with.
pub open spec fn driven_modes(sets: Seq<Seq<DrmMode>>, chosen: Seq<RefreshMode>) -> Seq<DrmMode> {
    Seq::new(sets.len(), |i: int| closest_mode(sets[i], chosen[i].millihz))
}

/// Whether some member is positioned left of or above the origin.
pub open spec fn negative_position(group: DisplayGroup) -> bool {
    exists|i: int|
        0 <= i < group.members@.len() && ((#[trigger] group.members@[i]).position matches Some(p)
            && (p.0 < 0 || p.1 < 0))
}

/// The geometry of one member.
pub open spec fn geometry(member: GroupMember, mode: DrmMode) -> MemberGeometry {
    let size = selection::turned(mode.spec_size(), member.transform);
    MemberGeometry {
        size: MemberSize { width: size.0 as u32, height: size.1 as u32 },
        position: match member.position {
            Some(p) => Some((p.0 as u32, p.1 as u32)),
            None => None,
        },
    }
}

/// The geometry of every member.
pub open spec fn geometries(group: DisplayGroup, driven: Seq<DrmMode>) -> Seq<MemberGeometry> {
    Seq::new(driven.len(), |i: int| geometry(group.members@[i], driven[i]))
}

/// The first member among the first `n` that the primary selector names.
pub open spec fn primary_among(group: DisplayGroup, primary: Seq<char>, n: int) -> Option<int>
    decreases n,
{
    if n <= 0 {
        None
    } else {
        match primary_among(group, primary, n - 1) {
            Some(i) => Some(i),
            None => if text::same_ignoring_case(group.members@[n - 1].output@, primary) {
                Some(n - 1)
            } else {
                None
            },
        }
    }
}

/// The member that supplies the group's identity: the one named primary, else the first.
pub open spec fn primary_of(group: DisplayGroup) -> int {
    match group.primary {
        Some(primary) => match primary_among(group, primary@, group.members@.len() as int) {
            Some(i) => i,
            None => 0,
        },
        None => 0,
    }
}

/// The first of the slowest modes.
pub open spec fn slowest_mode(chosen: Seq<RefreshMode>) -> RefreshMode
    decreases chosen.len(),
{
    if chosen.len() <= 1 {
        chosen[0]
    } else {
        let best = slowest_mode(chosen.drop_last());
        if chosen.last().millihz < best.millihz {
            chosen.last()
        } else {
            best
        }
    }
}

/// The selectors of the members.
pub open spec fn selectors(group: DisplayGroup) -> Seq<Seq<char>> {
    Seq::new(group.members@.len(), |i: int| group.members@[i].output@)
}

/// Where member `i` ends up.
pub open spec fn rect_of(geos: Seq<MemberGeometry>, i: int) -> MemberRect {
    MemberRect {
        x: layout::left_of(geos, i) as u32,
        y: layout::top_of(geos, i) as u32,
        width: geos[i].size.width,
        height: geos[i].size.height,
    }
}

/// The planned members.
pub open spec fn planned_members(
    group: DisplayGroup,
    connected: Seq<ConnectedOutput>,
    outputs: Seq<usize>,
    driven: Seq<DrmMode>,
) -> Seq<GroupMemberPlan> {
    Seq::new(
        outputs.len(),
        |i: int|
            GroupMemberPlan {
                node: connected[outputs[i] as int].node,
                connector: connected[outputs[i] as int].connector.handle,
                crtc: connected[outputs[i] as int].crtc,
                mode: driven[i],
                transform: group.members@[i].transform,
                rect: rect_of(geometries(group, driven), i),
            },
    )
}

/// The plan for a group whose members, modes and geometry are settled.
pub open spec fn assembled(
    output_name: Seq<char>,
    group: DisplayGroup,
    connected: Seq<ConnectedOutput>,
    outputs: Seq<usize>,
    chosen: Seq<RefreshMode>,
    driven: Seq<DrmMode>,
) -> PlanView {
    let geos = geometries(group, driven);
    let identity = connected[outputs[primary_of(group)] as int].identity@;
    PlanView {
        key: names::group_key(selectors(group)),
        name: NameView { connector: output_name, ..identity },
        config: None,
        members: planned_members(group, connected, outputs, driven),
        primary: primary_of(group),
        size: MemberSize {
            width: layout::group_width(geos) as u32,
            height: layout::group_height(geos) as u32,
        },
        refresh_sync: group.refresh_sync,
        pacing_refresh: slowest_mode(chosen),
        composited_only: group.render_policy is Composited,
        configured_scale: None,
    }
}

/// The plan for one declared group, or why there is none.
pub open spec fn group_plan(
    output_name: Seq<char>,
    group: DisplayGroup,
    connected: Seq<ConnectedOutput>,
    blocked: Set<u128>,
) -> Result<PlanView, Seq<char>> {
    match member_outputs(group, connected, blocked, group.members@.len() as int) {
        Err(reason) => Err(reason),
        Ok(outputs) => {
            let sets = mode_sets(group, connected, outputs);
            if exists|i: int| 0 <= i < sets.len() && (#[trigger] sets[i]).len() == 0 {
                Err(no_mode_reason())
            } else {
                match refresh::common_refresh(rate_sets(sets), group.refresh_sync) {
                    None => Err(no_refresh_reason()),
                    Some(chosen) => {
                        let driven = driven_modes(sets, chosen);
                        if negative_position(group) {
                            Err(negative_reason())
                        } else {
                            match layout::layout_error(geometries(group, driven)) {
                                Some(e) => Err(e.message()),
                                None => Ok(
                                    assembled(
                                        output_name,
                                        group,
                                        connected,
                                        outputs,
                                        chosen,
                                        driven,
                                    ),
                                ),
                            }
                        }
                    },
                }
            }
        },
    }
}

/// Whether every mode that is compared with a configured refresh rate scans at least one pixel.
pub open spec fn compared_modes_are_timed(
    group: DisplayGroup,
    connected: Seq<ConnectedOutput>,
    outputs: Seq<usize>,
) -> bool {
    forall|i: int, k: int|
        0 <= i < outputs.len() && 0 <= k < connected[outputs[i] as int].connector.modes@.len()
            && modes::rate_decides(
            #[trigger] connected[outputs[i] as int].connector.modes@[k],
            group.members@[i].mode,
        ) ==> connected[outputs[i] as int].connector.modes@[k].wf()
}

/// Whether every mode whose refresh rate is worked out for the group scans at least one pixel: the
/// modes that are compared with a configured rate and, where every member has a usable mode, the
/// usable modes.
pub open spec fn timed(
    group: DisplayGroup,
    connected: Seq<ConnectedOutput>,
    outputs: Seq<usize>,
) -> bool {
    let sets = mode_sets(group, connected, outputs);
    &&& compared_modes_are_timed(group, connected, outputs)
    &&& (forall|i: int| 0 <= i < sets.len() ==> (#[trigger] sets[i]).len() > 0) ==> sets_timed(sets)
}

/// Whether every mode of the lists scans at least one pixel.
pub open spec fn sets_timed(sets: Seq<Seq<DrmMode>>) -> bool {
    forall|i: int, k: int|
        0 <= i < sets.len() && 0 <= k < sets[i].len() ==> (#[trigger] sets[i][k]).wf()
}

/// Whether some member of the group has no output, or every mode whose refresh rate is worked out
/// for the group scans at least one pixel.
pub open spec fn group_timed(
    group: DisplayGroup,
    connected: Seq<ConnectedOutput>,
    blocked: Set<u128>,
) -> bool {
    member_outputs(group, connected, blocked, group.members@.len() as int) matches Ok(outputs)
        ==> timed(group, connected, outputs)
}

fn missing_message(member: &str) -> (reason: String)
    ensures
        reason@ == missing_reason(member@),
{
    let mut reason = "member `".to_owned();
    reason.append(member);
    reason.append("` is not connected or is already in use");
    reason
}

fn ambiguous_message(member: &str) -> (reason: String)
    ensures
        reason@ == ambiguous_reason(member@),
{
    let mut reason = "member selector `".to_owned();
    reason.append(member);
    reason.append(
        "` matches more than one connected output; use connector names to disambiguate identical displays",
    );
    reason
}

proof fn lemma_member_outputs(
    group: DisplayGroup,
    connected: Seq<ConnectedOutput>,
    blocked: Set<u128>,
    k: int,
)
    requires
        0 <= k <= group.members@.len(),
        connected.len() <= usize::MAX,
    ensures
        match member_outputs(group, connected, blocked, k) {
            Ok(outputs) => {
                &&& outputs.len() == k
                &&& forall|i: int|
                    0 <= i < k ==> (#[trigger] outputs[i]) < connected.len() && !blocked.contains(
                        selection::key_of(connected[outputs[i] as int]),
                    ) && group.members@[i].matches@[outputs[i] as int]
                &&& forall|i: int, j: int|
                    0 <= i < j < k ==> #[trigger] outputs[i] != #[trigger] outputs[j]
            },
            Err(_) => true,
        },
    decreases k,
{
    if k > 0 {
        lemma_member_outputs(group, connected, blocked, k - 1);
        if let Ok(before) = member_outputs(group, connected, blocked, k - 1) {
            selection::lemma_output_for_is_open(
                group.members@[k - 1],
                connected,
                blocked,
                before,
            );
            if let Ok(outputs) = member_outputs(group, connected, blocked, k) {
                let last = outputs[k - 1];
                assert(outputs == before.push(last));
                assert(!before.contains(last));
                assert forall|i: int, j: int| 0 <= i < j < k implies #[trigger] outputs[i]
                    != #[trigger] outputs[j] by {
                    assert(before[i] == outputs[i]);
                    if j == k - 1 {
                        assert(before.contains(outputs[i]));
                    } else {
                        assert(before[j] == outputs[j]);
                    }
                }
                assert forall|i: int| 0 <= i < k implies (#[trigger] outputs[i]) < connected.len()
                    && !blocked.contains(selection::key_of(connected[outputs[i] as int]))
                    && group.members@[i].matches@[outputs[i] as int] by {
                    if i < k - 1 {
                        assert(before[i] == outputs[i]);
                    }
                }
            }
        }
    }
}

proof fn lemma_member_outputs_fail(
    group: DisplayGroup,
    connected: Seq<ConnectedOutput>,
    blocked: Set<u128>,
    k: int,
    n: int,
)
    requires
        0 <= k <= n,
        member_outputs(group, connected, blocked, k) is Err,
    ensures
        member_outputs(group, connected, blocked, n) == member_outputs(group, connected, blocked, k),
    decreases n - k,
{
    if k < n {
        lemma_member_outputs_fail(group, connected, blocked, k, n - 1);
    }
}

/// Assigns a connected output to every member.
fn assign_outputs(
    group: &DisplayGroup,
    connected: &[ConnectedOutput],
    occupied: &HashSet<u128>,
    already_claimed: &HashMap<u128, GroupMemberClaim>,
) -> (assigned: Result<Vec<usize>, String>)
    requires
        selection::group_matches(*group, connected@),
    ensures
        match assigned {
            Ok(outputs) => member_outputs(
                *group,
                connected@,
                selection::blocked_keys(occupied@, already_claimed@, true),
                group.members@.len() as int,
            ) == Ok::<Seq<usize>, Seq<char>>(outputs@),
            Err(reason) => member_outputs(
                *group,
                connected@,
                selection::blocked_keys(occupied@, already_claimed@, true),
                group.members@.len() as int,
            ) == Err::<Seq<usize>, Seq<char>>(reason@),
        },
{
    let ghost blocked = selection::blocked_keys(occupied@, already_claimed@, true);
    let mut taken: Vec<usize> = Vec::new();
    for k in 0..group.members.len()
        invariant
            selection::group_matches(*group, connected@),
            blocked == selection::blocked_keys(occupied@, already_claimed@, true),
            member_outputs(*group, connected@, blocked, k as int) == Ok::<Seq<usize>, Seq<char>>(
                taken@,
            ),
    {
        match find_output(
            &group.members[k],
            connected,
            occupied,
            already_claimed,
            true,
            &taken,
        ) {
            Ok(idx) => {
                taken.push(idx);
            },
            Err(e) => {
                let reason = match e {
                    CandidateChoiceError::Missing => missing_message(
                        group.members[k].output.as_str(),
                    ),
                    CandidateChoiceError::Ambiguous => ambiguous_message(
                        group.members[k].output.as_str(),
                    ),
                };
                proof {
                    assert(member_outputs(*group, connected@, blocked, k + 1) == Err::<
                        Seq<usize>,
                        Seq<char>,
                    >(reason@));
                    lemma_member_outputs_fail(
                        *group,
                        connected@,
                        blocked,
                        k + 1,
                        group.members@.len() as int,
                    );
                }
                return Err(reason);
            },
        }
    }
    Ok(taken)
}

/// The modes that each member may use; `None` where a member has none.
fn collect_modes(group: &DisplayGroup, connected: &[ConnectedOutput], outputs: &Vec<usize>) -> (sets:
    Option<Vec<Vec<DrmMode>>>)
    requires
        compared_modes_are_timed(*group, connected@, outputs@),
        outputs@.len() == group.members@.len(),
        forall|i: int| 0 <= i < outputs@.len() ==> (#[trigger] outputs@[i]) < connected@.len(),
    ensures
        ({
            let all = mode_sets(*group, connected@, outputs@);
            match sets {
                Some(s) => {
                    &&& s@.len() == all.len()
                    &&& forall|i: int| 0 <= i < s@.len() ==> (#[trigger] s@[i])@ == all[i]
                    &&& forall|i: int| 0 <= i < all.len() ==> (#[trigger] all[i]).len() > 0
                },
                None => exists|i: int| 0 <= i < all.len() && (#[trigger] all[i]).len() == 0,
            }
        }),
{
    let ghost all = mode_sets(*group, connected@, outputs@);
    let mut sets: Vec<Vec<DrmMode>> = Vec::new();
    let mut empty = false;
    for i in 0..outputs.len()
        invariant
            compared_modes_are_timed(*group, connected@, outputs@),
            all == mode_sets(*group, connected@, outputs@),
            outputs@.len() == group.members@.len(),
            forall|k: int| 0 <= k < outputs@.len() ==> (#[trigger] outputs@[k]) < connected@.len(),
            sets@.len() == i,
            forall|k: int| 0 <= k < i ==> (#[trigger] sets@[k])@ == all[k],
            empty == (exists|k: int| 0 <= k < i && (#[trigger] all[k]).len() == 0),
    {
        let output = &connected[outputs[i]];
        proof {
            assert forall|k: int|
                0 <= k < output.connector.modes@.len() && modes::rate_decides(
                    #[trigger] output.connector.modes@[k],
                    group.members@[i as int].mode,
                ) implies output.connector.modes@[k].wf() by {
                assert(connected@[outputs@[i as int] as int].connector.modes@[k]
                    == output.connector.modes@[k]);
            }
        }
        let set = candidate_modes(output.connector.modes.as_slice(), group.members[i].mode);
        assert(set@ == all[i as int]);
        if set.len() == 0 {
            assert(all[i as int].len() == 0);
            empty = true;
        }
        sets.push(set);
    }
    if empty {
        None
    } else {
        Some(sets)
    }
}

/// Whether every mode whose refresh rate is worked out for the group scans at least one pixel.
fn modes_are_timed(group: &DisplayGroup, connected: &[ConnectedOutput], outputs: &Vec<usize>) -> (yes:
    bool)
    requires
        outputs@.len() == group.members@.len(),
        forall|i: int| 0 <= i < outputs@.len() ==> (#[trigger] outputs@[i]) < connected@.len(),
    ensures
        yes == timed(*group, connected@, outputs@),
{
    for i in 0..outputs.len()
        invariant
            outputs@.len() == group.members@.len(),
            forall|k: int| 0 <= k < outputs@.len() ==> (#[trigger] outputs@[k]) < connected@.len(),
            forall|a: int, k: int|
                0 <= a < i && 0 <= k < connected@[outputs@[a] as int].connector.modes@.len()
                    && modes::rate_decides(
                    #[trigger] connected@[outputs@[a] as int].connector.modes@[k],
                    group.members@[a].mode,
                ) ==> connected@[outputs@[a] as int].connector.modes@[k].wf(),
    {
        let output = &connected[outputs[i]];
        let configured = group.members[i].mode;
        for k in 0..output.connector.modes.len()
            invariant
                i < outputs@.len(),
                *output == connected@[outputs@[i as int] as int],
                configured == group.members@[i as int].mode,
                forall|b: int|
                    0 <= b < k && modes::rate_decides(
                        #[trigger] output.connector.modes@[b],
                        configured,
                    ) ==> output.connector.modes@[b].wf(),
        {
            let mode = output.connector.modes[k];
            if needs_rate(&mode, configured) && (mode.htotal == 0 || mode.vtotal == 0) {
                assert(!connected@[outputs@[i as int] as int].connector.modes@[k as int].wf());
                return false;
            }
        }
    }
    let ghost all = mode_sets(*group, connected@, outputs@);
    match collect_modes(group, connected, outputs) {
        None => true,
        Some(sets) => {
            for i in 0..sets.len()
                invariant
                    sets@.len() == all.len(),
                    all == mode_sets(*group, connected@, outputs@),
                    forall|a: int| 0 <= a < sets@.len() ==> (#[trigger] sets@[a])@ == all[a],
                    forall|a: int| 0 <= a < all.len() ==> (#[trigger] all[a]).len() > 0,
                    forall|a: int, k: int|
                        0 <= a < i && 0 <= k < all[a].len() ==> (#[trigger] all[a][k]).wf(),
            {
                let set = &sets[i];
                for k in 0..set.len()
                    invariant
                        i < sets@.len(),
                        *set == sets@[i as int],
                        set@ == all[i as int],
                        sets@.len() == all.len(),
                        all == mode_sets(*group, connected@, outputs@),
                        forall|a: int| 0 <= a < all.len() ==> (#[trigger] all[a]).len() > 0,
                        forall|b: int| 0 <= b < k ==> (#[trigger] set@[b]).wf(),
                {
                    if set[k].htotal == 0 || set[k].vtotal == 0 {
                        assert(!all[i as int][k as int].wf());
                        return false;
                    }
                }
            }
            true
        },
    }
}

/// The rates of each member's modes.
fn collect_rates(sets: &Vec<Vec<DrmMode>>) -> (rate_lists: Vec<Vec<RefreshMode>>)
    requires
        forall|i: int, k: int|
            0 <= i < sets@.len() && 0 <= k < sets@[i]@.len() ==> (#[trigger] sets@[i]@[k]).wf(),
    ensures
        rate_lists@.len() == sets@.len(),
        forall|i: int| 0 <= i < sets@.len() ==> (#[trigger] rate_lists@[i])@ == rates(sets@[i]@),
{
    let mut lists: Vec<Vec<RefreshMode>> = Vec::new();
    for i in 0..sets.len()
        invariant
            forall|a: int, k: int|
                0 <= a < sets@.len() && 0 <= k < sets@[a]@.len() ==> (#[trigger] sets@[a]@[k]).wf(),
            lists@.len() == i,
            forall|a: int| 0 <= a < i ==> (#[trigger] lists@[a])@ == rates(sets@[a]@),
    {
        let set = &sets[i];
        let mut list: Vec<RefreshMode> = Vec::new();
        for k in 0..set.len()
            invariant
                i < sets@.len(),
                *set == sets@[i as int],
                forall|a: int, b: int|
                    0 <= a < sets@.len() && 0 <= b < sets@[a]@.len() ==> (
                    #[trigger] sets@[a]@[b]).wf(),
                list@.len() == k,
                forall|b: int| 0 <= b < k ==> #[trigger] list@[b] == rate_of(set@[b]),
        {
            assert(sets@[i as int]@[k as int].wf());
            let mode = set[k];
            list.push(
                RefreshMode { millihz: mode_refresh(&mode), preferred: mode.is_preferred() },
            );
        }
        assert(list@ =~= rates(set@));
        lists.push(list);
    }
    lists
}

/// The mode that each member is driven with.
fn pick_modes(sets: &Vec<Vec<DrmMode>>, chosen: &Vec<RefreshMode>) -> (driven: Vec<DrmMode>)
    requires
        chosen@.len() == sets@.len(),
        forall|i: int| 0 <= i < sets@.len() ==> (#[trigger] sets@[i])@.len() > 0,
        forall|i: int, k: int|
            0 <= i < sets@.len() && 0 <= k < sets@[i]@.len() ==> (#[trigger] sets@[i]@[k]).wf(),
    ensures
        driven@.len() == sets@.len(),
        forall|i: int|
            0 <= i < sets@.len() ==> #[trigger] driven@[i] == closest_mode(
                sets@[i]@,
                chosen@[i].millihz,
            ),
{
    let mut driven: Vec<DrmMode> = Vec::new();
    for i in 0..sets.len()
        invariant
            chosen@.len() == sets@.len(),
            forall|a: int| 0 <= a < sets@.len() ==> (#[trigger] sets@[a])@.len() > 0,
            forall|a: int, k: int|
                0 <= a < sets@.len() && 0 <= k < sets@[a]@.len() ==> (#[trigger] sets@[a]@[k]).wf(),
            driven@.len() == i,
            forall|a: int|
                0 <= a < i ==> #[trigger] driven@[a] == closest_mode(
                    sets@[a]@,
                    chosen@[a].millihz,
                ),
    {
        let set = &sets[i];
        let wanted: u32 = chosen[i].millihz;
        assert(sets@[i as int]@.len() > 0);
        assert(sets@[i as int]@[0].wf());
        let mut best = set[0];
        let mut best_rate: u32 = mode_refresh(&best);
        assert(set@.take(1)[0] == best);
        for k in 1..set.len()
            invariant
                i < sets@.len(),
                *set == sets@[i as int],
                set@.len() > 0,
                forall|a: int, b: int|
                    0 <= a < sets@.len() && 0 <= b < sets@[a]@.len() ==> (
                    #[trigger] sets@[a]@[b]).wf(),
                best == closest_mode(set@.take(k as int), wanted),
                best_rate == modes::refresh_of(best),
        {
            assert(sets@[i as int]@[k as int].wf());
            let mode = set[k];
            let rate: u32 = mode_refresh(&mode);
            assert(set@.take(k + 1).drop_last() =~= set@.take(k as int));
            assert(set@.take(k + 1).last() == mode);
            let gap: u32 = if rate >= wanted {
                rate - wanted
            } else {
                wanted - rate
            };
            let best_gap: u32 = if best_rate >= wanted {
                best_rate - wanted
            } else {
                wanted - best_rate
            };
            if gap < best_gap {
                best = mode;
                best_rate = rate;
            }
        }
        assert(set@.take(set@.len() as int) =~= set@);
        driven.push(best);
    }
    driven
}

/// The geometry of every member; `None` where a position is negative.
fn collect_geometries(group: &DisplayGroup, driven: &Vec<DrmMode>) -> (geos: Option<
    Vec<MemberGeometry>,
>)
    requires
        driven@.len() == group.members@.len(),
    ensures
        match geos {
            Some(g) => !negative_position(*group) && g@ == geometries(*group, driven@),
            None => negative_position(*group),
        },
{
    let mut geos: Vec<MemberGeometry> = Vec::new();
    for i in 0..driven.len()
        invariant
            driven@.len() == group.members@.len(),
            geos@.len() == i,
            forall|k: int|
                0 <= k < i ==> #[trigger] geos@[k] == geometry(group.members@[k], driven@[k]),
            forall|k: int|
                0 <= k < i ==> !((#[trigger] group.members@[k]).position matches Some(p) && (p.0 < 0
                    || p.1 < 0)),
    {
        let member = &group.members[i];
        let mode = driven[i];
        let size = transformed_size(mode.size(), member.transform);
        let position = match member.position {
            Some(p) => {
                if p.0 < 0 || p.1 < 0 {
                    assert(group.members@[i as int].position == Some(p));
                    return None;
                }
                Some((p.0 as u32, p.1 as u32))
            },
            None => None,
        };
        geos.push(
            MemberGeometry {
                size: MemberSize { width: size.0 as u32, height: size.1 as u32 },
                position,
            },
        );
    }
    assert(geos@ =~= geometries(*group, driven@));
    Some(geos)
}

/// The member that supplies the group's identity.
fn primary_member(group: &DisplayGroup) -> (primary: usize)
    requires
        group.members@.len() > 0,
    ensures
        primary == primary_of(*group),
        primary < group.members@.len(),
{
    match &group.primary {
        None => 0,
        Some(primary) => {
            for i in 0..group.members.len()
                invariant
                    group.primary == Some(*primary),
                    primary_among(*group, primary@, i as int) is None,
            {
                if group.members[i].output.eq_ignore_ascii_case(primary.as_str()) {
                    proof {
                        assert(primary_among(*group, primary@, i + 1) == Some(i as int));
                        lemma_primary_stays(*group, primary@, i + 1, group.members@.len() as int);
                    }
                    return i;
                }
            }
            0
        },
    }
}

proof fn lemma_primary_stays(group: DisplayGroup, primary: Seq<char>, k: int, n: int)
    requires
        0 <= k <= n,
        primary_among(group, primary, k) is Some,
    ensures
        primary_among(group, primary, n) == primary_among(group, primary, k),
    decreases n - k,
{
    if k < n {
        lemma_primary_stays(group, primary, k, n - 1);
    }
}

/// The first of the slowest modes.
fn slowest_of(chosen: &Vec<RefreshMode>) -> (mode: RefreshMode)
    requires
        chosen@.len() > 0,
    ensures
        mode == slowest_mode(chosen@),
{
    let mut best = chosen[0];
    assert(chosen@.take(1)[0] == best);
    for i in 1..chosen.len()
        invariant
            chosen@.len() > 0,
            best == slowest_mode(chosen@.take(i as int)),
    {
        assert(chosen@.take(i + 1).drop_last() =~= chosen@.take(i as int));
        assert(chosen@.take(i + 1).last() == chosen@[i as int]);
        if chosen[i].millihz < best.millihz {
            best = chosen[i];
        }
    }
    assert(chosen@.take(chosen@.len() as int) =~= chosen@);
    best
}

/// The selectors of the members.
fn member_selectors(group: &DisplayGroup) -> (list: Vec<String>)
    ensures
        text::texts(list@) == selectors(*group),
{
    let mut list: Vec<String> = Vec::new();
    for i in 0..group.members.len()
        invariant
            list@.len() == i,
            forall|k: int| 0 <= k < i ==> (#[trigger] list@[k])@ == group.members@[k].output@,
    {
        list.push(group.members[i].output.clone());
    }
    assert(text::texts(list@) =~= selectors(*group));
    list
}

/// Plans one declared display group.
pub fn plan_display_group(
    output_name: &str,
    group: &DisplayGroup,
    connected: &[ConnectedOutput],
    occupied: &HashSet<u128>,
    already_claimed: &HashMap<u128, GroupMemberClaim>,
) -> (plan: Result<OutputGroupPlan, String>)
    requires
        selection::group_matches(*group, connected@),
        group_timed(
            *group,
            connected@,
            selection::blocked_keys(occupied@, already_claimed@, true),
        ),
    ensures
        match plan {
            Ok(p) => group_plan(
                output_name@,
                *group,
                connected@,
                selection::blocked_keys(occupied@, already_claimed@, true),
            ) == Ok::<PlanView, Seq<char>>(p@),
            Err(reason) => group_plan(
                output_name@,
                *group,
                connected@,
                selection::blocked_keys(occupied@, already_claimed@, true),
            ) == Err::<PlanView, Seq<char>>(reason@),
        },
{
    let ghost blocked = selection::blocked_keys(occupied@, already_claimed@, true);
    let outputs = match assign_outputs(group, connected, occupied, already_claimed) {
        Ok(outputs) => outputs,
        Err(reason) => {
            return Err(reason);
        },
    };
    proof {
        assert(connected.len() == connected@.len());
        lemma_member_outputs(*group, connected@, blocked, group.members@.len() as int);
    }
    let ghost all = mode_sets(*group, connected@, outputs@);
    let sets = match collect_modes(group, connected, &outputs) {
        Some(sets) => sets,
        None => {
            return Err("a member has no usable non-interlaced mode".to_owned());
        },
    };
    proof {
        assert(sets_timed(all));
        assert forall|i: int, k: int| 0 <= i < sets@.len() && 0 <= k < sets@[i]@.len() implies (
        #[trigger] sets@[i]@[k]).wf() by {
            assert(sets@[i]@ == all[i]);
            assert(all[i][k].wf());
        }
    }
    let rate_lists = collect_rates(&sets);
    proof {
        assert(refresh::mode_lists(rate_lists@) =~= rate_sets(all));
    }
    let chosen = match choose_common_refresh(rate_lists.as_slice(), group.refresh_sync) {
        Some(chosen) => chosen,
        None => {
            return Err("members do not advertise a compatible refresh rate".to_owned());
        },
    };
    proof {
        refresh::law_common_refresh_is_compatible(rate_sets(all), group.refresh_sync, chosen@);
        assert forall|i: int| 0 <= i < sets@.len() implies (#[trigger] sets@[i])@.len() > 0 by {
            assert(all[i].len() > 0);
        }
    }
    let driven = pick_modes(&sets, &chosen);
    assert(driven@ =~= driven_modes(all, chosen@));
    let geos = match collect_geometries(group, &driven) {
        Some(geos) => geos,
        None => {
            return Err("member positions cannot be negative".to_owned());
        },
    };
    let (size, rects) = match group_layout(geos.as_slice()) {
        Ok(placed) => placed,
        Err(e) => {
            return Err(e.to_string());
        },
    };
    let primary = primary_member(group);
    let identity = &connected[outputs[primary]].identity;
    let name = OutputName {
        connector: output_name.to_owned(),
        make: copy_optional(&identity.make),
        model: copy_optional(&identity.model),
        serial: copy_optional(&identity.serial),
    };
    let mut members: Vec<GroupMemberPlan> = Vec::new();
    for i in 0..outputs.len()
        invariant
            outputs@.len() == group.members@.len(),
            driven@.len() == outputs@.len(),
            rects@.len() == outputs@.len(),
            geos@ == geometries(*group, driven@),
            forall|k: int| 0 <= k < outputs@.len() ==> (#[trigger] outputs@[k]) < connected@.len(),
            forall|k: int|
                0 <= k < rects@.len() ==> layout::placed_at(geos@, k, #[trigger] rects@[k]),
            members@.len() == i,
            forall|k: int|
                0 <= k < i ==> #[trigger] members@[k] == planned_members(
                    *group,
                    connected@,
                    outputs@,
                    driven@,
                )[k],
    {
        let output = &connected[outputs[i]];
        assert(layout::placed_at(geos@, i as int, rects@[i as int]));
        assert(rects@[i as int] == rect_of(geos@, i as int));
        members.push(
            GroupMemberPlan {
                node: output.node,
                connector: output.connector.handle,
                crtc: output.crtc,
                mode: driven[i],
                transform: group.members[i].transform,
                rect: rects[i],
            },
        );
    }
    assert(members@ =~= planned_members(*group, connected@, outputs@, driven@));
    let selector_list = member_selectors(group);
    let key = stable_group_key(selector_list.as_slice());
    let pacing_refresh = slowest_of(&chosen);
    let composited_only = match group.render_policy {
        GroupRenderPolicy::Composited => true,
        GroupRenderPolicy::Auto => false,
    };
    let plan = OutputGroupPlan {
        key,
        name,
        config: None,
        members,
        primary,
        size,
        refresh_sync: group.refresh_sync,
        pacing_refresh,
        composited_only,
        configured_scale: None,
    };
    assert(plan@ == assembled(
        output_name@,
        *group,
        connected@,
        outputs@,
        chosen@,
        driven@,
    ));
    Ok(plan)
}

// ---------------------------------------------------------------------------------------------
// Every declared group
// ---------------------------------------------------------------------------------------------

/// A rejected declaration.
pub struct RejectionView {
    pub output: Seq<char>,
    pub reason: Seq<char>,
}

impl View for GroupPlanRejection {
    type V = RejectionView;

    open spec fn view(&self) -> RejectionView {
        RejectionView { output: self.output@, reason: self.reason@ }
    }
}

/// The contents of a planning result.
pub struct PlanningView {
    pub plans: Seq<PlanView>,
    pub claims: Map<u128, GroupMemberClaim>,
    pub rejections: Seq<RejectionView>,
}

impl View for GroupPlanningResult {
    type V = PlanningView;

    open spec fn view(&self) -> PlanningView {
        PlanningView {
            plans: Seq::new(self.plans@.len(), |i: int| self.plans@[i]@),
            claims: self.claims@,
            rejections: Seq::new(self.rejections@.len(), |i: int| self.rejections@[i]@),
        }
    }
}

/// The key of a planned member.
pub open spec fn planned_key(member: GroupMemberPlan) -> u128 {
    selection::spec_member_key(member.node, member.crtc)
}

/// The keys of the members of a plan.
pub open spec fn plan_keys(plan: PlanView) -> Seq<u128> {
    Seq::new(plan.members.len(), |i: int| planned_key(plan.members[i]))
}

/// The claims after one declaration. A complete enabled plan claims its members. Otherwise every
/// present member is claimed, unless an earlier group claims one of them, in which case none is.
pub open spec fn claims_after(
    output: OutputConfig,
    group: DisplayGroup,
    connected: Seq<ConnectedOutput>,
    occupied: Set<u128>,
    claims: Map<u128, GroupMemberClaim>,
    plan: Result<PlanView, Seq<char>>,
) -> Map<u128, GroupMemberClaim> {
    let policy = selection::claim_policy(output.off, plan is Ok);
    match plan {
        Ok(p) if !output.off => selection::with_claims(claims, plan_keys(p).to_set(), policy),
        _ => {
            let present = selection::present_keys(group, connected, occupied);
            if selection::any_claimed(present, claims) {
                claims
            } else {
                selection::with_claims(claims, present.to_set(), policy)
            }
        },
    }
}

/// The plan for a declaration after earlier ones, or why there is none.
pub open spec fn declared_plan(
    before: PlanningView,
    output: OutputConfig,
    group: DisplayGroup,
    connected: Seq<ConnectedOutput>,
    occupied: Set<u128>,
) -> Result<PlanView, Seq<char>> {
    group_plan(
        output.name@,
        group,
        connected,
        selection::blocked_keys(occupied, before.claims, true),
    )
}

/// The result after one more declaration, the one with index `k`.
pub open spec fn with_declaration(
    before: PlanningView,
    output: OutputConfig,
    k: int,
    connected: Seq<ConnectedOutput>,
    occupied: Set<u128>,
) -> PlanningView {
    match output.display_group {
        None => before,
        Some(group) => {
            let made = declared_plan(before, output, group, connected, occupied);
            let claims = claims_after(output, group, connected, occupied, before.claims, made);
            match made {
                Ok(plan) => PlanningView {
                    plans: if output.off {
                        before.plans
                    } else {
                        before.plans.push(
                            PlanView {
                                config: Some(k as usize),
                                configured_scale: output.scale,
                                ..plan
                            },
                        )
                    },
                    claims,
                    rejections: before.rejections,
                },
                Err(reason) => PlanningView {
                    plans: before.plans,
                    claims,
                    rejections: before.rejections.push(
                        RejectionView { output: output.name@, reason },
                    ),
                },
            }
        },
    }
}

/// The result after the first `k` declarations.
pub open spec fn planning_after(
    outputs: Seq<OutputConfig>,
    connected: Seq<ConnectedOutput>,
    occupied: Set<u128>,
    k: int,
) -> PlanningView
    decreases k,
{
    if k <= 0 {
        PlanningView { plans: Seq::empty(), claims: Map::empty(), rejections: Seq::empty() }
    } else {
        with_declaration(
            planning_after(outputs, connected, occupied, k - 1),
            outputs[k - 1],
            k - 1,
            connected,
            occupied,
        )
    }
}

/// Whether every declared group has its match entries.
pub open spec fn config_matches(
    outputs: Seq<OutputConfig>,
    connected: Seq<ConnectedOutput>,
) -> bool {
    forall|i: int|
        0 <= i < outputs.len() ==> ((#[trigger] outputs[i]).display_group matches Some(group)
            ==> selection::group_matches(group, connected))
}

/// Whether every mode whose refresh rate is worked out for one of the first `k` declarations scans
/// at least one pixel.
pub open spec fn planning_timed(
    outputs: Seq<OutputConfig>,
    connected: Seq<ConnectedOutput>,
    occupied: Set<u128>,
    k: int,
) -> bool {
    forall|j: int|
        0 <= j < k ==> ((#[trigger] outputs[j]).display_group matches Some(group) ==> group_timed(
            group,
            connected,
            selection::blocked_keys(
                occupied,
                planning_after(outputs, connected, occupied, j).claims,
                true,
            ),
        ))
}

/// Whether every member of every plan is claimed as planned.
pub open spec fn plans_own_their_members(result: PlanningView) -> bool {
    forall|i: int, m: int|
        0 <= i < result.plans.len() && 0 <= m < result.plans[i].members.len() ==> {
            &&& result.claims.contains_key(planned_key(#[trigger] result.plans[i].members[m]))
            &&& result.claims[planned_key(result.plans[i].members[m])] == GroupMemberClaim::Planned
        }
}

/// The keys of planned members.
fn member_keys(members: &Vec<GroupMemberPlan>) -> (keys: Vec<u128>)
    ensures
        keys@ == Seq::new(members@.len(), |i: int| planned_key(members@[i])),
{
    let mut keys: Vec<u128> = Vec::new();
    for i in 0..members.len()
        invariant
            keys@.len() == i,
            forall|k: int| 0 <= k < i ==> #[trigger] keys@[k] == planned_key(members@[k]),
    {
        keys.push(member_key(members[i].node, members[i].crtc));
    }
    assert(keys@ =~= Seq::new(members@.len(), |i: int| planned_key(members@[i])));
    keys
}

/// Whether every mode whose refresh rate is worked out for the group scans at least one pixel.
fn group_is_timed(
    group: &DisplayGroup,
    connected: &[ConnectedOutput],
    occupied: &HashSet<u128>,
    already_claimed: &HashMap<u128, GroupMemberClaim>,
) -> (yes: bool)
    requires
        selection::group_matches(*group, connected@),
    ensures
        yes == group_timed(
            *group,
            connected@,
            selection::blocked_keys(occupied@, already_claimed@, true),
        ),
{
    match assign_outputs(group, connected, occupied, already_claimed) {
        Ok(members) => {
            proof {
                assert(connected.len() == connected@.len());
                lemma_member_outputs(
                    *group,
                    connected@,
                    selection::blocked_keys(occupied@, already_claimed@, true),
                    group.members@.len() as int,
                );
            }
            modes_are_timed(group, connected, &members)
        },
        Err(_) => true,
    }
}

impl Default for GroupPlanningResult {
    /// The result before any declaration.
    fn default() -> (result: Self)
        ensures
            result@ == (PlanningView {
                plans: Seq::empty(),
                claims: Map::empty(),
                rejections: Seq::empty(),
            }),
    {
        let result = GroupPlanningResult {
            plans: Vec::new(),
            claims: HashMap::new(),
            rejections: Vec::new(),
        };
        proof {
            assert(result@.plans =~= Seq::empty());
            assert(result@.claims =~= Map::empty());
            assert(result@.rejections =~= Seq::empty());
        }
        result
    }
}

/// Adds one declaration, the one with index `k`, to a planning result.
fn plan_declaration(
    result: &mut GroupPlanningResult,
    output: &OutputConfig,
    k: usize,
    group: &DisplayGroup,
    connected: &[ConnectedOutput],
    occupied: &HashSet<u128>,
)
    requires
        output.display_group == Some(*group),
        selection::group_matches(*group, connected@),
        group_timed(
            *group,
            connected@,
            selection::blocked_keys(occupied@, old(result)@.claims, true),
        ),
    ensures
        final(result)@ == with_declaration(
            old(result)@,
            *output,
            k as int,
            connected@,
            occupied@,
        ),
{
    let ghost before = result@;
    let ghost made = declared_plan(before, *output, *group, connected@, occupied@);
    match plan_display_group(
        output.name.as_str(),
        group,
        connected,
        occupied,
        &result.claims,
    ) {
        Ok(plan) => {
            let policy = explicit_claim_policy(output.off, true);
            assert(made == Ok::<PlanView, Seq<char>>(plan@));
            if output.off {
                let (present, conflicts) = present_member_claims(
                    group,
                    connected,
                    occupied,
                    &result.claims,
                );
                commit_present_claims(&mut result.claims, present, conflicts, policy);
            } else {
                let keys = member_keys(&plan.members);
                assert(keys@ =~= plan_keys(plan@));
                commit_present_claims(&mut result.claims, keys, false, policy);
                let mut plan = plan;
                plan.config = Some(k);
                plan.configured_scale = output.scale;
                result.plans.push(plan);
            }
        },
        Err(reason) => {
            assert(made == Err::<PlanView, Seq<char>>(reason@));
            let (present, conflicts) = present_member_claims(
                group,
                connected,
                occupied,
                &result.claims,
            );
            commit_present_claims(
                &mut result.claims,
                present,
                conflicts,
                explicit_claim_policy(output.off, false),
            );
            result.rejections.push(GroupPlanRejection { output: output.name.clone(), reason });
        },
    }
    proof {
        let after = with_declaration(before, *output, k as int, connected@, occupied@);
        assert(result@.plans =~= after.plans);
        assert(result@.rejections =~= after.rejections);
        assert(result@.claims == after.claims);
    }
}

/// Plans every declared display group as [`plan_display_groups`] does, unless a mode whose refresh
/// rate is needed has no timings: such a mode has no refresh rate.
pub fn plan_timed_display_groups(
    outputs: &[OutputConfig],
    connected: &[ConnectedOutput],
    occupied: &HashSet<u128>,
) -> (planned: Option<GroupPlanningResult>)
    requires
        config_matches(outputs@, connected@),
    ensures
        planned is Some <==> planning_timed(
            outputs@,
            connected@,
            occupied@,
            outputs@.len() as int,
        ),
        planned matches Some(result) ==> result@ == planning_after(
            outputs@,
            connected@,
            occupied@,
            outputs@.len() as int,
        ),
{
    let mut result = GroupPlanningResult::default();
    assert(result@ == planning_after(outputs@, connected@, occupied@, 0));
    for k in 0..outputs.len()
        invariant
            config_matches(outputs@, connected@),
            planning_timed(outputs@, connected@, occupied@, k as int),
            result@ == planning_after(outputs@, connected@, occupied@, k as int),
    {
        let output = &outputs[k];
        assert(outputs@[k as int] == *output);
        if let Some(group) = &output.display_group {
            if !group_is_timed(group, connected, occupied, &result.claims) {
                return None;
            }
            plan_declaration(&mut result, output, k, group, connected, occupied);
        }
    }
    Some(result)
}

/// Plans every declared display group, in the order of the declarations.
///
/// A complete enabled plan owns its members. Any other explicit declaration remains authoritative
/// over automatic grouping and standalone fallback for every member that is present; if it
/// conflicts with an earlier group, it claims none of them.
pub fn plan_display_groups(
    outputs: &[OutputConfig],
    connected: &[ConnectedOutput],
    occupied: &HashSet<u128>,
) -> (result: GroupPlanningResult)
    requires
        config_matches(outputs@, connected@),
        planning_timed(outputs@, connected@, occupied@, outputs@.len() as int),
    ensures
        result@ == planning_after(outputs@, connected@, occupied@, outputs@.len() as int),
        plans_own_their_members(result@),
{
    let mut result = GroupPlanningResult::default();
    assert(result@ == planning_after(outputs@, connected@, occupied@, 0));
    for k in 0..outputs.len()
        invariant
            config_matches(outputs@, connected@),
            planning_timed(outputs@, connected@, occupied@, outputs@.len() as int),
            result@ == planning_after(outputs@, connected@, occupied@, k as int),
    {
        let output = &outputs[k];
        assert(outputs@[k as int] == *output);
        if let Some(group) = &output.display_group {
            plan_declaration(&mut result, output, k, group, connected, occupied);
        }
    }
    proof {
        assert(connected.len() == connected@.len());
        law_planned_members_are_claimed(outputs@, connected@, occupied@, outputs@.len() as int);
    }
    result
}

// ---------------------------------------------------------------------------------------------
// Laws
// ---------------------------------------------------------------------------------------------

/// A plan never takes an output that is occupied or that an earlier declaration claims.
pub proof fn law_plans_take_only_free_outputs(
    output_name: Seq<char>,
    group: DisplayGroup,
    connected: Seq<ConnectedOutput>,
    blocked: Set<u128>,
    i: int,
)
    requires
        connected.len() <= usize::MAX,
        0 <= i < group.members@.len(),
    ensures
        group_plan(output_name, group, connected, blocked) matches Ok(plan) ==> {
            &&& plan.members.len() == group.members@.len()
            &&& !blocked.contains(planned_key(plan.members[i]))
        },
{
    lemma_member_outputs(group, connected, blocked, group.members@.len() as int);
    if let Ok(outputs) = member_outputs(group, connected, blocked, group.members@.len() as int) {
        assert(!blocked.contains(selection::key_of(connected[outputs[i] as int])));
    }
}

/// No connected output serves two members of one plan.
pub proof fn law_plan_members_are_distinct(
    output_name: Seq<char>,
    group: DisplayGroup,
    connected: Seq<ConnectedOutput>,
    blocked: Set<u128>,
    i: int,
    j: int,
)
    requires
        connected.len() <= usize::MAX,
        forall|a: int, b: int|
            0 <= a < b < connected.len() ==> selection::key_of(#[trigger] connected[a])
                != selection::key_of(#[trigger] connected[b]),
        0 <= i < j < group.members@.len(),
    ensures
        group_plan(output_name, group, connected, blocked) matches Ok(plan) ==> planned_key(
            plan.members[i],
        ) != planned_key(plan.members[j]),
{
    lemma_member_outputs(group, connected, blocked, group.members@.len() as int);
    if let Ok(outputs) = member_outputs(group, connected, blocked, group.members@.len() as int) {
        let a = outputs[i] as int;
        let b = outputs[j] as int;
        assert(a != b);
        if a < b {
            assert(selection::key_of(connected[a]) != selection::key_of(connected[b]));
        } else {
            assert(selection::key_of(connected[b]) != selection::key_of(connected[a]));
        }
    }
}

/// The members of a plan cover its rectangle exactly, each in its own place, and one of them is
/// the primary.
pub proof fn law_plan_members_tile_the_group(
    output_name: Seq<char>,
    group: DisplayGroup,
    connected: Seq<ConnectedOutput>,
    blocked: Set<u128>,
    x: int,
    y: int,
)
    requires
        connected.len() <= usize::MAX,
    ensures
        group_plan(output_name, group, connected, blocked) matches Ok(plan) ==> {
            &&& 2 <= plan.members.len() <= layout::MAX_GROUP_MEMBERS
            &&& 0 <= plan.primary < plan.members.len()
            &&& (0 <= x < plan.size.width && 0 <= y < plan.size.height) <==> (exists|i: int|
                0 <= i < plan.members.len() && #[trigger] rect_holds(plan.members[i].rect, x, y))
            &&& forall|i: int, j: int|
                0 <= i < plan.members.len() && 0 <= j < plan.members.len() && #[trigger] rect_holds(
                    plan.members[i].rect,
                    x,
                    y,
                ) && #[trigger] rect_holds(plan.members[j].rect, x, y) ==> i == j
        },
{
    if let Ok(plan) = group_plan(output_name, group, connected, blocked) {
        let n = group.members@.len() as int;
        lemma_member_outputs(group, connected, blocked, n);
        let outputs = member_outputs(group, connected, blocked, n)->Ok_0;
        let sets = mode_sets(group, connected, outputs);
        let chosen = refresh::common_refresh(rate_sets(sets), group.refresh_sync)->0;
        let driven = driven_modes(sets, chosen);
        let geos = geometries(group, driven);
        assert(geos.len() == n);
        assert(layout::layout_error(geos) is None);
        lemma_primary_in_range(group, n);
        tiling::law_accepted_layout_is_exact_tiling(geos);
        layout::lemma_extents(geos, n);
        layout::lemma_extent_y_bounds(geos, n);
        assert forall|i: int| 0 <= i < n implies #[trigger] rect_holds(plan.members[i].rect, x, y)
            == layout::member_has(geos, i, x, y) by {
            layout::lemma_row_start_nonneg(geos, i);
            assert(layout::right_of(geos, i) <= layout::group_width(geos));
            assert(layout::bottom_of(geos, i) <= layout::group_height(geos));
        }
        if 0 <= x < plan.size.width && 0 <= y < plan.size.height {
            assert(tiling::covered_once(geos, x, y));
            let i = choose|i: int| 0 <= i < n && #[trigger] layout::member_has(geos, i, x, y);
            assert(rect_holds(plan.members[i].rect, x, y));
        }
        if exists|i: int| 0 <= i < n && #[trigger] rect_holds(plan.members[i].rect, x, y) {
            let i = choose|i: int| 0 <= i < n && #[trigger] rect_holds(plan.members[i].rect, x, y);
            tiling::lemma_members_inside(geos, i, x, y);
            assert(tiling::covered_once(geos, x, y));
        }
    }
}

proof fn lemma_primary_in_range(group: DisplayGroup, n: int)
    requires
        0 <= n <= group.members@.len(),
    ensures
        group.primary matches Some(primary) ==> (primary_among(group, primary@, n) matches Some(i)
            ==> 0 <= i < n),
    decreases n,
{
    if n > 0 {
        lemma_primary_in_range(group, n - 1);
    }
}

/// Whether the rectangle holds the pixel.
pub open spec fn rect_holds(rect: MemberRect, x: int, y: int) -> bool {
    &&& rect.x <= x < rect.x + rect.width
    &&& rect.y <= y < rect.y + rect.height
}

proof fn lemma_plan_keys_are_free(
    before: PlanningView,
    output: OutputConfig,
    group: DisplayGroup,
    connected: Seq<ConnectedOutput>,
    occupied: Set<u128>,
    key: u128,
)
    requires
        connected.len() <= usize::MAX,
    ensures
        declared_plan(before, output, group, connected, occupied) matches Ok(plan) ==> (plan_keys(
            plan,
        ).contains(key) ==> !before.claims.contains_key(key) && !occupied.contains(key)),
{
    if let Ok(plan) = declared_plan(before, output, group, connected, occupied) {
        if plan_keys(plan).contains(key) {
            let blocked = selection::blocked_keys(occupied, before.claims, true);
            lemma_member_outputs(group, connected, blocked, group.members@.len() as int);
            let i = choose|i: int| 0 <= i < plan_keys(plan).len() && plan_keys(plan)[i] == key;
            law_plans_take_only_free_outputs(output.name@, group, connected, blocked, i);
        }
    }
}

proof fn lemma_declaration_claims(
    before: PlanningView,
    output: OutputConfig,
    k: int,
    connected: Seq<ConnectedOutput>,
    occupied: Set<u128>,
)
    ensures
        with_declaration(before, output, k, connected, occupied).claims == (
        match output.display_group {
            None => before.claims,
            Some(group) => claims_after(
                output,
                group,
                connected,
                occupied,
                before.claims,
                declared_plan(before, output, group, connected, occupied),
            ),
        }),
{
}

proof fn lemma_claims_after(
    before: PlanningView,
    output: OutputConfig,
    group: DisplayGroup,
    connected: Seq<ConnectedOutput>,
    occupied: Set<u128>,
    key: u128,
)
    requires
        connected.len() <= usize::MAX,
    ensures
        ({
            let made = declared_plan(before, output, group, connected, occupied);
            let after = claims_after(output, group, connected, occupied, before.claims, made);
            let present = selection::present_keys(group, connected, occupied);
            &&& before.claims.contains_key(key) ==> after.contains_key(key) && after[key]
                == before.claims[key]
            &&& made is Ok && !output.off && plan_keys(made->Ok_0).contains(key)
                ==> after.contains_key(key) && after[key] == GroupMemberClaim::Planned
            &&& (made is Err || output.off) && !selection::any_claimed(present, before.claims)
                && present.contains(key) ==> after.contains_key(key) && after[key]
                == GroupMemberClaim::SuppressStandalone
        }),
{
    lemma_plan_keys_are_free(before, output, group, connected, occupied, key);
    let present = selection::present_keys(group, connected, occupied);
    if present.contains(key) {
        let i = choose|i: int| 0 <= i < present.len() && present[i] == key;
        if !selection::any_claimed(present, before.claims) {
            assert(!before.claims.contains_key(present[i]));
        }
        assert(present.to_set().contains(key));
    }
}

/// Later declarations neither drop nor change what earlier ones claim.
pub proof fn law_claims_are_kept(
    outputs: Seq<OutputConfig>,
    connected: Seq<ConnectedOutput>,
    occupied: Set<u128>,
    j: int,
    k: int,
    key: u128,
)
    requires
        0 <= j <= k,
        connected.len() <= usize::MAX,
        planning_after(outputs, connected, occupied, j).claims.contains_key(key),
    ensures
        planning_after(outputs, connected, occupied, k).claims.contains_key(key),
        planning_after(outputs, connected, occupied, k).claims[key] == planning_after(
            outputs,
            connected,
            occupied,
            j,
        ).claims[key],
    decreases k - j,
{
    if j < k {
        law_claims_are_kept(outputs, connected, occupied, j, k - 1, key);
        let before = planning_after(outputs, connected, occupied, k - 1);
        lemma_declaration_claims(before, outputs[k - 1], k - 1, connected, occupied);
        if let Some(group) = outputs[k - 1].display_group {
            lemma_claims_after(before, outputs[k - 1], group, connected, occupied, key);
        }
    }
}

proof fn lemma_declaration_plans(
    before: PlanningView,
    output: OutputConfig,
    k: int,
    connected: Seq<ConnectedOutput>,
    occupied: Set<u128>,
    i: int,
)
    requires
        0 <= i < with_declaration(before, output, k, connected, occupied).plans.len(),
    ensures
        ({
            let plan = with_declaration(before, output, k, connected, occupied).plans[i];
            if i < before.plans.len() {
                plan == before.plans[i]
            } else {
                &&& !output.off
                &&& output.display_group matches Some(group) && declared_plan(
                    before,
                    output,
                    group,
                    connected,
                    occupied,
                ) matches Ok(made) && made.members == plan.members
            }
        }),
{
}

/// A complete enabled plan owns its members: after every declaration, each member of each plan is
/// claimed as planned.
pub proof fn law_planned_members_are_claimed(
    outputs: Seq<OutputConfig>,
    connected: Seq<ConnectedOutput>,
    occupied: Set<u128>,
    k: int,
)
    requires
        0 <= k,
        connected.len() <= usize::MAX,
    ensures
        plans_own_their_members(planning_after(outputs, connected, occupied, k)),
    decreases k,
{
    let after = planning_after(outputs, connected, occupied, k);
    if k > 0 {
        law_planned_members_are_claimed(outputs, connected, occupied, k - 1);
        let before = planning_after(outputs, connected, occupied, k - 1);
        assert forall|i: int, m: int|
            0 <= i < after.plans.len() && 0 <= m < after.plans[i].members.len() implies {
            &&& after.claims.contains_key(planned_key(#[trigger] after.plans[i].members[m]))
            &&& after.claims[planned_key(after.plans[i].members[m])] == GroupMemberClaim::Planned
        } by {
            let key = planned_key(after.plans[i].members[m]);
            lemma_declaration_plans(before, outputs[k - 1], k - 1, connected, occupied, i);
            if i < before.plans.len() {
                assert(before.claims.contains_key(planned_key(before.plans[i].members[m])));
                law_claims_are_kept(outputs, connected, occupied, k - 1, k, key);
            } else {
                let group = outputs[k - 1].display_group->0;
                let made = declared_plan(before, outputs[k - 1], group, connected, occupied)->Ok_0;
                lemma_declaration_claims(before, outputs[k - 1], k - 1, connected, occupied);
                assert(plan_keys(made)[m] == key);
                assert(plan_keys(made).contains(key));
                lemma_claims_after(before, outputs[k - 1], group, connected, occupied, key);
            }
        }
    }
}

/// No output is in two plans.
pub proof fn law_plans_share_no_output(
    outputs: Seq<OutputConfig>,
    connected: Seq<ConnectedOutput>,
    occupied: Set<u128>,
    k: int,
    i: int,
    j: int,
    a: int,
    b: int,
)
    requires
        0 <= k,
        connected.len() <= usize::MAX,
        0 <= i < j < planning_after(outputs, connected, occupied, k).plans.len(),
        0 <= a < planning_after(outputs, connected, occupied, k).plans[i].members.len(),
        0 <= b < planning_after(outputs, connected, occupied, k).plans[j].members.len(),
    ensures
        planned_key(planning_after(outputs, connected, occupied, k).plans[i].members[a])
            != planned_key(planning_after(outputs, connected, occupied, k).plans[j].members[b]),
    decreases k,
{
    let after = planning_after(outputs, connected, occupied, k);
    if k > 0 {
        let before = planning_after(outputs, connected, occupied, k - 1);
        lemma_declaration_plans(before, outputs[k - 1], k - 1, connected, occupied, i);
        lemma_declaration_plans(before, outputs[k - 1], k - 1, connected, occupied, j);
        if j < before.plans.len() {
            law_plans_share_no_output(outputs, connected, occupied, k - 1, i, j, a, b);
        } else {
            lemma_plan_count(before, outputs[k - 1], k - 1, connected, occupied);
            law_planned_members_are_claimed(outputs, connected, occupied, k - 1);
            assert(before.claims.contains_key(planned_key(before.plans[i].members[a])));
            let group = outputs[k - 1].display_group->0;
            let made = declared_plan(before, outputs[k - 1], group, connected, occupied)->Ok_0;
            let key = planned_key(after.plans[j].members[b]);
            assert(plan_keys(made)[b] == key);
            assert(plan_keys(made).contains(key));
            lemma_plan_keys_are_free(before, outputs[k - 1], group, connected, occupied, key);
        }
    }
}

proof fn lemma_plan_count(
    before: PlanningView,
    output: OutputConfig,
    k: int,
    connected: Seq<ConnectedOutput>,
    occupied: Set<u128>,
)
    ensures
        before.plans.len() <= with_declaration(before, output, k, connected, occupied).plans.len()
            <= before.plans.len() + 1,
{
}

proof fn lemma_present_is_planned(
    group: DisplayGroup,
    connected: Seq<ConnectedOutput>,
    occupied: Set<u128>,
    claims: Map<u128, GroupMemberClaim>,
    k: int,
)
    requires
        0 <= k,
        connected.len() <= usize::MAX,
        member_outputs(
            group,
            connected,
            selection::blocked_keys(occupied, claims, true),
            k,
        ) is Ok,
        forall|i: int|
            0 <= i < selection::present_outputs(group, connected, occupied, k).len()
                ==> !claims.contains_key(
                selection::key_of(
                    connected[#[trigger] selection::present_outputs(
                        group,
                        connected,
                        occupied,
                        k,
                    )[i] as int],
                ),
            ),
    ensures
        forall|o: usize| #[trigger]
            selection::present_outputs(group, connected, occupied, k).contains(o)
                ==> member_outputs(
                group,
                connected,
                selection::blocked_keys(occupied, claims, true),
                k,
            )->Ok_0.contains(o),
    decreases k,
{
    if k > 0 {
        let blocked = selection::blocked_keys(occupied, claims, true);
        let present = selection::present_outputs(group, connected, occupied, k);
        let present_before = selection::present_outputs(group, connected, occupied, k - 1);
        let taken = member_outputs(group, connected, blocked, k)->Ok_0;
        let taken_before = member_outputs(group, connected, blocked, k - 1)->Ok_0;
        assert forall|i: int| 0 <= i < present_before.len() implies !claims.contains_key(
            selection::key_of(connected[#[trigger] present_before[i] as int]),
        ) by {
            assert(present[i] == present_before[i]);
        }
        lemma_present_is_planned(group, connected, occupied, claims, k - 1);
        let member = group.members@[k - 1];
        selection::lemma_output_for_is_open(member, connected, occupied, present_before);
        assert forall|o: usize| #[trigger] taken_before.contains(o) implies taken.contains(o) by {
            let j = choose|j: int| 0 <= j < taken_before.len() && taken_before[j] == o;
            assert(taken[j] == o);
        }
        assert forall|o: usize| #[trigger] present.contains(o) implies taken.contains(o) by {
            let j = choose|j: int| 0 <= j < present.len() && present[j] == o;
            if j < present_before.len() {
                assert(present_before[j] == o);
                assert(present_before.contains(o));
            } else if !taken_before.contains(o) {
                assert(!claims.contains_key(selection::key_of(connected[present[j] as int])));
                assert(selection::is_open(member, connected, blocked, taken_before, o as int));
                selection::lemma_output_stays(
                    member,
                    connected,
                    occupied,
                    present_before,
                    blocked,
                    taken_before,
                    o,
                );
                assert(taken[taken.len() - 1] == o);
            }
        }
    }
}

/// A declaration that conflicts with no earlier one claims every member that is present, for the
/// whole result: as planned where it is on and its plan succeeds, else to keep the member from
/// being used alone.
pub proof fn law_explicit_declarations_own_their_present_members(
    outputs: Seq<OutputConfig>,
    connected: Seq<ConnectedOutput>,
    occupied: Set<u128>,
    k: int,
    group: DisplayGroup,
    key: u128,
)
    requires
        0 <= k < outputs.len(),
        connected.len() <= usize::MAX,
        outputs[k].display_group == Some(group),
        !selection::any_claimed(
            selection::present_keys(group, connected, occupied),
            planning_after(outputs, connected, occupied, k).claims,
        ),
        selection::present_keys(group, connected, occupied).contains(key),
    ensures
        ({
            let before = planning_after(outputs, connected, occupied, k);
            let planned = declared_plan(before, outputs[k], group, connected, occupied) is Ok;
            let claims = planning_after(outputs, connected, occupied, outputs.len() as int).claims;
            &&& claims.contains_key(key)
            &&& claims[key] == (if planned && !outputs[k].off {
                GroupMemberClaim::Planned
            } else {
                GroupMemberClaim::SuppressStandalone
            })
        }),
{
    let before = planning_after(outputs, connected, occupied, k);
    let made = declared_plan(before, outputs[k], group, connected, occupied);
    let present = selection::present_keys(group, connected, occupied);
    lemma_declaration_claims(before, outputs[k], k, connected, occupied);
    if made is Ok && !outputs[k].off {
        let n = group.members@.len() as int;
        let blocked = selection::blocked_keys(occupied, before.claims, true);
        let places = selection::present_outputs(group, connected, occupied, n);
        let taken = member_outputs(group, connected, blocked, n)->Ok_0;
        lemma_member_outputs(group, connected, blocked, n);
        assert forall|i: int| 0 <= i < places.len() implies !before.claims.contains_key(
            selection::key_of(connected[#[trigger] places[i] as int]),
        ) by {
            assert(!before.claims.contains_key(present[i]));
        }
        lemma_present_is_planned(group, connected, occupied, before.claims, n);
        let i = choose|i: int| 0 <= i < present.len() && present[i] == key;
        assert(places.contains(places[i]));
        assert(taken.contains(places[i]));
        let j = choose|j: int| 0 <= j < taken.len() && taken[j] == places[i];
        assert(plan_keys(made->Ok_0)[j] == key);
        assert(plan_keys(made->Ok_0).contains(key));
    }
    lemma_claims_after(before, outputs[k], group, connected, occupied, key);
    law_claims_are_kept(outputs, connected, occupied, k + 1, outputs.len() as int, key);
}

/// A declaration that conflicts with an earlier one and yields no plan claims nothing.
pub proof fn law_conflicting_declarations_claim_nothing(
    outputs: Seq<OutputConfig>,
    connected: Seq<ConnectedOutput>,
    occupied: Set<u128>,
    k: int,
    group: DisplayGroup,
)
    requires
        0 <= k < outputs.len(),
        outputs[k].display_group == Some(group),
        outputs[k].off || declared_plan(
            planning_after(outputs, connected, occupied, k),
            outputs[k],
            group,
            connected,
            occupied,
        ) is Err,
        selection::any_claimed(
            selection::present_keys(group, connected, occupied),
            planning_after(outputs, connected, occupied, k).claims,
        ),
    ensures
        planning_after(outputs, connected, occupied, k + 1).claims == planning_after(
            outputs,
            connected,
            occupied,
            k,
        ).claims,
{
    let before = planning_after(outputs, connected, occupied, k);
    lemma_declaration_claims(before, outputs[k], k, connected, occupied);
}

/// Every plan comes from a declaration that is on, and carries its scale.
pub proof fn law_only_enabled_declarations_are_planned(
    outputs: Seq<OutputConfig>,
    connected: Seq<ConnectedOutput>,
    occupied: Set<u128>,
    k: int,
    i: int,
)
    requires
        0 <= k <= outputs.len() <= usize::MAX,
        0 <= i < planning_after(outputs, connected, occupied, k).plans.len(),
    ensures
        planning_after(outputs, connected, occupied, k).plans[i].config matches Some(c) && c < k
            && !outputs[c as int].off && outputs[c as int].display_group is Some && outputs[c as int].scale
            == planning_after(outputs, connected, occupied, k).plans[i].configured_scale,
    decreases k,
{
    if k > 0 {
        let before = planning_after(outputs, connected, occupied, k - 1);
        if i < before.plans.len() {
            law_only_enabled_declarations_are_planned(outputs, connected, occupied, k - 1, i);
            assert(planning_after(outputs, connected, occupied, k).plans[i] == before.plans[i]);
        }
    }
}

/// An output that declaration `j` claims is in no plan of a later declaration `k`.
pub proof fn law_claimed_outputs_are_not_planned_again(
    outputs: Seq<OutputConfig>,
    connected: Seq<ConnectedOutput>,
    occupied: Set<u128>,
    j: int,
    k: int,
    group: DisplayGroup,
    key: u128,
    i: int,
)
    requires
        0 <= j < k < outputs.len(),
        connected.len() <= usize::MAX,
        planning_after(outputs, connected, occupied, j + 1).claims.contains_key(key),
        outputs[k].display_group == Some(group),
        0 <= i < group.members@.len(),
    ensures
        group_plan(
            outputs[k].name@,
            group,
            connected,
            selection::blocked_keys(
                occupied,
                planning_after(outputs, connected, occupied, k).claims,
                true,
            ),
        ) matches Ok(plan) ==> planned_key(plan.members[i]) != key,
{
    law_claims_are_kept(outputs, connected, occupied, j + 1, k, key);
    let claims = planning_after(outputs, connected, occupied, k).claims;
    law_plans_take_only_free_outputs(
        outputs[k].name@,
        group,
        connected,
        selection::blocked_keys(occupied, claims, true),
        i,
    );
}

proof fn lemma_closest_mode(list: Seq<DrmMode>, millihz: u32)
    requires
        list.len() > 0,
    ensures
        list.contains(closest_mode(list, millihz)),
        forall|k: int|
            0 <= k < list.len() ==> refresh::rate_gap(
                modes::refresh_of(closest_mode(list, millihz)),
                millihz,
            ) <= refresh::rate_gap(modes::refresh_of(#[trigger] list[k]), millihz),
    decreases list.len(),
{
    if list.len() > 1 {
        let before = list.drop_last();
        lemma_closest_mode(before, millihz);
        let j = choose|j: int| 0 <= j < before.len() && before[j] == closest_mode(before, millihz);
        assert(list[j] == closest_mode(before, millihz));
        assert(list[list.len() - 1] == list.last());
        assert forall|k: int| 0 <= k < list.len() implies refresh::rate_gap(
            modes::refresh_of(closest_mode(list, millihz)),
            millihz,
        ) <= refresh::rate_gap(modes::refresh_of(#[trigger] list[k]), millihz) by {
            if k < before.len() {
                assert(before[k] == list[k]);
            }
        }
    } else {
        assert(list[0] == closest_mode(list, millihz));
    }
}

proof fn lemma_slowest_mode(chosen: Seq<RefreshMode>)
    requires
        chosen.len() > 0,
    ensures
        chosen.contains(slowest_mode(chosen)),
        forall|i: int|
            0 <= i < chosen.len() ==> slowest_mode(chosen).millihz <= (
            #[trigger] chosen[i]).millihz,
    decreases chosen.len(),
{
    if chosen.len() > 1 {
        let before = chosen.drop_last();
        lemma_slowest_mode(before);
        let j = choose|j: int| 0 <= j < before.len() && before[j] == slowest_mode(before);
        assert(chosen[j] == slowest_mode(before));
        assert(chosen[chosen.len() - 1] == chosen.last());
        assert forall|i: int| 0 <= i < chosen.len() implies slowest_mode(chosen).millihz <= (
        #[trigger] chosen[i]).millihz by {
            if i < before.len() {
                assert(before[i] == chosen[i]);
            }
        }
    } else {
        assert(chosen[0] == slowest_mode(chosen));
    }
}

/// A group is paced by its slowest member: no member refreshes less often than the pacing rate,
/// and one refreshes exactly as often.
pub proof fn law_groups_pace_at_the_slowest_member(
    output_name: Seq<char>,
    group: DisplayGroup,
    connected: Seq<ConnectedOutput>,
    blocked: Set<u128>,
)
    requires
        connected.len() <= usize::MAX,
    ensures
        group_plan(output_name, group, connected, blocked) matches Ok(plan) ==> {
            &&& forall|i: int|
                0 <= i < plan.members.len() ==> plan.pacing_refresh.millihz <= modes::refresh_of(
                    (#[trigger] plan.members[i]).mode,
                )
            &&& exists|i: int|
                0 <= i < plan.members.len() && plan.pacing_refresh.millihz == modes::refresh_of(
                    (#[trigger] plan.members[i]).mode,
                )
        },
{
    if let Ok(plan) = group_plan(output_name, group, connected, blocked) {
        let n = group.members@.len() as int;
        lemma_member_outputs(group, connected, blocked, n);
        let outputs = member_outputs(group, connected, blocked, n)->Ok_0;
        let sets = mode_sets(group, connected, outputs);
        let lists = rate_sets(sets);
        let chosen = refresh::common_refresh(lists, group.refresh_sync)->0;
        refresh::law_common_refresh_is_compatible(lists, group.refresh_sync, chosen);
        assert forall|i: int| 0 <= i < n implies modes::refresh_of(
            (#[trigger] plan.members[i]).mode,
        ) == chosen[i].millihz by {
            assert(lists[i].contains(chosen[i]));
            let k = choose|k: int| 0 <= k < lists[i].len() && lists[i][k] == chosen[i];
            assert(rate_of(sets[i][k]) == chosen[i]);
            lemma_closest_mode(sets[i], chosen[i].millihz);
            assert(plan.members[i].mode == closest_mode(sets[i], chosen[i].millihz));
        }
        lemma_slowest_mode(chosen);
        let k = choose|k: int| 0 <= k < chosen.len() && chosen[k] == slowest_mode(chosen);
        assert(modes::refresh_of(plan.members[k].mode) == plan.pacing_refresh.millihz);
    }
}

/// The primary member supplies the identity of the logical output, which takes its connector name
/// from the declaration.
pub proof fn law_primary_member_supplies_the_identity(
    output_name: Seq<char>,
    group: DisplayGroup,
    connected: Seq<ConnectedOutput>,
    blocked: Set<u128>,
)
    requires
        connected.len() <= usize::MAX,
    ensures
        group_plan(output_name, group, connected, blocked) matches Ok(plan) ==> {
            &&& plan.name.connector == output_name
            &&& exists|i: int|
                {
                    &&& 0 <= i < connected.len()
                    &&& (#[trigger] connected[i]).node == plan.members[plan.primary].node
                    &&& connected[i].crtc == plan.members[plan.primary].crtc
                    &&& connected[i].identity@.make == plan.name.make
                    &&& connected[i].identity@.model == plan.name.model
                    &&& connected[i].identity@.serial == plan.name.serial
                }
        },
{
    if let Ok(plan) = group_plan(output_name, group, connected, blocked) {
        let n = group.members@.len() as int;
        lemma_member_outputs(group, connected, blocked, n);
        let outputs = member_outputs(group, connected, blocked, n)->Ok_0;
        law_plan_members_tile_the_group(output_name, group, connected, blocked, 0, 0);
        let i = outputs[plan.primary] as int;
        assert(connected[i].node == plan.members[plan.primary].node);
    }
}

/// Which member is the primary, and the key of the group, depend on the declaration alone: neither
/// changes with what is connected or in use.
pub proof fn law_primary_is_never_reelected(
    output_name: Seq<char>,
    group: DisplayGroup,
    connected: Seq<ConnectedOutput>,
    blocked: Set<u128>,
    later_connected: Seq<ConnectedOutput>,
    later_blocked: Set<u128>,
)
    ensures
        group_plan(output_name, group, connected, blocked) matches Ok(plan) ==> (group_plan(
            output_name,
            group,
            later_connected,
            later_blocked,
        ) matches Ok(later) ==> plan.primary == later.primary && plan.key == later.key),
{
}

/// Every member of a plan stands where its declaration puts it: at the configured position or,
/// without one, right of the member before it on the top row. It is as large as its mode, with
/// width and height exchanged exactly when it is turned by a quarter.
pub proof fn law_members_stand_where_they_are_configured(
    output_name: Seq<char>,
    group: DisplayGroup,
    connected: Seq<ConnectedOutput>,
    blocked: Set<u128>,
    i: int,
)
    requires
        connected.len() <= usize::MAX,
        0 <= i < group.members@.len(),
    ensures
        group_plan(output_name, group, connected, blocked) matches Ok(plan) ==> {
            let member = group.members@[i];
            let planned = plan.members[i];
            &&& plan.members.len() == group.members@.len()
            &&& member.position matches Some(p) ==> planned.rect.x == p.0 && planned.rect.y == p.1
            &&& member.position is None ==> {
                &&& planned.rect.y == 0
                &&& i == 0 ==> planned.rect.x == 0
                &&& i > 0 ==> planned.rect.x == plan.members[i - 1].rect.x + plan.members[i
                    - 1].rect.width
            }
            &&& planned.transform == member.transform
            &&& match member.transform {
                Transform::_90 | Transform::_270 | Transform::Flipped90 | Transform::Flipped270 => {
                    planned.rect.width == planned.mode.vdisplay && planned.rect.height
                        == planned.mode.hdisplay
                },
                Transform::Normal | Transform::_180 | Transform::Flipped | Transform::Flipped180 => {
                    planned.rect.width == planned.mode.hdisplay && planned.rect.height
                        == planned.mode.vdisplay
                },
            }
        },
{
    if let Ok(plan) = group_plan(output_name, group, connected, blocked) {
        let n = group.members@.len() as int;
        lemma_member_outputs(group, connected, blocked, n);
        let outputs = member_outputs(group, connected, blocked, n)->Ok_0;
        let sets = mode_sets(group, connected, outputs);
        let chosen = refresh::common_refresh(rate_sets(sets), group.refresh_sync)->0;
        let driven = driven_modes(sets, chosen);
        let geos = geometries(group, driven);
        assert(geos.len() == n);
        layout::lemma_extents(geos, n);
        layout::lemma_row_start_nonneg(geos, i);
        assert(layout::right_of(geos, i) <= layout::group_width(geos));
        assert(geos[i] == geometry(group.members@[i], driven[i]));
        assert(layout::all_positioned(geos) || layout::none_positioned(geos));
        if group.members@[i].position is None {
            assert(geos[i].position is None);
            if i > 0 {
                layout::lemma_row_start_nonneg(geos, i - 1);
                assert(geos[i - 1].position is None);
                assert(layout::right_of(geos, i - 1) <= layout::group_width(geos));
                assert(layout::row_start(geos, i) == layout::row_start(geos, i - 1) + geos[i
                    - 1].size.width);
            }
        }
    }
}

/// Whether a member at its configured position, shown with the given mode, has the pixel.
pub open spec fn configured_member_has(member: GroupMember, mode: DrmMode, x: int, y: int) -> bool {
    let quarter_turned = match member.transform {
        Transform::_90 | Transform::_270 | Transform::Flipped90 | Transform::Flipped270 => true,
        _ => false,
    };
    let across = if quarter_turned {
        mode.vdisplay
    } else {
        mode.hdisplay
    };
    let down = if quarter_turned {
        mode.hdisplay
    } else {
        mode.vdisplay
    };
    member.position matches Some(p) && p.0 <= x < p.0 + across && p.1 <= y < p.1 + down
}

/// A declaration of two to four members is not rejected for its layout where the members, turned
/// and at their configured positions, share out a rectangle at the origin that fits the output
/// protocol: every pixel of it to exactly one member, and no pixel outside it.
pub proof fn law_declared_tilings_are_planned(
    output_name: Seq<char>,
    group: DisplayGroup,
    connected: Seq<ConnectedOutput>,
    blocked: Set<u128>,
    outputs: Seq<usize>,
    chosen: Seq<RefreshMode>,
    driven: Seq<DrmMode>,
    width: int,
    height: int,
)
    requires
        connected.len() <= usize::MAX,
        2 <= group.members@.len() <= 4,
        member_outputs(group, connected, blocked, group.members@.len() as int) == Ok::<
            Seq<usize>,
            Seq<char>,
        >(outputs),
        forall|i: int|
            0 <= i < outputs.len() ==> (#[trigger] mode_sets(group, connected, outputs)[i]).len()
                > 0,
        refresh::common_refresh(
            rate_sets(mode_sets(group, connected, outputs)),
            group.refresh_sync,
        ) == Some(chosen),
        driven == driven_modes(mode_sets(group, connected, outputs), chosen),
        0 < width <= u16::MAX,
        0 < height <= u16::MAX,
        forall|i: int|
            0 <= i < group.members@.len() ==> {
                &&& (#[trigger] group.members@[i]).position matches Some(p) && p.0 >= 0 && p.1 >= 0
                &&& driven[i].hdisplay > 0
                &&& driven[i].vdisplay > 0
            },
        forall|i: int, x: int, y: int|
            0 <= i < group.members@.len() && #[trigger] configured_member_has(
                group.members@[i],
                driven[i],
                x,
                y,
            ) ==> 0 <= x < width && 0 <= y < height,
        forall|x: int, y: int|
            #![trigger shared_out(group, driven, x, y)]
            0 <= x < width && 0 <= y < height ==> shared_out(group, driven, x, y),
    ensures
        group_plan(output_name, group, connected, blocked) is Ok,
        group_plan(output_name, group, connected, blocked)->Ok_0.size.width == width,
        group_plan(output_name, group, connected, blocked)->Ok_0.size.height == height,
{
    let n = group.members@.len() as int;
    lemma_member_outputs(group, connected, blocked, n);
    let geos = geometries(group, driven);
    assert(geos.len() == n);
    assert forall|i: int| 0 <= i < n implies (#[trigger] geos[i]).position is Some
        && geos[i].size.width > 0 && geos[i].size.height > 0 by {
        assert(geos[i] == geometry(group.members@[i], driven[i]));
    }
    assert forall|i: int, x: int, y: int| 0 <= i < n implies #[trigger] layout::member_has(
        geos,
        i,
        x,
        y,
    ) == configured_member_has(group.members@[i], driven[i], x, y) by {
        assert(geos[i] == geometry(group.members@[i], driven[i]));
        assert(group.members@[i].position is Some);
    }
    assert forall|i: int| 0 <= i < n implies #[trigger] layout::right_of(geos, i) <= width
        && layout::bottom_of(geos, i) <= height by {
        assert(geos[i].position is Some);
        assert(layout::member_has(
            geos,
            i,
            layout::right_of(geos, i) - 1,
            layout::bottom_of(geos, i) - 1,
        ));
    }
    lemma_extents_within(geos, n, width, height);
    layout::lemma_extents(geos, n);
    layout::lemma_extent_y_bounds(geos, n);
    assert(shared_out(group, driven, width - 1, height - 1));
    let far = choose|i: int|
        0 <= i < n && #[trigger] configured_member_has(
            group.members@[i],
            driven[i],
            width - 1,
            height - 1,
        );
    assert(layout::member_has(geos, far, width - 1, height - 1));
    assert(layout::right_of(geos, far) <= layout::group_width(geos));
    assert(layout::bottom_of(geos, far) <= layout::group_height(geos));
    assert(layout::group_width(geos) == width);
    assert(layout::group_height(geos) == height);
    assert forall|x: int, y: int| 0 <= x < width && 0 <= y < height implies #[trigger]
        tiling::covered_once(geos, x, y) by {
        assert(shared_out(group, driven, x, y));
        let i = choose|i: int|
            0 <= i < n && #[trigger] configured_member_has(group.members@[i], driven[i], x, y);
        assert(layout::member_has(geos, i, x, y));
    }
    tiling::law_exact_tiling_is_accepted(geos);
    assert(!negative_position(group)) by {
        if negative_position(group) {
            let i = choose|i: int|
                0 <= i < n && ((#[trigger] group.members@[i]).position matches Some(p) && (p.0 < 0
                    || p.1 < 0));
            assert(group.members@[i].position is Some);
        }
    }
}

/// Whether exactly one member at its configured position has the pixel.
pub open spec fn shared_out(group: DisplayGroup, driven: Seq<DrmMode>, x: int, y: int) -> bool {
    &&& exists|i: int|
        0 <= i < group.members@.len() && #[trigger] configured_member_has(
            group.members@[i],
            driven[i],
            x,
            y,
        )
    &&& forall|i: int, j: int|
        0 <= i < group.members@.len() && 0 <= j < group.members@.len()
            && #[trigger] configured_member_has(group.members@[i], driven[i], x, y)
            && #[trigger] configured_member_has(group.members@[j], driven[j], x, y) ==> i == j
}

proof fn lemma_extents_within(ms: Seq<MemberGeometry>, n: int, width: int, height: int)
    requires
        0 <= n <= ms.len(),
        0 <= width,
        0 <= height,
        forall|i: int|
            0 <= i < n ==> #[trigger] layout::right_of(ms, i) <= width && layout::bottom_of(ms, i)
                <= height,
    ensures
        layout::extent_x(ms, n) <= width,
        layout::extent_y(ms, n) <= height,
    decreases n,
{
    if n > 0 {
        lemma_extents_within(ms, n - 1, width, height);
        assert(layout::right_of(ms, n - 1) <= width);
    }
}

/// Every member of a plan is a connected output that its selector matches, with the connector and
/// CRTC of that output, and runs a progressive mode of that connector; a configured mode is kept to.
pub proof fn law_members_are_connected_outputs_with_their_modes(
    output_name: Seq<char>,
    group: DisplayGroup,
    connected: Seq<ConnectedOutput>,
    blocked: Set<u128>,
    i: int,
)
    requires
        connected.len() <= usize::MAX,
        0 <= i < group.members@.len(),
    ensures
        group_plan(output_name, group, connected, blocked) matches Ok(plan) ==> {
            let planned = plan.members[i];
            &&& exists|o: int|
                {
                    &&& 0 <= o < connected.len()
                    &&& group.members@[i].matches@[o]
                    &&& (#[trigger] connected[o]).node == planned.node
                    &&& connected[o].crtc == planned.crtc
                    &&& connected[o].connector.handle == planned.connector
                    &&& connected[o].connector.modes@.contains(planned.mode)
                }
            &&& planned.mode.flags & 0x10 == 0
            &&& group.members@[i].mode matches Some(c) ==> {
                &&& planned.mode.hdisplay == c.width
                &&& planned.mode.vdisplay == c.height
                &&& c.refresh_millihz matches Some(rate) ==> modes::refresh_of(planned.mode) == rate
            }
        },
{
    if let Ok(plan) = group_plan(output_name, group, connected, blocked) {
        let n = group.members@.len() as int;
        lemma_member_outputs(group, connected, blocked, n);
        let outputs = member_outputs(group, connected, blocked, n)->Ok_0;
        let sets = mode_sets(group, connected, outputs);
        let chosen = refresh::common_refresh(rate_sets(sets), group.refresh_sync)->0;
        let o = outputs[i] as int;
        assert(sets[i].len() > 0);
        lemma_closest_mode_listed(sets[i], chosen[i].millihz);
        modes::law_member_modes_come_from_the_connector(
            connected[o].connector.modes@,
            group.members@[i].mode,
        );
        assert(sets[i].contains(plan.members[i].mode));
        assert(connected[o].node == plan.members[i].node);
    }
}

proof fn lemma_closest_mode_listed(list: Seq<DrmMode>, millihz: u32)
    requires
        list.len() > 0,
    ensures
        list.contains(closest_mode(list, millihz)),
        forall|k: int|
            0 <= k < list.len() ==> refresh::rate_gap(
                modes::refresh_of(closest_mode(list, millihz)),
                millihz,
            ) <= refresh::rate_gap(modes::refresh_of(#[trigger] list[k]), millihz),
    decreases list.len(),
{
    if list.len() > 1 {
        let rest = list.drop_last();
        lemma_closest_mode_listed(rest, millihz);
        let best = closest_mode(rest, millihz);
        let j = choose|j: int| 0 <= j < rest.len() && rest[j] == best;
        assert(list[j] == best);
        assert forall|k: int| 0 <= k < list.len() implies refresh::rate_gap(
            modes::refresh_of(closest_mode(list, millihz)),
            millihz,
        ) <= refresh::rate_gap(modes::refresh_of(#[trigger] list[k]), millihz) by {
            if k < rest.len() {
                assert(rest[k] == list[k]);
            }
        }
        assert(list[list.len() - 1] == list.last());
    } else {
        assert(list[0] == closest_mode(list, millihz));
    }
}

/// The refresh rates of the members of a plan lie within five thousandths of a hertz of each other
/// where the declaration is strict, and within a tenth where it is relaxed.
pub proof fn law_members_refresh_together(
    output_name: Seq<char>,
    group: DisplayGroup,
    connected: Seq<ConnectedOutput>,
    blocked: Set<u128>,
    i: int,
    j: int,
)
    requires
        connected.len() <= usize::MAX,
        0 <= i < group.members@.len(),
        0 <= j < group.members@.len(),
    ensures
        group_plan(output_name, group, connected, blocked) matches Ok(plan) ==> {
            let a = modes::refresh_of(plan.members[i].mode);
            let b = modes::refresh_of(plan.members[j].mode);
            &&& group.refresh_sync is Strict ==> a <= b + 5
            &&& group.refresh_sync is Relaxed ==> a <= b + 100
        },
{
    if let Ok(plan) = group_plan(output_name, group, connected, blocked) {
        let n = group.members@.len() as int;
        lemma_member_outputs(group, connected, blocked, n);
        let outputs = member_outputs(group, connected, blocked, n)->Ok_0;
        let sets = mode_sets(group, connected, outputs);
        let lists = rate_sets(sets);
        let chosen = refresh::common_refresh(lists, group.refresh_sync)->0;
        refresh::law_common_refresh_is_compatible(lists, group.refresh_sync, chosen);
        assert forall|k: int| 0 <= k < n implies modes::refresh_of((#[trigger] plan.members[k]).mode)
            == chosen[k].millihz by {
            assert(lists[k].contains(chosen[k]));
            let l = choose|l: int| 0 <= l < lists[k].len() && lists[k][l] == chosen[k];
            assert(rate_of(sets[k][l]) == chosen[k]);
            lemma_closest_mode(sets[k], chosen[k].millihz);
            assert(plan.members[k].mode == closest_mode(sets[k], chosen[k].millihz));
        }
        assert(modes::refresh_of(plan.members[i].mode) == chosen[i].millihz);
        assert(modes::refresh_of(plan.members[j].mode) == chosen[j].millihz);
        refresh::law_tolerances_are_five_and_a_hundred_millihertz(
            lists,
            group.refresh_sync,
            chosen,
            i,
            j,
        );
    }
}

/// A plan carries what its declaration says of the whole group: how its members are synchronised,
/// whether it is always composited, and the key of its selectors. Where it was declared is added
/// when all declarations are planned.
pub proof fn law_plans_carry_the_declaration(
    output_name: Seq<char>,
    group: DisplayGroup,
    connected: Seq<ConnectedOutput>,
    blocked: Set<u128>,
)
    ensures
        group_plan(output_name, group, connected, blocked) matches Ok(plan) ==> {
            &&& plan.refresh_sync == group.refresh_sync
            &&& plan.composited_only <==> group.render_policy == GroupRenderPolicy::Composited
            &&& plan.key == names::group_key(
                Seq::new(group.members@.len(), |i: int| group.members@[i].output@),
            )
            &&& plan.config is None
            &&& plan.configured_scale is None
        },
{
}

/// The primary member is the first that the declaration names as primary, whatever the case of the
/// letters; without such a member it is the first of all.
pub proof fn law_the_primary_is_the_member_named_so(
    output_name: Seq<char>,
    group: DisplayGroup,
    connected: Seq<ConnectedOutput>,
    blocked: Set<u128>,
    i: int,
)
    requires
        0 <= i < group.members@.len(),
    ensures
        group_plan(output_name, group, connected, blocked) matches Ok(plan) ==> {
            &&& group.primary is None ==> plan.primary == 0
            &&& group.primary matches Some(primary) ==> {
                &&& (text::same_ignoring_case(group.members@[i].output@, primary@) && forall|j: int|
                    0 <= j < i ==> !text::same_ignoring_case(
                        (#[trigger] group.members@[j]).output@,
                        primary@,
                    )) ==> plan.primary == i
                &&& (forall|j: int|
                    0 <= j < group.members@.len() ==> !text::same_ignoring_case(
                        (#[trigger] group.members@[j]).output@,
                        primary@,
                    )) ==> plan.primary == 0
            }
        },
{
    if let Some(primary) = group.primary {
        lemma_primary_first(group, primary@, group.members@.len() as int);
        match primary_among(group, primary@, group.members@.len() as int) {
            Some(f) => {
                assert(text::same_ignoring_case(group.members@[f].output@, primary@));
            },
            None => {
                assert(!text::same_ignoring_case(group.members@[i].output@, primary@));
            },
        }
    }
}

proof fn lemma_primary_first(group: DisplayGroup, primary: Seq<char>, n: int)
    requires
        0 <= n <= group.members@.len(),
    ensures
        match primary_among(group, primary, n) {
            Some(f) => 0 <= f < n && text::same_ignoring_case(group.members@[f].output@, primary)
                && forall|j: int|
                0 <= j < f ==> !text::same_ignoring_case(
                    (#[trigger] group.members@[j]).output@,
                    primary,
                ),
            None => forall|j: int|
                0 <= j < n ==> !text::same_ignoring_case(
                    (#[trigger] group.members@[j]).output@,
                    primary,
                ),
        },
    decreases n,
{
    if n > 0 {
        lemma_primary_first(group, primary, n - 1);
    }
}

/// A declaration that puts a member left of or above the origin is never planned.
pub proof fn law_negative_positions_are_refused(
    output_name: Seq<char>,
    group: DisplayGroup,
    connected: Seq<ConnectedOutput>,
    blocked: Set<u128>,
    i: int,
)
    requires
        0 <= i < group.members@.len(),
        group.members@[i].position matches Some(p) && (p.0 < 0 || p.1 < 0),
    ensures
        group_plan(output_name, group, connected, blocked) is Err,
{
    assert(negative_position(group));
}

/// Each declaration is planned in turn: one that succeeds adds its plan, marked with the place and
/// the scale of the declaring block, unless that block is off; one that fails adds its name and the
/// reason to the rejections; a block without a declaration adds nothing.
pub proof fn law_declarations_are_planned_or_reported(
    outputs: Seq<OutputConfig>,
    connected: Seq<ConnectedOutput>,
    occupied: Set<u128>,
    k: int,
)
    requires
        0 <= k < outputs.len() <= usize::MAX,
    ensures
        ({
            let before = planning_after(outputs, connected, occupied, k);
            let after = planning_after(outputs, connected, occupied, k + 1);
            &&& outputs[k].display_group is None ==> after == before
            &&& outputs[k].display_group matches Some(group) ==> (match group_plan(
                outputs[k].name@,
                group,
                connected,
                occupied.union(before.claims.dom()),
            ) {
                Ok(plan) => {
                    &&& after.rejections == before.rejections
                    &&& outputs[k].off ==> after.plans == before.plans
                    &&& !outputs[k].off ==> {
                        let added = after.plans.last();
                        &&& after.plans.len() == before.plans.len() + 1
                        &&& after.plans.drop_last() == before.plans
                        &&& added.config == Some(k as usize)
                        &&& added.configured_scale == outputs[k].scale
                        &&& added.key == plan.key
                        &&& added.name == plan.name
                        &&& added.members == plan.members
                        &&& added.primary == plan.primary
                        &&& added.size == plan.size
                        &&& added.refresh_sync == plan.refresh_sync
                        &&& added.pacing_refresh == plan.pacing_refresh
                        &&& added.composited_only == plan.composited_only
                    }
                },
                Err(reason) => {
                    &&& after.plans == before.plans
                    &&& after.rejections.len() == before.rejections.len() + 1
                    &&& after.rejections.drop_last() == before.rejections
                    &&& after.rejections.last().output == outputs[k].name@
                    &&& after.rejections.last().reason == reason
                },
            })
        }),
{
    let before = planning_after(outputs, connected, occupied, k);
    let after = planning_after(outputs, connected, occupied, k + 1);
    assert(after == with_declaration(before, outputs[k], k, connected, occupied));
    if let Some(group) = outputs[k].display_group {
        match declared_plan(before, outputs[k], group, connected, occupied) {
            Ok(plan) => {
                if !outputs[k].off {
                    assert(after.plans.drop_last() =~= before.plans);
                }
            },
            Err(reason) => {
                assert(after.rejections.drop_last() =~= before.rejections);
            },
        }
    }
}

/// Scales compare as the numbers that their bits stand for: every number equals itself, the two
/// zeros equal each other, and what is not a number equals nothing.
pub proof fn law_scales_compare_as_numbers(a: u64, b: u64)
    ensures
        same_scale(a, b) == same_scale(b, a),
        same_scale(a, a) <==> a as int % 0x8000_0000_0000_0000 <= 0x7ff0_0000_0000_0000,
        same_scale(0, 0x8000_0000_0000_0000),
        same_scale(a, b) && a != b ==> a as int % 0x8000_0000_0000_0000 == 0 && b as int
            % 0x8000_0000_0000_0000 == 0,
        same_scale(a, b) ==> same_scale(a, a) && same_scale(b, b),
{
}

/// Members negotiate with the rates of their modes, each marked as preferred exactly when the kernel
/// marks the mode so.
pub proof fn law_rates_are_those_of_the_modes(list: Seq<DrmMode>, k: int)
    requires
        0 <= k < list.len(),
    ensures
        rates(list).len() == list.len(),
        rates(list)[k].millihz == modes::refresh_of(list[k]),
        rates(list)[k].preferred <==> list[k].mode_type & 0x08 != 0,
{
}

/// A member is driven with the first of its modes that come closest to the chosen rate.
pub proof fn law_members_are_driven_with_the_closest_mode(list: Seq<DrmMode>, millihz: u32)
    requires
        list.len() > 0,
    ensures
        exists|i: int|
            {
                &&& 0 <= i < list.len()
                &&& #[trigger] list[i] == closest_mode(list, millihz)
                &&& forall|k: int|
                    i <= k < list.len() ==> refresh::rate_gap(modes::refresh_of(list[i]), millihz)
                        <= refresh::rate_gap(modes::refresh_of(#[trigger] list[k]), millihz)
                &&& forall|k: int|
                    0 <= k < i ==> refresh::rate_gap(modes::refresh_of(list[i]), millihz)
                        < refresh::rate_gap(modes::refresh_of(#[trigger] list[k]), millihz)
            },
    decreases list.len(),
{
    if list.len() == 1 {
        assert(list[0] == closest_mode(list, millihz));
    } else {
        let rest = list.drop_last();
        let last = list.len() - 1;
        law_members_are_driven_with_the_closest_mode(rest, millihz);
        let i = choose|i: int|
            {
                &&& 0 <= i < rest.len()
                &&& #[trigger] rest[i] == closest_mode(rest, millihz)
                &&& forall|k: int|
                    i <= k < rest.len() ==> refresh::rate_gap(modes::refresh_of(rest[i]), millihz)
                        <= refresh::rate_gap(modes::refresh_of(#[trigger] rest[k]), millihz)
                &&& forall|k: int|
                    0 <= k < i ==> refresh::rate_gap(modes::refresh_of(rest[i]), millihz)
                        < refresh::rate_gap(modes::refresh_of(#[trigger] rest[k]), millihz)
            };
        assert(list[i] == rest[i]);
        assert forall|k: int| 0 <= k < rest.len() implies #[trigger] list[k] == rest[k] by {}
        if closest_mode(list, millihz) == list[last] && refresh::rate_gap(
            modes::refresh_of(list[last]),
            millihz,
        ) < refresh::rate_gap(modes::refresh_of(rest[i]), millihz) {
            assert forall|k: int| 0 <= k < last implies refresh::rate_gap(
                modes::refresh_of(list[last]),
                millihz,
            ) < refresh::rate_gap(modes::refresh_of(#[trigger] list[k]), millihz) by {
                assert(list[k] == rest[k]);
            }
            assert(list[last] == closest_mode(list, millihz));
        } else {
            assert(list[i] == closest_mode(list, millihz));
            assert forall|k: int| i <= k < list.len() implies refresh::rate_gap(
                modes::refresh_of(list[i]),
                millihz,
            ) <= refresh::rate_gap(modes::refresh_of(#[trigger] list[k]), millihz) by {
                if k < last {
                    assert(list[k] == rest[k]);
                }
            }
            assert forall|k: int| 0 <= k < i implies refresh::rate_gap(
                modes::refresh_of(list[i]),
                millihz,
            ) < refresh::rate_gap(modes::refresh_of(#[trigger] list[k]), millihz) by {
                assert(list[k] == rest[k]);
            }
        }
    }
}

/// A declaration is refused for the first thing that stands in its way: a member without an output
/// or with several, a member without a usable mode, no compatible refresh rates, a negative
/// position, and last its layout.
pub proof fn law_declarations_are_refused_for_the_first_reason(
    output_name: Seq<char>,
    group: DisplayGroup,
    connected: Seq<ConnectedOutput>,
    blocked: Set<u128>,
    i: int,
)
    requires
        connected.len() <= usize::MAX,
        0 <= i < group.members@.len(),
    ensures
        match member_outputs(group, connected, blocked, group.members@.len() as int) {
            Err(reason) => group_plan(output_name, group, connected, blocked) == Err::<
                PlanView,
                Seq<char>,
            >(reason),
            Ok(outputs) => {
                let sets = mode_sets(group, connected, outputs);
                let chosen = refresh::common_refresh(rate_sets(sets), group.refresh_sync);
                let planned = group_plan(output_name, group, connected, blocked);
                let negative = exists|j: int|
                    0 <= j < group.members@.len() && ((#[trigger] group.members@[j]).position
                        matches Some(p) && (p.0 < 0 || p.1 < 0));
                let usable = forall|j: int| 0 <= j < sets.len() ==> (#[trigger] sets[j]).len() > 0;
                &&& sets[i].len() == 0 ==> planned == Err::<PlanView, Seq<char>>(
                    "a member has no usable non-interlaced mode"@,
                )
                &&& usable && chosen is None ==> planned == Err::<PlanView, Seq<char>>(
                    "members do not advertise a compatible refresh rate"@,
                )
                &&& usable && chosen is Some && negative ==> planned == Err::<PlanView, Seq<char>>(
                    "member positions cannot be negative"@,
                )
                &&& usable && chosen is Some && !negative && planned is Err ==> exists|
                    e: layout::LayoutError,
                | planned == Err::<PlanView, Seq<char>>(#[trigger] e.message())
            },
        },
{
    lemma_member_outputs(group, connected, blocked, group.members@.len() as int);
    if let Ok(outputs) = member_outputs(group, connected, blocked, group.members@.len() as int) {
        let sets = mode_sets(group, connected, outputs);
        assert(sets.len() == group.members@.len());
        if forall|j: int| 0 <= j < sets.len() ==> (#[trigger] sets[j]).len() > 0 {
            assert(!(exists|j: int| 0 <= j < sets.len() && (#[trigger] sets[j]).len() == 0));
        }
    }
}

/// A member that no free output matches stops the planning with its own name in the reason, and so
/// does one that several match: the first such member counts.
pub proof fn law_unserved_members_are_named(
    group: DisplayGroup,
    connected: Seq<ConnectedOutput>,
    blocked: Set<u128>,
    k: int,
    served: Seq<usize>,
)
    requires
        0 <= k < group.members@.len(),
        member_outputs(group, connected, blocked, k) == Ok::<Seq<usize>, Seq<char>>(served),
    ensures
        ({
            let name = group.members@[k].output@;
            let all = member_outputs(group, connected, blocked, group.members@.len() as int);
            match selection::output_for(group.members@[k], connected, blocked, served) {
                Err(CandidateChoiceError::Missing) => all == Err::<Seq<usize>, Seq<char>>(
                    "member `"@ + name + "` is not connected or is already in use"@,
                ),
                Err(CandidateChoiceError::Ambiguous) => all == Err::<Seq<usize>, Seq<char>>(
                    "member selector `"@ + name
                        + "` matches more than one connected output; use connector names to disambiguate identical displays"@,
                ),
                Ok(o) => member_outputs(group, connected, blocked, k + 1) == Ok::<
                    Seq<usize>,
                    Seq<char>,
                >(served.push(o)),
            }
        }),
{
    if selection::output_for(group.members@[k], connected, blocked, served) is Err {
        lemma_member_outputs_fail(
            group,
            connected,
            blocked,
            k + 1,
            group.members@.len() as int,
        );
    }
}

} // verus!
